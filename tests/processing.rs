use pipewire_to_spi::format::{accept_format, AudioFormat, FormatEvent, MediaSubtype, MediaType};
use pipewire_to_spi::meter::{meter_bar, peak_index};
use pipewire_to_spi::sample::{magnitude_of, update_peak, word_at};
use pipewire_to_spi::session::{build_frame, BufferOutcome, Delivery, StreamContext};
use pipewire_to_spi::stream::{channel_samples, scan_buffer};

fn encode(samples: &[f32]) -> Vec<u8> {
    let mut out = Vec::new();
    for s in samples {
        out.extend_from_slice(&s.to_le_bytes());
    }
    out
}

fn bits(samples: &[f32]) -> Vec<u32> {
    samples.iter().map(|s| s.to_bits()).collect()
}

fn index_of(v: f32) -> usize {
    peak_index(v.abs().to_bits())
}

fn stereo_context() -> StreamContext {
    let mut ctx = StreamContext::new();
    let ev = FormatEvent::Described {
        media_type: MediaType::Audio,
        media_subtype: MediaSubtype::Raw,
        rate: 48000,
        channels: 2,
    };
    assert_eq!(ctx.on_format_changed(&ev), Some(AudioFormat { rate: 48000, channels: 2 }));
    ctx
}

#[test]
fn stereo_buffer_splits_into_channels() {
    let b = encode(&[0.5, -0.8, 0.2, 0.9]);
    assert_eq!(channel_samples(&b, 16, 2, 0), bits(&[0.5, 0.2]));
    assert_eq!(channel_samples(&b, 16, 2, 1), bits(&[-0.8, 0.9]));
}

#[test]
fn stereo_buffer_peaks_and_bars() {
    let b = encode(&[0.5, -0.8, 0.2, 0.9]);
    let (forwarded, peaks) = scan_buffer(&b, 16, 2);
    assert_eq!(f32::from_bits(peaks[0]), 0.5);
    assert_eq!(f32::from_bits(peaks[1]), 0.9);
    assert_eq!(peak_index(peaks[0]), 15);
    assert_eq!(peak_index(peaks[1]), 27);
    assert_eq!(forwarded, encode(&[0.5, 0.2, -0.8, 0.9]));
    let frame = build_frame(&b, 16, 2, false);
    assert_eq!(frame.indices, vec![15, 27]);
    assert_eq!(frame.bars[0], format!("{}{}", "*".repeat(16), " ".repeat(25)));
    assert_eq!(frame.bars[1], format!("{}{}", "*".repeat(28), " ".repeat(13)));
    assert_eq!(frame.samples_per_channel, 2);
    assert_eq!(frame.cursor_up, None);
}

#[test]
fn trailing_partial_sample_is_dropped() {
    let mut b = encode(&[0.25, -0.5, 0.75, 0.125]);
    b.push(0xff);
    b.push(0x7f);
    assert_eq!(b.len(), 18);
    assert_eq!(channel_samples(&b, 18, 2, 0), bits(&[0.25, 0.75]));
    assert_eq!(channel_samples(&b, 18, 2, 1), bits(&[-0.5, 0.125]));
    let (forwarded, peaks) = scan_buffer(&b, 18, 2);
    assert_eq!(forwarded, encode(&[0.25, 0.75, -0.5, 0.125]));
    assert_eq!(f32::from_bits(peaks[0]), 0.75);
    assert_eq!(f32::from_bits(peaks[1]), 0.5);
}

#[test]
fn chunk_larger_than_mapped_bytes_stops_at_the_end() {
    let b = encode(&[0.1, 0.2, 0.3]);
    assert_eq!(channel_samples(&b, 64, 1, 0), bits(&[0.1, 0.2, 0.3]));
    let (forwarded, _) = scan_buffer(&b, 64, 2);
    assert_eq!(forwarded, encode(&[0.1, 0.3, 0.2]));
}

#[test]
fn chunk_smaller_than_mapped_bytes_limits_the_walk() {
    let b = encode(&[0.1, 0.2, 0.3, 0.4]);
    assert_eq!(channel_samples(&b, 8, 1, 0), bits(&[0.1, 0.2]));
}

#[test]
fn three_channels_each_get_their_samples() {
    let s = [0.1, 0.2, 0.3, 0.4, 0.5, 0.6];
    let b = encode(&s);
    assert_eq!(channel_samples(&b, 24, 3, 0), bits(&[0.1, 0.4]));
    assert_eq!(channel_samples(&b, 24, 3, 1), bits(&[0.2, 0.5]));
    assert_eq!(channel_samples(&b, 24, 3, 2), bits(&[0.3, 0.6]));
    let (forwarded, _) = scan_buffer(&b, 24, 3);
    assert_eq!(forwarded, encode(&[0.1, 0.4, 0.2, 0.5, 0.3, 0.6]));
}

#[test]
fn empty_buffer_gives_zero_peaks() {
    let (forwarded, peaks) = scan_buffer(&[], 0, 2);
    assert!(forwarded.is_empty());
    assert_eq!(peaks, vec![0, 0]);
}

#[test]
fn peak_ignores_nan_and_sign() {
    let b = encode(&[-0.0, f32::NAN, -0.3, 0.2]);
    let (_, peaks) = scan_buffer(&b, 16, 1);
    assert_eq!(f32::from_bits(peaks[0]), 0.3);
    let b = encode(&[f32::NAN, -f32::NAN]);
    let (_, peaks) = scan_buffer(&b, 8, 1);
    assert_eq!(peaks[0], 0);
    let b = encode(&[0.5, f32::NEG_INFINITY]);
    let (_, peaks) = scan_buffer(&b, 8, 1);
    assert_eq!(f32::from_bits(peaks[0]), f32::INFINITY);
}

#[test]
fn peak_update_keeps_the_larger_magnitude() {
    assert_eq!(update_peak(0.5f32.to_bits(), (-0.75f32).to_bits()), 0.75f32.to_bits());
    assert_eq!(update_peak(0.5f32.to_bits(), 0.25f32.to_bits()), 0.5f32.to_bits());
    assert_eq!(update_peak(0.5f32.to_bits(), f32::NAN.to_bits()), 0.5f32.to_bits());
    assert_eq!(magnitude_of((-1.5f32).to_bits()), 1.5f32.to_bits());
}

#[test]
fn words_are_little_endian() {
    assert_eq!(word_at(&[9, 1, 2, 3, 4], 1), 0x0403_0201);
    assert_eq!(word_at(&0.9f32.to_le_bytes(), 0), 0.9f32.to_bits());
}

#[test]
fn peak_index_rounds_and_clamps() {
    assert_eq!(index_of(0.0), 0);
    assert_eq!(peak_index(1), 0);
    assert_eq!(index_of(0.01), 0);
    assert_eq!(index_of(0.02), 1);
    assert_eq!(index_of(0.1), 3);
    assert_eq!(index_of(0.55), 17);
    assert_eq!(index_of(1.0), 30);
    assert_eq!(index_of(1.3), 39);
    assert_eq!(index_of(1.33), 39);
    assert_eq!(index_of(2.0), 39);
    assert_eq!(index_of(1.0e30), 39);
    assert_eq!(index_of(f32::INFINITY), 39);
}

#[test]
fn peak_index_never_decreases() {
    let mut last = 0;
    let mut v = 0.0f32;
    while v < 1.5 {
        let i = index_of(v);
        assert!(i >= last);
        last = i;
        v += 0.001;
    }
    assert_eq!(last, 39);
}

#[test]
fn bar_has_markers_then_blanks() {
    assert_eq!(meter_bar(0), format!("*{}", " ".repeat(40)));
    assert_eq!(meter_bar(39), format!("{} ", "*".repeat(40)));
}

#[test]
fn format_notices_that_are_not_raw_audio_are_ignored() {
    let mut ctx = stereo_context();
    let video = FormatEvent::Described {
        media_type: MediaType::Other,
        media_subtype: MediaSubtype::Raw,
        rate: 44100,
        channels: 6,
    };
    let encoded = FormatEvent::Described {
        media_type: MediaType::Audio,
        media_subtype: MediaSubtype::Other,
        rate: 44100,
        channels: 6,
    };
    let no_channels = FormatEvent::Described {
        media_type: MediaType::Audio,
        media_subtype: MediaSubtype::Raw,
        rate: 44100,
        channels: 0,
    };
    for ev in [video, encoded, no_channels, FormatEvent::Cleared, FormatEvent::OtherParam, FormatEvent::Unparsable] {
        assert_eq!(accept_format(&ev), None);
        assert_eq!(ctx.on_format_changed(&ev), None);
        assert_eq!(ctx.format, Some(AudioFormat { rate: 48000, channels: 2 }));
    }
}

#[test]
fn raw_audio_notice_replaces_the_format() {
    let mut ctx = stereo_context();
    let ev = FormatEvent::Described {
        media_type: MediaType::Audio,
        media_subtype: MediaSubtype::Raw,
        rate: 96000,
        channels: 1,
    };
    assert_eq!(ctx.on_format_changed(&ev), Some(AudioFormat { rate: 96000, channels: 1 }));
    assert_eq!(ctx.format, Some(AudioFormat { rate: 96000, channels: 1 }));
}

#[test]
fn no_buffer_writes_and_draws_nothing() {
    let mut ctx = stereo_context();
    assert!(matches!(ctx.on_buffer_ready(&Delivery::Unavailable), BufferOutcome::OutOfBuffers));
    assert!(!ctx.cursor_moved);
    assert!(matches!(ctx.on_buffer_ready(&Delivery::NoSegments), BufferOutcome::Skipped));
    assert!(matches!(ctx.on_buffer_ready(&Delivery::Unmapped), BufferOutcome::Skipped));
    assert!(!ctx.cursor_moved);
}

#[test]
fn buffer_before_negotiation_is_not_processed() {
    let mut ctx = StreamContext::new();
    let d = Delivery::Mapped { bytes: encode(&[0.5, 0.5]), chunk_size: 8 };
    assert!(matches!(ctx.on_buffer_ready(&d), BufferOutcome::Unconfigured));
    assert!(!ctx.cursor_moved);
}

#[test]
fn second_frame_moves_the_cursor_up() {
    let mut ctx = stereo_context();
    let d = Delivery::Mapped { bytes: encode(&[0.5, -0.8, 0.2, 0.9]), chunk_size: 16 };
    match ctx.on_buffer_ready(&d) {
        BufferOutcome::Processed(fr) => assert_eq!(fr.cursor_up, None),
        _ => panic!("frame expected"),
    }
    assert!(ctx.cursor_moved);
    match ctx.on_buffer_ready(&d) {
        BufferOutcome::Processed(fr) => {
            assert_eq!(fr.cursor_up, Some(3));
            assert_eq!(fr.indices, vec![15, 27]);
            assert_eq!(fr.forwarded, encode(&[0.5, 0.2, -0.8, 0.9]));
        }
        _ => panic!("frame expected"),
    }
}
