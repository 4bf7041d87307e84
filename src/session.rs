//! The state kept across the stream's callbacks and the decision taken on
//! each of them.
use vstd::prelude::*;
use crate::format::{AudioFormat, FormatEvent, accepted_format, accept_format};
use crate::sample::{peak_of, lemma_peak_is_max_magnitude};
use crate::stream::{usable_samples, channel_words, forwarded_bytes, scan_buffer};
use crate::meter::{peak_index_of, bar_text, peak_index, meter_bar};

verus! {

/// What the audio server handed over on one processing cycle.
pub enum Delivery {
    /// No buffer could be dequeued.
    Unavailable,
    /// The buffer holds no data segment.
    NoSegments,
    /// The first data segment is not mapped into memory.
    Unmapped,
    /// The first data segment: its mapped bytes and the size its chunk announces.
    Mapped { bytes: Vec<u8>, chunk_size: u32 },
}

/// What one processed buffer produces: the bytes for the bus and one meter
/// line per channel.
pub struct Frame {
    /// Lines to move the cursor up before drawing, when a frame was drawn before.
    pub cursor_up: Option<u64>,
    /// Samples per channel that the chunk announces.
    pub samples_per_channel: u32,
    /// Bytes to forward to the bus, in this order.
    pub forwarded: Vec<u8>,
    /// Peak of each channel, as magnitude bits of a 32-bit float.
    pub peaks: Vec<u32>,
    /// Meter position of each channel.
    pub indices: Vec<usize>,
    /// Meter bar of each channel.
    pub bars: Vec<String>,
}

/// The decision taken on one processing cycle.
pub enum BufferOutcome {
    /// No buffer was available: report it, write and draw nothing.
    OutOfBuffers,
    /// Nothing to process: write and draw nothing.
    Skipped,
    /// No usable format was negotiated yet: report it, write and draw nothing.
    Unconfigured,
    /// Forward the frame's bytes and draw its lines.
    Processed(Frame),
}

/// Whether `fr` is the frame for the interleaved bytes `b` whose chunk
/// announces `chunk_size` bytes, with `channels` channels, after a frame was
/// drawn (`drawn`) or not.
pub open spec fn is_frame_of(fr: Frame, b: Seq<u8>, chunk_size: nat, channels: nat, drawn: bool) -> bool {
    let total = usable_samples(chunk_size, b.len());
    &&& fr.cursor_up == (if drawn {
        Some((channels + 1) as u64)
    } else {
        None
    })
    &&& fr.samples_per_channel == (chunk_size / 4) / channels
    &&& fr.forwarded@ == forwarded_bytes(b, total, channels, channels)
    &&& fr.peaks@.len() == channels
    &&& fr.indices@.len() == channels
    &&& fr.bars@.len() == channels
    &&& forall|c: int|
        0 <= c < channels ==> {
            &&& #[trigger] fr.peaks@[c] as nat == peak_of(channel_words(b, total, channels, c as nat))
            &&& fr.indices@[c] as nat == peak_index_of(fr.peaks@[c] as nat)
            &&& fr.bars@[c]@ == bar_text(fr.indices@[c] as nat)
        }
}

/// Format and display state of one capture stream.
pub struct StreamContext {
    /// The negotiated format, once there is one.
    pub format: Option<AudioFormat>,
    /// Whether a frame has been drawn, so the next one redraws in place.
    pub cursor_moved: bool,
}

impl StreamContext {
    /// Every format held is usable.
    pub open spec fn wf(self) -> bool {
        self.format matches Some(f) ==> f.is_valid()
    }

    /// Channels of the held format, zero while there is none.
    pub open spec fn channel_count(self) -> nat {
        match self.format {
            Some(f) => f.channels as nat,
            None => 0,
        }
    }

    /// A stream with no format yet and nothing drawn.
    pub fn new() -> (r: StreamContext)
        ensures
            r.format is None,
            !r.cursor_moved,
            r.wf(),
    {
        StreamContext { format: None, cursor_moved: false }
    }

    /// Handles a format notice: a raw audio format replaces the held one as a
    /// whole and is returned; any other notice changes nothing.
    pub fn on_format_changed(&mut self, ev: &FormatEvent) -> (r: Option<AudioFormat>)
        ensures
            r == accepted_format(*ev),
            final(self).format == (if r is Some {
                r
            } else {
                old(self).format
            }),
            final(self).cursor_moved == old(self).cursor_moved,
            old(self).wf() ==> final(self).wf(),
    {
        let r = accept_format(ev);
        if let Some(f) = r {
            self.format = Some(f);
        }
        r
    }

    /// Handles one processing cycle. A mapped buffer under a usable format is
    /// walked channel by channel and marks the display as drawn; every other
    /// cycle leaves the state as it was.
    pub fn on_buffer_ready(&mut self, delivery: &Delivery) -> (r: BufferOutcome)
        ensures
            match *delivery {
                Delivery::Unavailable => r is OutOfBuffers && *final(self) == *old(self),
                Delivery::NoSegments | Delivery::Unmapped => r is Skipped && *final(self) == *old(self),
                Delivery::Mapped { bytes, chunk_size } => {
                    if old(self).channel_count() >= 1 {
                        &&& r matches BufferOutcome::Processed(fr)
                        &&& is_frame_of(fr, bytes@, chunk_size as nat, old(self).channel_count(), old(self).cursor_moved)
                        &&& final(self).cursor_moved
                        &&& final(self).format == old(self).format
                    } else {
                        r is Unconfigured && *final(self) == *old(self)
                    }
                },
            },
    {
        match delivery {
            Delivery::Unavailable => BufferOutcome::OutOfBuffers,
            Delivery::NoSegments | Delivery::Unmapped => BufferOutcome::Skipped,
            Delivery::Mapped { bytes, chunk_size } => {
                let channels = match self.format {
                    Some(f) => f.channels,
                    None => 0,
                };
                if channels == 0 {
                    return BufferOutcome::Unconfigured;
                }
                let fr = build_frame(bytes.as_slice(), *chunk_size, channels, self.cursor_moved);
                self.cursor_moved = true;
                BufferOutcome::Processed(fr)
            },
        }
    }
}

/// Builds the frame for one mapped buffer.
pub fn build_frame(bytes: &[u8], chunk_size: u32, channels: u32, drawn: bool) -> (r: Frame)
    requires
        channels >= 1,
    ensures
        is_frame_of(r, bytes@, chunk_size as nat, channels as nat, drawn),
{
    let (forwarded, peaks) = scan_buffer(bytes, chunk_size, channels);
    let ghost total = usable_samples(chunk_size as nat, bytes@.len());
    let mut indices: Vec<usize> = Vec::new();
    let mut bars: Vec<String> = Vec::new();
    let mut c: usize = 0;
    while c < peaks.len()
        invariant
            c <= peaks@.len(),
            peaks@.len() == channels,
            forall|j: int|
                0 <= j < channels ==> #[trigger] peaks@[j] as nat == peak_of(
                    channel_words(bytes@, total, channels as nat, j as nat),
                ),
            indices@.len() == c,
            bars@.len() == c,
            forall|j: int|
                0 <= j < c ==> {
                    &&& #[trigger] indices@[j] as nat == peak_index_of(peaks@[j] as nat)
                    &&& bars@[j]@ == bar_text(indices@[j] as nat)
                },
        decreases peaks@.len() - c,
    {
        proof {
            lemma_peak_is_max_magnitude(channel_words(bytes@, total, channels as nat, c as nat));
        }
        let idx = peak_index(peaks[c]);
        indices.push(idx);
        bars.push(meter_bar(idx));
        c = c + 1;
    }
    let cursor_up = if drawn {
        Some(channels as u64 + 1)
    } else {
        None
    };
    Frame { cursor_up, samples_per_channel: (chunk_size / 4) / channels, forwarded, peaks, indices, bars }
}

} // verus!
