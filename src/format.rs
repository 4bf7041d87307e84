//! The negotiated stream format and the decision on each format notice.
use vstd::prelude::*;

verus! {

/// The format samples arrive in: 32-bit little-endian floats, `channels`
/// of them interleaved per frame, `rate` frames per second.
#[derive(Clone, Copy, Debug, PartialEq, Eq, Structural)]
pub struct AudioFormat {
    pub rate: u32,
    pub channels: u32,
}

impl AudioFormat {
    /// A usable format has at least one channel and a non-zero rate.
    pub open spec fn is_valid(self) -> bool {
        self.rate >= 1 && self.channels >= 1
    }
}

/// Media type announced in a format description.
#[derive(Clone, Copy, Debug, PartialEq, Eq, Structural)]
pub enum MediaType {
    Audio,
    Other,
}

/// Media subtype announced in a format description.
#[derive(Clone, Copy, Debug, PartialEq, Eq, Structural)]
pub enum MediaSubtype {
    Raw,
    Other,
}

/// A parameter change notified by the audio server, reduced to what the
/// decision needs.
#[derive(Clone, Copy, Debug, PartialEq, Eq, Structural)]
pub enum FormatEvent {
    /// The format was cleared (no parameter given).
    Cleared,
    /// A parameter other than the format changed.
    OtherParam,
    /// The format description could not be parsed.
    Unparsable,
    /// A parsed format description.
    Described { media_type: MediaType, media_subtype: MediaSubtype, rate: u32, channels: u32 },
}

/// The format that an event installs, if any: only a raw audio description
/// with at least one channel and a non-zero rate is taken; every other event
/// is ignored.
pub open spec fn accepted_format(ev: FormatEvent) -> Option<AudioFormat> {
    match ev {
        FormatEvent::Described { media_type, media_subtype, rate, channels } => {
            if media_type == MediaType::Audio && media_subtype == MediaSubtype::Raw && rate >= 1 && channels
                >= 1 {
                Some(AudioFormat { rate, channels })
            } else {
                None
            }
        },
        _ => None,
    }
}

/// Decides whether a format event installs a new format.
pub fn accept_format(ev: &FormatEvent) -> (r: Option<AudioFormat>)
    ensures
        r == accepted_format(*ev),
        r matches Some(f) ==> f.is_valid(),
{
    match ev {
        FormatEvent::Described { media_type, media_subtype, rate, channels } => {
            match (media_type, media_subtype) {
                (MediaType::Audio, MediaSubtype::Raw) => {
                    if *rate >= 1 && *channels >= 1 {
                        Some(AudioFormat { rate: *rate, channels: *channels })
                    } else {
                        None
                    }
                },
                _ => None,
            }
        },
        _ => None,
    }
}

/// A format notice whose media type is not audio, or whose subtype is not
/// raw, installs nothing, so the held format stays as it was.
pub proof fn lemma_non_raw_audio_is_ignored(ev: FormatEvent)
    requires
        ev matches FormatEvent::Described { media_type, media_subtype, .. } && (media_type != MediaType::Audio
            || media_subtype != MediaSubtype::Raw),
    ensures
        accepted_format(ev) is None,
{
}

} // verus!
