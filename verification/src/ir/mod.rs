//! The neutral media intermediate representation every demuxer produces and
//! every muxer consumes: [`Media`] holds elementary [`Track`]s, a track pairs
//! its identity and codec configuration ([`TrackSpec`] around a
//! [`CodecConfig`]) with its decode-ordered [`Sample`]s and an absolute
//! decode-time anchor.
//!
//! Sample timing is absolute: each [`Sample`] carries its own `dts`/`pts` in
//! the track's media timescale (or `None` when the source gave it none), and
//! [`Track::start_decode_time`] is the track-level anchor, equal to the first
//! sample's decode time for a timed track.
pub mod codec;
pub mod event;
pub mod media;
pub mod sample;
pub mod track;

pub use codec::{CodecConfig, DataCarriage, SubtitleFormat};
pub use event::{AbandonReason, DemuxEvent, DiscontinuityKind, EventProvenance};
pub use media::{Media, PcrSample};
pub use sample::{FragmentTrackData, Sample, SourceTiming};
pub use track::{Track, TrackEncryption, TrackSpec};
