//! Coded access units: [`Sample`], [`SourceTiming`], [`FragmentTrackData`].
use vstd::prelude::*;
use crate::annexb::{annexb_nals, annexb_to_length_prefixed, lp_concat};

verus! {

/// Per-sample timestamps recovered from the source container, in the
/// source's own clock (the 33-bit-unwrapped 90 kHz PES clock for TS).
#[derive(Debug, Clone, Copy, PartialEq, Eq, Structural)]
pub struct SourceTiming {
    /// Decode timestamp, unwrapped.
    pub dts: u64,
    /// Presentation timestamp, unwrapped.
    pub pts: u64,
}

/// One coded access unit with its absolute timing.
#[derive(Debug, Clone)]
#[non_exhaustive]
pub struct Sample {
    /// Coded bytes: length-prefixed NAL units for AVC/HEVC/VVC, the raw frame
    /// otherwise.
    pub data: Vec<u8>,
    /// Absolute decode time in the track's media timescale; `None` when the
    /// source carried none (never fabricated).
    pub dts: Option<i64>,
    /// Absolute presentation time in the track's media timescale; `None`
    /// when the source carried none.
    pub pts: Option<i64>,
    /// Duration in the track's media timescale, when known.
    pub duration: Option<u32>,
    /// Sync sample (random-access point / keyframe).
    pub is_sync: bool,
    /// Timestamps in the source container's own clock, when it carried them.
    pub source_timing: Option<SourceTiming>,
}

impl Sample {
    /// A sample from already-encoded bytes with every timing field explicit.
    pub fn new(data: Vec<u8>, dts: Option<i64>, pts: Option<i64>, duration: Option<u32>, is_sync: bool) -> (r: Self)
        ensures
            r.data@ == data@,
            r.dts == dts,
            r.pts == pts,
            r.duration == duration,
            r.is_sync == is_sync,
            r.source_timing is None,
    {
        Sample { data, dts, pts, duration, is_sync, source_timing: None }
    }

    /// A video sample from an Annex B access unit, its NAL units converted
    /// to the length-prefixed `mdat` form.
    pub fn from_annexb(annexb: &[u8], dts: Option<i64>, pts: Option<i64>, duration: Option<u32>, is_sync: bool) -> (r: Self)
        requires
            crate::annexb::nals_fit_u32(annexb@),
        ensures
            r.data@ == lp_concat(annexb_nals(annexb@)),
            r.dts == dts,
            r.pts == pts,
            r.duration == duration,
            r.is_sync == is_sync,
            r.source_timing is None,
    {
        Sample { data: annexb_to_length_prefixed(annexb), dts, pts, duration, is_sync, source_timing: None }
    }

    /// An audio sample from a raw coded frame: a sync sample whose
    /// presentation time is its decode time.
    pub fn from_raw(data: Vec<u8>, dts: Option<i64>, duration: Option<u32>) -> (r: Self)
        ensures
            r.data@ == data@,
            r.dts == dts,
            r.pts == dts,
            r.duration == duration,
            r.is_sync,
            r.source_timing is None,
    {
        Sample { data, dts, pts: dts, duration, is_sync: true, source_timing: None }
    }

    /// Attach source-container timestamps (builder style).
    pub fn with_source_timing(self, t: SourceTiming) -> (r: Self)
        ensures
            r.data@ == self.data@,
            r.dts == self.dts,
            r.pts == self.pts,
            r.duration == self.duration,
            r.is_sync == self.is_sync,
            r.source_timing == Some(t),
    {
        let mut s = self;
        s.source_timing = Some(t);
        s
    }
}

/// One track's samples for a single media segment.
pub struct FragmentTrackData<'a> {
    /// Track ID matching a [`crate::ir::TrackSpec`] of the init segment.
    pub track_id: u32,
    /// Decode time of the first sample, in media-timescale ticks.
    pub base_media_decode_time: u64,
    /// The samples, in decode order.
    pub samples: &'a [Sample],
}

impl<'a> FragmentTrackData<'a> {
    /// One track's samples for a fragment starting at `base_media_decode_time`.
    pub fn new(track_id: u32, base_media_decode_time: u64, samples: &'a [Sample]) -> (r: Self)
        ensures
            r.track_id == track_id,
            r.base_media_decode_time == base_media_decode_time,
            r.samples@ == samples@,
    {
        FragmentTrackData { track_id, base_media_decode_time, samples }
    }
}

} // verus!
