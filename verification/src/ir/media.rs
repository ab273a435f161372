//! The hub IR: [`Media`] and the recovered PCR timeline ([`PcrSample`]).
use vstd::prelude::*;
use crate::ir::track::Track;

verus! {

/// One PCR observation from a TS adaptation field (ISO/IEC 13818-1 §2.4.3.4).
#[derive(Debug, Clone, Copy, PartialEq, Eq, Structural)]
pub struct PcrSample {
    /// `program_clock_reference` at 27 MHz (`base * 300 + extension`).
    pub pcr_27mhz: u64,
    /// PID carrying the PCR.
    pub pid: u16,
    /// 0-based index of the 188-byte packet in the input.
    pub packet_index: u64,
    /// The adaptation field's `discontinuity_indicator`.
    pub discontinuity: bool,
}

/// The media intermediate representation: a set of elementary tracks.
#[derive(Debug, Clone)]
pub struct Media {
    /// Elementary tracks, in source order.
    pub tracks: Vec<Track>,
    /// Movie timescale (`mvhd.timescale`).
    pub movie_timescale: u32,
    /// PCR timeline recovered from a TS source, in wire order.
    pub pcr: Vec<PcrSample>,
}

impl Media {
    /// A `Media` with an empty PCR timeline.
    pub fn new(tracks: Vec<Track>, movie_timescale: u32) -> (r: Self)
        ensures
            r.tracks@ == tracks@,
            r.movie_timescale == movie_timescale,
            r.pcr@.len() == 0,
    {
        Media { tracks, movie_timescale, pcr: Vec::new() }
    }

    /// Attach a PCR timeline (builder style).
    pub fn with_pcr(self, pcr: Vec<PcrSample>) -> (r: Self)
        ensures
            r.tracks@ == self.tracks@,
            r.movie_timescale == self.movie_timescale,
            r.pcr@ == pcr@,
    {
        let mut m = self;
        m.pcr = pcr;
        m
    }
}

} // verus!
