//! Elementary track identity and crypto: [`Track`], [`TrackSpec`],
//! [`TrackEncryption`].
use vstd::prelude::*;
use crate::init_segment::OpaqueBox;
use crate::ir::codec::CodecConfig;
use crate::ir::sample::Sample;

verus! {

/// A track's identity and codec configuration, used to build the init
/// segment.
#[derive(Debug, Clone)]
#[non_exhaustive]
pub struct TrackSpec {
    /// Track ID (1-based, unique within the movie).
    pub track_id: u32,
    /// Media timescale (ticks per second).
    pub timescale: u32,
    /// Codec configuration and geometry.
    pub config: CodecConfig,
    /// Source elementary-stream PID for TS-demuxed tracks.
    pub source_pid: Option<u16>,
    /// The raw PMT ES_info descriptor loop for the stream, verbatim.
    pub es_info_descriptors: Vec<u8>,
}

impl TrackSpec {
    /// A track spec with no TS provenance.
    pub fn new(track_id: u32, timescale: u32, config: CodecConfig) -> (r: Self)
        ensures
            r.track_id == track_id,
            r.timescale == timescale,
            r.config == config,
            r.source_pid is None,
            r.es_info_descriptors@.len() == 0,
    {
        TrackSpec { track_id, timescale, config, source_pid: None, es_info_descriptors: Vec::new() }
    }

    /// Attach TS provenance: the source PID and its ES_info descriptor loop.
    pub fn with_source(self, source_pid: u16, es_info_descriptors: Vec<u8>) -> (r: Self)
        ensures
            r.track_id == self.track_id,
            r.timescale == self.timescale,
            r.config == self.config,
            r.source_pid == Some(source_pid),
            r.es_info_descriptors@ == es_info_descriptors@,
    {
        let mut s = self;
        s.source_pid = Some(source_pid);
        s.es_info_descriptors = es_info_descriptors;
        s
    }
}

/// One elementary track: identity, decode-ordered samples, the absolute
/// decode-time anchor and optional crypto metadata.
#[derive(Debug, Clone)]
pub struct Track {
    /// Identity and codec configuration.
    pub spec: TrackSpec,
    /// The coded access units, in decode order.
    pub samples: Vec<Sample>,
    /// Absolute decode time of the first sample, in the track's timescale
    /// (the fragment `tfdt` base of the first media segment).
    pub start_decode_time: u64,
    /// CENC/CBCS metadata for the samples, or `None` for cleartext.
    pub encryption: Option<TrackEncryption>,
}

impl Track {
    /// A track anchored at decode time 0.
    pub fn new(spec: TrackSpec, samples: Vec<Sample>) -> (r: Self)
        ensures
            r.spec == spec,
            r.samples@ == samples@,
            r.start_decode_time == 0,
            r.encryption is None,
    {
        Track { spec, samples, start_decode_time: 0, encryption: None }
    }

    /// A track anchored at an absolute decode time.
    pub fn new_at(spec: TrackSpec, samples: Vec<Sample>, start_decode_time: u64) -> (r: Self)
        ensures
            r.spec == spec,
            r.samples@ == samples@,
            r.start_decode_time == start_decode_time,
            r.encryption is None,
    {
        Track { spec, samples, start_decode_time, encryption: None }
    }

    /// Set the decode-time anchor (builder style).
    pub fn with_start_decode_time(self, start_decode_time: u64) -> (r: Self)
        ensures
            r.spec == self.spec,
            r.samples@ == self.samples@,
            r.start_decode_time == start_decode_time,
            r.encryption == self.encryption,
    {
        let mut t = self;
        t.start_decode_time = start_decode_time;
        t
    }

    /// Track ID.
    pub fn track_id(&self) -> (r: u32)
        ensures
            r == self.spec.track_id,
    {
        self.spec.track_id
    }

    /// Media timescale.
    pub fn timescale(&self) -> (r: u32)
        ensures
            r == self.spec.timescale,
    {
        self.spec.timescale
    }

    /// Codec configuration.
    pub fn config(&self) -> (r: &CodecConfig)
        ensures
            *r == self.spec.config,
    {
        &self.spec.config
    }
}

/// Per-track CENC/CBCS metadata: the scheme, the track-level `tenc` box and
/// one sample-encryption entry (IV plus subsample map, as written in `senc`)
/// per sample, in decode order (ISO/IEC 23001-7 §8.2, §7.2).
#[derive(Debug, Clone)]
pub struct TrackEncryption {
    /// Protection scheme four-CC (`cenc` or `cbcs`).
    pub scheme: [u8; 4],
    /// The `tenc` box (KID, IV size, pattern), verbatim.
    pub tenc: OpaqueBox,
    /// Per-sample IV and subsample entries, verbatim, one per sample.
    pub samples: Vec<Vec<u8>>,
}

} // verus!
