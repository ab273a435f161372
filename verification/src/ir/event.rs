//! [`DemuxEvent`], the streaming-demux event vocabulary, and
//! [`EventProvenance`], its container-native "where did this come from"
//! sidecar.
use vstd::prelude::*;
use crate::ir::sample::Sample;
use crate::ir::track::TrackSpec;

verus! {

/// Container-native identity of an event (e.g. the TS PID it was seen on).
/// `None` means the container has no such identity; nothing is fabricated.
#[non_exhaustive]
#[derive(Debug, Clone, Copy, PartialEq, Eq, Default)]
pub struct EventProvenance {
    /// The MPEG-2 TS PID the event was observed on.
    pub pid: Option<u16>,
    /// 0-based index of the source packet the event was observed at.
    pub packet_index: Option<u64>,
}

/// Why a [`DemuxEvent::Discontinuity`] was raised.
#[non_exhaustive]
#[derive(Debug, Clone, Copy, PartialEq, Eq, Structural)]
pub enum DiscontinuityKind {
    /// An explicit adaptation-field `discontinuity_indicator`.
    Signalled,
    /// A live audio anchor drifted past the re-anchor threshold and was
    /// re-anchored.
    TimelineReanchored,
    /// A per-PID buffer cap was exceeded and `bytes` were dropped.
    BudgetExceeded {
        /// Bytes discarded when the cap tripped.
        bytes: u64,
    },
}

/// The label of a discontinuity kind.
pub open spec fn discontinuity_kind_name(k: DiscontinuityKind) -> Seq<char> {
    match k {
        DiscontinuityKind::Signalled => "signalled"@,
        DiscontinuityKind::TimelineReanchored => "timeline reanchored"@,
        DiscontinuityKind::BudgetExceeded { .. } => "budget exceeded"@,
    }
}

impl DiscontinuityKind {
    /// A short, stable label for this kind.
    pub fn name(&self) -> (r: &'static str)
        ensures
            r@ == discontinuity_kind_name(*self),
    {
        match self {
            DiscontinuityKind::Signalled => "signalled",
            DiscontinuityKind::TimelineReanchored => "timeline reanchored",
            DiscontinuityKind::BudgetExceeded { .. } => "budget exceeded",
        }
    }
}

/// Why a [`DemuxEvent::TrackAbandoned`] was raised.
#[non_exhaustive]
#[derive(Debug, Clone, Copy, PartialEq, Eq, Structural)]
pub enum AbandonReason {
    /// The codec config never became recoverable before end of input.
    ConfigUnrecoverable,
    /// A probe/backlog byte cap was exceeded before the config resolved.
    BudgetExceeded,
}

/// The label of an abandonment reason.
pub open spec fn abandon_reason_name(r: AbandonReason) -> Seq<char> {
    match r {
        AbandonReason::ConfigUnrecoverable => "config unrecoverable"@,
        AbandonReason::BudgetExceeded => "budget exceeded"@,
    }
}

impl AbandonReason {
    /// A short, stable label for this reason.
    pub fn name(&self) -> (r: &'static str)
        ensures
            r@ == abandon_reason_name(*self),
    {
        match self {
            AbandonReason::ConfigUnrecoverable => "config unrecoverable",
            AbandonReason::BudgetExceeded => "budget exceeded",
        }
    }
}

/// A demux event drained incrementally from a streaming demuxer.
#[non_exhaustive]
#[derive(Debug, Clone)]
pub enum DemuxEvent {
    /// A new track, its codec config fully recovered.
    TrackAdded(TrackSpec),
    /// An existing track's PMT-derived metadata changed.
    TrackUpdated(TrackSpec),
    /// A previously declared track is no longer listed.
    #[non_exhaustive]
    TrackRemoved { track_id: u32, provenance: EventProvenance },
    /// A track's config recovery was permanently abandoned.
    #[non_exhaustive]
    TrackAbandoned { track_id: Option<u32>, reason: AbandonReason, provenance: EventProvenance },
    /// A completed access unit with absolute timing.
    #[non_exhaustive]
    Sample { track_id: u32, sample: Sample },
    /// A clock reference (e.g. a TS PCR) in `clock_hz` ticks.
    #[non_exhaustive]
    ClockReference { ticks: u64, clock_hz: u32, discontinuous: bool, provenance: EventProvenance },
    /// A discontinuity indicator observed on the source stream.
    #[non_exhaustive]
    Discontinuity { track: Option<u32>, kind: DiscontinuityKind, provenance: EventProvenance },
    /// Every currently declared track has resolved, for this track-set
    /// generation.
    #[non_exhaustive]
    TracksResolved { generation: u32 },
}

impl DemuxEvent {
    /// A [`DemuxEvent::ClockReference`].
    pub fn clock_reference(ticks: u64, clock_hz: u32, discontinuous: bool, provenance: EventProvenance) -> (r: Self)
        ensures
            r == (DemuxEvent::ClockReference { ticks, clock_hz, discontinuous, provenance }),
    {
        DemuxEvent::ClockReference { ticks, clock_hz, discontinuous, provenance }
    }

    /// A [`DemuxEvent::Discontinuity`].
    pub fn discontinuity(track: Option<u32>, kind: DiscontinuityKind, provenance: EventProvenance) -> (r: Self)
        ensures
            r == (DemuxEvent::Discontinuity { track, kind, provenance }),
    {
        DemuxEvent::Discontinuity { track, kind, provenance }
    }

    /// A [`DemuxEvent::TrackRemoved`].
    pub fn track_removed(track_id: u32, provenance: EventProvenance) -> (r: Self)
        ensures
            r == (DemuxEvent::TrackRemoved { track_id, provenance }),
    {
        DemuxEvent::TrackRemoved { track_id, provenance }
    }

    /// A [`DemuxEvent::TrackAbandoned`].
    pub fn track_abandoned(track_id: Option<u32>, reason: AbandonReason, provenance: EventProvenance) -> (r: Self)
        ensures
            r == (DemuxEvent::TrackAbandoned { track_id, reason, provenance }),
    {
        DemuxEvent::TrackAbandoned { track_id, reason, provenance }
    }

    /// A [`DemuxEvent::Sample`].
    pub fn sample(track_id: u32, sample: Sample) -> (r: Self)
        ensures
            r == (DemuxEvent::Sample { track_id, sample }),
    {
        DemuxEvent::Sample { track_id, sample }
    }

    /// A [`DemuxEvent::TracksResolved`].
    pub fn tracks_resolved(generation: u32) -> (r: Self)
        ensures
            r == (DemuxEvent::TracksResolved { generation }),
    {
        DemuxEvent::TracksResolved { generation }
    }
}

} // verus!
