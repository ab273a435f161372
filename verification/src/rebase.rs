//! Timeline conditioning over the [`Media`] IR: rebase to zero, signed
//! offset, and discontinuity-gap insertion.
//!
//! Sample `dts`/`pts` are absolute ticks in the track's media timescale;
//! every transform here shifts that pair and keeps
//! [`Track::start_decode_time`] (the track-level anchor) in lockstep. A
//! `None` timestamp is never given a value.
use vstd::prelude::*;
use crate::ir::media::Media;
use crate::ir::sample::Sample;
use crate::ir::track::Track;

verus! {

/// A timestamp shifted by `d` ticks; `None` stays `None`.
pub open spec fn shift_ts(o: Option<i64>, d: int) -> Option<i64> {
    match o {
        Some(x) => Some((x + d) as i64),
        None => None,
    }
}

/// Shifting the timestamp by `d` stays within `i64`.
pub open spec fn shift_fits(o: Option<i64>, d: int) -> bool {
    o matches Some(x) ==> i64::MIN <= x + d <= i64::MAX
}

/// Both timestamps of `s` can be shifted by `d`.
pub open spec fn sample_shift_fits(s: Sample, d: int) -> bool {
    shift_fits(s.dts, d) && shift_fits(s.pts, d)
}

/// `n` is `o` with both timestamps shifted by `d` and nothing else changed.
pub open spec fn sample_shifted(o: Sample, n: Sample, d: int) -> bool {
    &&& n.data@ == o.data@
    &&& n.duration == o.duration
    &&& n.is_sync == o.is_sync
    &&& n.source_timing == o.source_timing
    &&& n.dts == shift_ts(o.dts, d)
    &&& n.pts == shift_ts(o.pts, d)
}

/// The anchor as the signed tick count the transforms subtract.
pub open spec fn anchor_ticks(t: Track) -> int {
    (t.start_decode_time as i64) as int
}

/// `n` is `o` with every sample from index `from` on shifted by `d`, the
/// others untouched, and the anchor set to `anchor`.
pub open spec fn track_shifted(o: Track, n: Track, from: int, d: int, anchor: u64) -> bool {
    &&& n.spec == o.spec
    &&& n.encryption == o.encryption
    &&& n.start_decode_time == anchor
    &&& n.samples@.len() == o.samples@.len()
    &&& forall|j: int| 0 <= j < from && j < o.samples@.len() ==> #[trigger] n.samples@[j] == o.samples@[j]
    &&& forall|j: int|
        from <= j < o.samples@.len() ==> #[trigger] sample_shifted(o.samples@[j], n.samples@[j], d)
}

/// Every sample of `t` from `from` on can be shifted by `d`.
pub open spec fn track_shift_fits(t: Track, from: int, d: int) -> bool {
    forall|j: int| from <= j < t.samples@.len() ==> #[trigger] sample_shift_fits(t.samples@[j], d)
}

/// `rebase_to_zero` subtracts no anchor that would take a timestamp out of
/// `i64`.
pub open spec fn rebase_fits(m: Media) -> bool {
    forall|i: int| 0 <= i < m.tracks@.len() ==> #[trigger] track_shift_fits(m.tracks@[i], 0, -anchor_ticks(m.tracks@[i]))
}

/// `n` is `o` with each track re-origined at decode time 0.
pub open spec fn media_rebased(o: Media, n: Media) -> bool {
    &&& n.movie_timescale == o.movie_timescale
    &&& n.pcr@ == o.pcr@
    &&& n.tracks@.len() == o.tracks@.len()
    &&& forall|i: int| 0 <= i < o.tracks@.len() ==> #[trigger] track_shifted(o.tracks@[i], n.tracks@[i], 0, -anchor_ticks(o.tracks@[i]), 0)
}

/// Shift the timestamps of samples `from..` of `track` by `d`.
fn shift_samples(track: &mut Track, from: usize, d: i128)
    requires
        from <= old(track).samples@.len(),
        track_shift_fits(*old(track), from as int, d as int),
    ensures
        track_shifted(*old(track), *final(track), from as int, d as int, old(track).start_decode_time),
{
    let n = track.samples.len();
    let mut j = from;
    while j < n
        invariant
            from <= j <= n,
            n == old(track).samples@.len(),
            track_shift_fits(*old(track), from as int, d as int),
            track.spec == old(track).spec,
            track.encryption == old(track).encryption,
            track.start_decode_time == old(track).start_decode_time,
            track.samples@.len() == n,
            forall|q: int| 0 <= q < from || j <= q < n ==> #[trigger] track.samples@[q] == old(track).samples@[q],
            forall|q: int| from <= q < j ==> #[trigger] sample_shifted(old(track).samples@[q], track.samples@[q], d as int),
        decreases n - j,
    {
        assert(sample_shift_fits(old(track).samples@[j as int], d as int));
        if let Some(x) = track.samples[j].dts {
            track.samples[j].dts = Some((x as i128 + d) as i64);
        }
        if let Some(x) = track.samples[j].pts {
            track.samples[j].pts = Some((x as i128 + d) as i64);
        }
        j += 1;
    }
}

/// Re-origin each track so its first sample starts at decode time 0: the
/// track's own anchor is subtracted from the anchor and from every present
/// `dts`/`pts`. Per track, not by a common minimum.
pub fn rebase_to_zero(media: &mut Media)
    requires
        rebase_fits(*old(media)),
    ensures
        media_rebased(*old(media), *final(media)),
{
    let n = media.tracks.len();
    let mut i: usize = 0;
    while i < n
        invariant
            i <= n,
            n == old(media).tracks@.len(),
            rebase_fits(*old(media)),
            media.movie_timescale == old(media).movie_timescale,
            media.pcr@ == old(media).pcr@,
            media.tracks@.len() == n,
            forall|k: int| i <= k < n ==> #[trigger] media.tracks@[k] == old(media).tracks@[k],
            forall|k: int| 0 <= k < i ==> #[trigger] track_shifted(old(media).tracks@[k], media.tracks@[k], 0, -anchor_ticks(old(media).tracks@[k]), 0),
        decreases n - i,
    {
        let anchor = media.tracks[i].start_decode_time as i64;
        assert(track_shift_fits(old(media).tracks@[i as int], 0, -anchor_ticks(old(media).tracks@[i as int])));
        if anchor != 0 {
                        shift_samples(&mut media.tracks[i], 0, -(anchor as i128));
            media.tracks[i].start_decode_time = 0;
        } else {
            assert(media.tracks@[i as int].start_decode_time == 0) by {
                let s = media.tracks@[i as int].start_decode_time;
                assert(s as i64 == 0i64 ==> s == 0u64) by (bit_vector);
            }
            assert forall|q: int| 0 <= q < old(media).tracks@[i as int].samples@.len() implies #[trigger] sample_shifted(old(media).tracks@[i as int].samples@[q], media.tracks@[i as int].samples@[q], -anchor_ticks(old(media).tracks@[i as int])) by {
                let s = old(media).tracks@[i as int].samples@[q];
                match s.dts { Some(x) => { assert((x + 0) as i64 == x); }, None => {} }
                match s.pts { Some(x) => { assert((x + 0) as i64 == x); }, None => {} }
            }
        }
        i += 1;
    }
}

/// `x + d` clamped into `u64`.
pub open spec fn sat_add_signed(x: u64, d: i64) -> u64 {
    if x + d < 0 {
        0
    } else if x + d > u64::MAX {
        u64::MAX
    } else {
        (x + d) as u64
    }
}

/// The shift `apply_offset` gives every sample of `t`: the new anchor minus
/// the old, both taken as the signed tick counts the implementation
/// subtracts.
pub open spec fn offset_shift(t: Track, delta: i64) -> int {
    (sat_add_signed(t.start_decode_time, delta) as i64) as int - anchor_ticks(t)
}

/// `apply_offset` keeps every computed shift and timestamp within `i64`.
pub open spec fn offset_fits(m: Media, delta: i64) -> bool {
    forall|i: int| 0 <= i < m.tracks@.len() ==> {
        &&& i64::MIN <= #[trigger] offset_shift(m.tracks@[i], delta) <= i64::MAX
        &&& track_shift_fits(m.tracks@[i], 0, offset_shift(m.tracks@[i], delta))
    }
}

/// `n` is `o` with every anchor moved by `delta` (clamped into `u64`) and
/// every sample moved by the same effective shift as its track's anchor.
pub open spec fn media_offset(o: Media, n: Media, delta: i64) -> bool {
    &&& n.movie_timescale == o.movie_timescale
    &&& n.pcr@ == o.pcr@
    &&& n.tracks@.len() == o.tracks@.len()
    &&& forall|i: int| 0 <= i < o.tracks@.len() ==> #[trigger] track_shifted(
        o.tracks@[i],
        n.tracks@[i],
        0,
        offset_shift(o.tracks@[i], delta),
        sat_add_signed(o.tracks@[i].start_decode_time, delta),
    )
}

/// `x + d` clamped into `u64`.
fn saturating_add_i64(x: u64, d: i64) -> (r: u64)
    ensures
        r == sat_add_signed(x, d),
{
    let v: i128 = x as i128 + d as i128;
    if v < 0 {
        0
    } else if v > u64::MAX as i128 {
        u64::MAX
    } else {
        v as u64
    }
}

/// Move every track's anchor, and every present sample timestamp, by a
/// signed `delta_ticks` in the track's own timescale. An anchor that would
/// go below 0 is clamped to 0 (and one past `u64::MAX` to `u64::MAX`); the
/// samples move by the same effective shift as their anchor.
pub fn apply_offset(media: &mut Media, delta_ticks: i64)
    requires
        offset_fits(*old(media), delta_ticks),
    ensures
        media_offset(*old(media), *final(media), delta_ticks),
{
    let n = media.tracks.len();
    let mut i: usize = 0;
    while i < n
        invariant
            i <= n,
            n == old(media).tracks@.len(),
            offset_fits(*old(media), delta_ticks),
            media.movie_timescale == old(media).movie_timescale,
            media.pcr@ == old(media).pcr@,
            media.tracks@.len() == n,
            forall|k: int| i <= k < n ==> #[trigger] media.tracks@[k] == old(media).tracks@[k],
            forall|k: int| 0 <= k < i ==> #[trigger] track_shifted(
                old(media).tracks@[k],
                media.tracks@[k],
                0,
                offset_shift(old(media).tracks@[k], delta_ticks),
                sat_add_signed(old(media).tracks@[k].start_decode_time, delta_ticks),
            ),
        decreases n - i,
    {
        let old_anchor = media.tracks[i].start_decode_time;
        let new_anchor = saturating_add_i64(old_anchor, delta_ticks);
        assert(i64::MIN <= offset_shift(old(media).tracks@[i as int], delta_ticks) <= i64::MAX);
        let effective: i64 = new_anchor as i64 - old_anchor as i64;
        shift_samples(&mut media.tracks[i], 0, effective as i128);
        media.tracks[i].start_decode_time = new_anchor;
        i += 1;
    }
}

/// `t` after a gap of `gap` ticks inserted before sample `at`.
pub open spec fn gap_from(t: Track, at: int) -> int {
    if at < t.samples@.len() {
        at
    } else {
        t.samples@.len() as int
    }
}

/// The anchor after a gap inserted before sample `at`: bumped (saturating)
/// only when the gap precedes the whole track.
pub open spec fn gap_anchor(t: Track, at: int, gap: u32) -> u64 {
    if at == 0 {
        if t.start_decode_time + gap > u64::MAX {
            u64::MAX
        } else {
            (t.start_decode_time + gap) as u64
        }
    } else {
        t.start_decode_time
    }
}

/// Insert a discontinuity gap of `gap_ticks` before sample `at_sample_index`:
/// that sample and every later one start `gap_ticks` later, the earlier
/// ones are unchanged. At index 0 the anchor moves with them (saturating);
/// an index past the end is clamped to the end, shifting nothing.
pub fn insert_discontinuity_gap(track: &mut Track, at_sample_index: usize, gap_ticks: u32)
    requires
        track_shift_fits(*old(track), gap_from(*old(track), at_sample_index as int), gap_ticks as int),
    ensures
        track_shifted(
            *old(track),
            *final(track),
            gap_from(*old(track), at_sample_index as int),
            gap_ticks as int,
            gap_anchor(*old(track), at_sample_index as int, gap_ticks),
        ),
{
    if at_sample_index == 0 {
        track.start_decode_time = track.start_decode_time.saturating_add(gap_ticks as u64);
    }
    let idx = if at_sample_index < track.samples.len() {
        at_sample_index
    } else {
        track.samples.len()
    };
    shift_samples(track, idx, gap_ticks as i128);
}

// ---------------------------------------------------------------------------
// Laws
// ---------------------------------------------------------------------------

/// The track's anchor is its first sample's decode time (when that sample
/// has one), and fits the signed tick range.
pub open spec fn anchored(t: Track) -> bool {
    &&& t.start_decode_time <= i64::MAX
    &&& (t.samples@.len() > 0 && t.samples@[0].dts is Some) ==> t.samples@[0].dts == Some(
        t.start_decode_time as i64,
    )
}

/// `n` holds what `o` holds: the same timescale, PCR samples, and tracks
/// with the same specs, encryption, anchors and samples.
/// `n` holds what `o` holds: payload, duration, sync flag, timing origin
/// and timestamps.
pub open spec fn sample_unchanged(o: Sample, n: Sample) -> bool {
    &&& n.data@ == o.data@
    &&& n.duration == o.duration
    &&& n.is_sync == o.is_sync
    &&& n.source_timing == o.source_timing
    &&& n.dts == o.dts
    &&& n.pts == o.pts
}

pub open spec fn media_unchanged(o: Media, n: Media) -> bool {
    &&& n.movie_timescale == o.movie_timescale
    &&& n.pcr@ == o.pcr@
    &&& n.tracks@.len() == o.tracks@.len()
    &&& forall|i: int|
        0 <= i < o.tracks@.len() ==> {
            &&& (#[trigger] n.tracks@[i]).spec == o.tracks@[i].spec
            &&& n.tracks@[i].encryption == o.tracks@[i].encryption
            &&& n.tracks@[i].start_decode_time == o.tracks@[i].start_decode_time
            &&& n.tracks@[i].samples@.len() == o.tracks@[i].samples@.len()
            &&& forall|j: int|
                0 <= j < o.tracks@[i].samples@.len() ==> sample_unchanged(
                    o.tracks@[i].samples@[j],
                    #[trigger] n.tracks@[i].samples@[j],
                )
        }
}

/// Rebasing is idempotent: once `rebase_to_zero` has run, it may run again
/// (its precondition holds), and that second run leaves the media as it
/// was: same anchors (all 0), same samples with the same timestamps.
pub proof fn lemma_rebase_idempotent(m0: Media, m1: Media, m2: Media)
    requires
        media_rebased(m0, m1),
    ensures
        rebase_fits(m1),
        media_rebased(m1, m2) ==> media_unchanged(m1, m2),
{
    assert forall|i: int| 0 <= i < m1.tracks@.len() implies #[trigger] track_shift_fits(m1.tracks@[i], 0, -anchor_ticks(m1.tracks@[i])) by {
        assert(track_shifted(m0.tracks@[i], m1.tracks@[i], 0, -anchor_ticks(m0.tracks@[i]), 0));
        assert(anchor_ticks(m1.tracks@[i]) == 0) by {
            assert((0u64 as i64) == 0i64) by (bit_vector);
        }
    }
    if media_rebased(m1, m2) {
        assert forall|i: int| 0 <= i < m1.tracks@.len() implies {
            &&& (#[trigger] m2.tracks@[i]).spec == m1.tracks@[i].spec
            &&& m2.tracks@[i].encryption == m1.tracks@[i].encryption
            &&& m2.tracks@[i].start_decode_time == m1.tracks@[i].start_decode_time
            &&& m2.tracks@[i].samples@.len() == m1.tracks@[i].samples@.len()
            &&& forall|j: int|
                0 <= j < m1.tracks@[i].samples@.len() ==> sample_unchanged(
                    m1.tracks@[i].samples@[j],
                    #[trigger] m2.tracks@[i].samples@[j],
                )
        } by {
            assert(track_shifted(m0.tracks@[i], m1.tracks@[i], 0, -anchor_ticks(m0.tracks@[i]), 0));
            assert(track_shifted(m1.tracks@[i], m2.tracks@[i], 0, -anchor_ticks(m1.tracks@[i]), 0));
            assert(anchor_ticks(m1.tracks@[i]) == 0) by {
                assert((0u64 as i64) == 0i64) by (bit_vector);
            }
            assert forall|j: int| 0 <= j < m1.tracks@[i].samples@.len() implies sample_unchanged(
                m1.tracks@[i].samples@[j],
                #[trigger] m2.tracks@[i].samples@[j],
            ) by {
                assert(sample_shifted(m1.tracks@[i].samples@[j], m2.tracks@[i].samples@[j], 0));
                let s = m1.tracks@[i].samples@[j];
                match s.dts { Some(x) => { assert((x + 0) as i64 == x); }, None => {} }
                match s.pts { Some(x) => { assert((x + 0) as i64 == x); }, None => {} }
            }
        }
    }
}

/// A u64 tick count up to `i64::MAX` reads the same as a signed one.
proof fn lemma_small_u64_as_i64(x: u64)
    requires
        x <= i64::MAX,
    ensures
        (x as i64) as int == x as int,
{
    assert(x <= 0x7FFF_FFFF_FFFF_FFFFu64 ==> (x as i64) as int == x as int) by (bit_vector);
}

/// Rebasing keeps each anchored track anchored: its first sample then sits
/// at decode time 0, the new anchor.
pub proof fn lemma_rebase_keeps_anchor(o: Media, n: Media, i: int)
    requires
        media_rebased(o, n),
        0 <= i < o.tracks@.len(),
        anchored(o.tracks@[i]),
    ensures
        anchored(n.tracks@[i]),
{
    let t = o.tracks@[i];
    assert(track_shifted(t, n.tracks@[i], 0, -anchor_ticks(t), 0));
    lemma_small_u64_as_i64(t.start_decode_time);
    lemma_small_u64_as_i64(0);
    if t.samples@.len() > 0 {
        assert(sample_shifted(t.samples@[0], n.tracks@[i].samples@[0], -anchor_ticks(t)));
    }
}

/// Offsetting keeps each anchored track anchored, as long as its new anchor
/// still fits the signed tick range: anchor and samples move together.
pub proof fn lemma_offset_keeps_anchor(o: Media, n: Media, delta: i64, i: int)
    requires
        media_offset(o, n, delta),
        0 <= i < o.tracks@.len(),
        anchored(o.tracks@[i]),
        sat_add_signed(o.tracks@[i].start_decode_time, delta) <= i64::MAX,
    ensures
        anchored(n.tracks@[i]),
{
    let t = o.tracks@[i];
    let na = sat_add_signed(t.start_decode_time, delta);
    assert(track_shifted(t, n.tracks@[i], 0, offset_shift(t, delta), na));
    lemma_small_u64_as_i64(t.start_decode_time);
    lemma_small_u64_as_i64(na);
    if t.samples@.len() > 0 {
        assert(sample_shifted(t.samples@[0], n.tracks@[i].samples@[0], offset_shift(t, delta)));
    }
}

/// An offset that needs no clamping moves every anchor and every present
/// timestamp by exactly `delta`.
pub proof fn lemma_offset_exact(t: Track, delta: i64)
    requires
        t.start_decode_time <= i64::MAX,
        0 <= t.start_decode_time + delta <= i64::MAX,
    ensures
        sat_add_signed(t.start_decode_time, delta) == t.start_decode_time + delta,
        offset_shift(t, delta) == delta,
{
    lemma_small_u64_as_i64(t.start_decode_time);
    lemma_small_u64_as_i64(sat_add_signed(t.start_decode_time, delta));
}

/// A gap keeps an anchored track anchored: before the first sample it moves
/// the anchor with every sample, later it moves neither the anchor nor the
/// first sample.
pub proof fn lemma_gap_keeps_anchor(o: Track, n: Track, at: int, gap: u32)
    requires
        0 <= at,
        track_shifted(o, n, gap_from(o, at), gap as int, gap_anchor(o, at, gap)),
        anchored(o),
        o.start_decode_time + gap <= i64::MAX,
    ensures
        anchored(n),
{
    lemma_small_u64_as_i64(o.start_decode_time);
    lemma_small_u64_as_i64(n.start_decode_time);
    if o.samples@.len() > 0 {
        if at == 0 {
            assert(sample_shifted(o.samples@[0], n.samples@[0], gap as int));
        } else {
            assert(n.samples@[0] == o.samples@[0]);
        }
    }
}

} // verus!
