//! Progressive (single-file, non-fragmented) MP4, ISO/IEC 14496-12:2015 §8:
//! an `ftyp`, one `moov` whose tracks carry full sample tables
//! (`stts`, `ctts`, `stsc`, `stsz`, `stco`/`co64`, `stss`, §8.6–§8.7) and one
//! `mdat` holding every track's samples as a single chunk per track.
use vstd::prelude::*;
use crate::box_types::box_head;
use crate::bytes::{be32, be64, push32, push64, push_all};
use crate::ir::sample::Sample;
use crate::error::Error;
use crate::init_segment::{
    ChunkOffsetBox, MediaBox, MediaInformationBox, SampleSizeBox, SampleTableBox, SampleToChunkBox, StblChild,
    StblChildView, StcoView, StscEntry, StscView, StszView, TrackBox, TrakView,
};
use crate::init_segment::{moov_bytes, MovieBox, MovieHeaderBox, MvhdView};
use crate::ir::media::Media;
use crate::ir::track::Track;
use crate::pipeline::{build_trak, comp_offset, config_fits, max_track_id, spec_trak, specs_of, FTYP, IDENTITY_MATRIX, MDAT, MP41};

verus! {

/// Box types of the sample tables written here.
pub const STTS: [u8; 4] = [0x73, 0x74, 0x74, 0x73];
pub const CTTS: [u8; 4] = [0x63, 0x74, 0x74, 0x73];
pub const STSS: [u8; 4] = [0x73, 0x74, 0x73, 0x73];
pub const CO64: [u8; 4] = [0x63, 0x6F, 0x36, 0x34];


/// A sample's decode duration (0 when it has none).
pub open spec fn dur_of(s: Sample) -> u32 {
    match s.duration {
        Some(d) => d,
        None => 0,
    }
}

/// A sample's composition offset as the signed 32-bit field carries it.
pub open spec fn cts_of(s: Sample) -> u32 {
    (comp_offset(s) as i32) as u32
}

/// Run-length coding: consecutive equal values collapse into one
/// `(count, value)` run.
pub open spec fn rle(vs: Seq<u32>) -> Seq<(u32, u32)>
    decreases vs.len(),
{
    if vs.len() == 0 {
        Seq::empty()
    } else {
        let r = rle(vs.drop_last());
        if r.len() > 0 && r.last().1 == vs.last() {
            r.update(r.len() - 1, ((r.last().0 + 1) as u32, vs.last()))
        } else {
            r.push((1u32, vs.last()))
        }
    }
}

pub open spec fn runs_bytes(es: Seq<(u32, u32)>) -> Seq<u8>
    decreases es.len(),
{
    if es.len() == 0 {
        Seq::empty()
    } else {
        runs_bytes(es.drop_last()) + be32(es.last().0) + be32(es.last().1)
    }
}

/// A full box of `(count, value)` runs (`stts`, `ctts`).
pub open spec fn runs_box(typ: Seq<u8>, version: u8, es: Seq<(u32, u32)>) -> Seq<u8> {
    box_head(16 + 8 * es.len(), typ) + seq![version, 0u8, 0u8, 0u8] + be32(es.len() as u32)
        + runs_bytes(es)
}

pub open spec fn durations(ss: Seq<Sample>) -> Seq<u32> {
    ss.map_values(|s: Sample| dur_of(s))
}

pub open spec fn cts_offsets(ss: Seq<Sample>) -> Seq<u32> {
    ss.map_values(|s: Sample| cts_of(s))
}

/// `stts`: the run-length coded decode durations (§8.6.1.2).
pub open spec fn stts_bytes(ss: Seq<Sample>) -> Seq<u8> {
    runs_box(STTS@, 0, rle(durations(ss)))
}

/// Some sample has a non-zero composition offset.
pub open spec fn has_cts(ss: Seq<Sample>) -> bool {
    exists|k: int| 0 <= k < ss.len() && comp_offset(#[trigger] ss[k]) != 0
}

/// `ctts` version 1: the run-length coded composition offsets (§8.6.1.3),
/// only when some offset is non-zero.
pub open spec fn ctts_bytes(ss: Seq<Sample>) -> Option<Seq<u8>> {
    if has_cts(ss) {
        Some(runs_box(CTTS@, 1, rle(cts_offsets(ss))))
    } else {
        None
    }
}

/// The 1-based numbers of the sync samples among `ss`.
pub open spec fn sync_numbers(ss: Seq<Sample>) -> Seq<u32>
    decreases ss.len(),
{
    if ss.len() == 0 {
        Seq::empty()
    } else if ss.last().is_sync {
        sync_numbers(ss.drop_last()).push(ss.len() as u32)
    } else {
        sync_numbers(ss.drop_last())
    }
}

pub open spec fn u32s_bytes(vs: Seq<u32>) -> Seq<u8>
    decreases vs.len(),
{
    if vs.len() == 0 {
        Seq::empty()
    } else {
        u32s_bytes(vs.drop_last()) + be32(vs.last())
    }
}

/// Every sample is a sync sample.
pub open spec fn all_sync(ss: Seq<Sample>) -> bool {
    forall|k: int| 0 <= k < ss.len() ==> (#[trigger] ss[k]).is_sync
}

/// `stss` (§8.6.2), only when some sample is not a sync sample.
pub open spec fn stss_bytes(ss: Seq<Sample>) -> Option<Seq<u8>> {
    if all_sync(ss) {
        None
    } else {
        let n = sync_numbers(ss);
        Some(box_head(16 + 4 * n.len(), STSS@) + seq![0u8, 0u8, 0u8, 0u8] + be32(n.len() as u32) + u32s_bytes(n))
    }
}

/// `co64` with one 64-bit chunk offset (§8.7.5).
pub open spec fn co64_bytes(off: u64) -> Seq<u8> {
    box_head(24, CO64@) + seq![0u8, 0u8, 0u8, 0u8] + be32(1) + be64(off)
}

/// `stts` fits its 32-bit size field, and its run counts theirs.
pub open spec fn stts_fits(ss: Seq<Sample>) -> bool {
    ss.len() <= u32::MAX && 16 + 8 * rle(durations(ss)).len() <= u32::MAX
}

/// `ctts`, when written, fits its 32-bit size field.
pub open spec fn ctts_fits(ss: Seq<Sample>) -> bool {
    ss.len() <= u32::MAX && (has_cts(ss) ==> 16 + 8 * rle(cts_offsets(ss)).len() <= u32::MAX)
}

/// `stss`, when written, fits its 32-bit size field, and the sample numbers
/// fit theirs.
pub open spec fn stss_fits(ss: Seq<Sample>) -> bool {
    ss.len() <= u32::MAX && (!all_sync(ss) ==> 16 + 4 * sync_numbers(ss).len() <= u32::MAX)
}

/// A track's sample tables fit their 32-bit fields: sample counts and
/// numbers, and the sizes of `stts`, `ctts` and `stss`.
pub open spec fn tables_fit(ss: Seq<Sample>) -> bool {
    stts_fits(ss) && ctts_fits(ss) && stss_fits(ss)
}

pub proof fn lemma_rle_bounds(vs: Seq<u32>)
    requires
        vs.len() <= u32::MAX,
    ensures
        rle(vs).len() <= vs.len(),
        vs.len() > 0 ==> rle(vs).len() > 0,
        forall|k: int| 0 <= k < rle(vs).len() ==> 1 <= (#[trigger] rle(vs)[k]).0 <= vs.len(),
    decreases vs.len(),
{
    if vs.len() > 0 {
        lemma_rle_bounds(vs.drop_last());
    }
}

/// The run-length coding of `vs`.
fn rle_exec(vs: &Vec<u32>) -> (r: Vec<(u32, u32)>)
    requires
        vs.len() <= u32::MAX,
    ensures
        r@ == rle(vs@),
{
    let mut out: Vec<(u32, u32)> = Vec::new();
    let mut i: usize = 0;
    while i < vs.len()
        invariant
            i <= vs.len() <= u32::MAX,
            out@ == rle(vs@.take(i as int)),
        decreases vs.len() - i,
    {
        proof {
            lemma_rle_bounds(vs@.take(i as int));
        }
        let v = vs[i];
        assert(vs@.take(i + 1int).drop_last() =~= vs@.take(i as int));
        let n = out.len();
        if n > 0 && out[n - 1].1 == v {
            let c = out[n - 1].0;
            out.set(n - 1, (c + 1, v));
        } else {
            out.push((1, v));
        }
        i += 1;
    }
    assert(vs@.take(i as int) =~= vs@);
    out
}

/// Append the box of `(count, value)` runs.
fn push_runs_box(out: &mut Vec<u8>, typ: &[u8; 4], version: u8, es: &Vec<(u32, u32)>)
    requires
        16 + 8 * es.len() <= u32::MAX,
    ensures
        final(out)@ == old(out)@ + runs_box(typ@, version, es@),
{
    let ghost start = out@;
    let n = es.len();
    push32(out, (16 + 8 * n) as u32);
    push_all(out, typ);
    out.push(version);
    out.push(0);
    out.push(0);
    out.push(0);
    push32(out, n as u32);
    let ghost head = out@;
    let mut k: usize = 0;
    while k < n
        invariant
            k <= n == es.len(),
            out@ == head + runs_bytes(es@.take(k as int)),
        decreases n - k,
    {
        assert(es@.take(k + 1int).drop_last() =~= es@.take(k as int));
        push32(out, es[k].0);
        push32(out, es[k].1);
        k += 1;
    }
    assert(es@.take(n as int) =~= es@);
    assert(out@ =~= start + runs_box(typ@, version, es@));
}

/// The `stts` box of `ss`.
pub fn build_stts(ss: &[Sample]) -> (r: Vec<u8>)
    requires
        stts_fits(ss@),
    ensures
        r@ == stts_bytes(ss@),
{
    let mut vs: Vec<u32> = Vec::new();
    let mut i: usize = 0;
    while i < ss.len()
        invariant
            i <= ss.len(),
            vs@ == durations(ss@).take(i as int),
        decreases ss.len() - i,
    {
        let d = match ss[i].duration {
            Some(d) => d,
            None => 0,
        };
        vs.push(d);
        assert(vs@ =~= durations(ss@).take(i + 1int));
        i += 1;
    }
    assert(vs@ =~= durations(ss@));
    let es = rle_exec(&vs);
    proof {
        lemma_rle_bounds(vs@);
    }
    let mut out: Vec<u8> = Vec::new();
    push_runs_box(&mut out, &STTS, 0, &es);
    out
}

/// The `ctts` box of `ss`, when some composition offset is non-zero.
pub fn build_ctts(ss: &[Sample]) -> (r: Option<Vec<u8>>)
    requires
        ctts_fits(ss@),
    ensures
        match ctts_bytes(ss@) {
            Some(b) => r matches Some(x) && x@ == b,
            None => r is None,
        },
{
    let mut vs: Vec<u32> = Vec::new();
    let mut any = false;
    let mut i: usize = 0;
    while i < ss.len()
        invariant
            i <= ss.len(),
            vs@ == cts_offsets(ss@).take(i as int),
            any == exists|k: int| 0 <= k < i && comp_offset(#[trigger] ss@[k]) != 0,
        decreases ss.len() - i,
    {
        let s = &ss[i];
        let c: i128 = match (s.dts, s.pts) {
            (Some(d), Some(p)) => p as i128 - d as i128,
            _ => 0,
        };
        assert(c == comp_offset(ss@[i as int]));
        if c != 0 {
            any = true;
        }
        #[verifier::truncate]
        let v = (c as i32) as u32;
        vs.push(v);
        assert(vs@ =~= cts_offsets(ss@).take(i + 1int));
        i += 1;
    }
    assert(vs@ =~= cts_offsets(ss@));
    if !any {
        return None;
    }
    let es = rle_exec(&vs);
    proof {
        lemma_rle_bounds(vs@);
    }
    let mut out: Vec<u8> = Vec::new();
    push_runs_box(&mut out, &CTTS, 1, &es);
    Some(out)
}

/// The `stss` box of `ss`, when some sample is not a sync sample.
pub fn build_stss(ss: &[Sample]) -> (r: Option<Vec<u8>>)
    requires
        stss_fits(ss@),
    ensures
        match stss_bytes(ss@) {
            Some(b) => r matches Some(x) && x@ == b,
            None => r is None,
        },
{
    let mut ns: Vec<u32> = Vec::new();
    let mut all = true;
    let mut i: usize = 0;
    while i < ss.len()
        invariant
            i <= ss.len() <= u32::MAX,
            ns@ == sync_numbers(ss@.take(i as int)),
            ns@.len() <= i,
            all == forall|k: int| 0 <= k < i ==> (#[trigger] ss@[k]).is_sync,
        decreases ss.len() - i,
    {
        assert(ss@.take(i + 1int).drop_last() =~= ss@.take(i as int));
        if ss[i].is_sync {
            ns.push((i + 1) as u32);
        } else {
            all = false;
        }
        i += 1;
    }
    assert(ss@.take(i as int) =~= ss@);
    if all {
        return None;
    }
    let mut out: Vec<u8> = Vec::new();
    let n = ns.len();
    push32(&mut out, (16 + 4 * n) as u32);
    push_all(&mut out, &STSS);
    out.push(0);
    out.push(0);
    out.push(0);
    out.push(0);
    push32(&mut out, n as u32);
    let ghost head = out@;
    let mut k: usize = 0;
    while k < n
        invariant
            k <= n == ns.len(),
            out@ == head + u32s_bytes(ns@.take(k as int)),
        decreases n - k,
    {
        assert(ns@.take(k + 1int).drop_last() =~= ns@.take(k as int));
        push32(&mut out, ns[k]);
        k += 1;
    }
    assert(ns@.take(n as int) =~= ns@);
    assert(out@ =~= stss_bytes(ss@)->0);
    Some(out)
}

/// The `co64` box with one chunk at `off`.
pub fn build_co64(off: u64) -> (r: Vec<u8>)
    ensures
        r@ == co64_bytes(off),
{
    let mut out: Vec<u8> = Vec::new();
    push32(&mut out, 24);
    push_all(&mut out, &CO64);
    out.push(0);
    out.push(0);
    out.push(0);
    out.push(0);
    push32(&mut out, 1);
    push64(&mut out, off);
    assert(out@ =~= co64_bytes(off));
    out
}

/// `stsz`: each sample's size.
pub open spec fn stsz_view(ss: Seq<Sample>) -> StszView {
    (0u8, 0u32, 0u32, ss.map_values(|s: Sample| s.data@.len() as u32))
}

/// `stsc`: one chunk holding all `n` samples, with sample description 1.
pub open spec fn stsc_view(n: nat) -> StscView {
    (0u8, 0u32, seq![StscEntry { first_chunk: 1, samples_per_chunk: n as u32, sample_description_index: 1 }])
}

/// The full sample table of a track whose single chunk starts at `off`:
/// `stsd`, `stts`, `ctts` (when needed), `stsc`, `stsz`, `stco` or `co64`,
/// `stss` (when needed).
pub open spec fn prog_stbl(stsd: StblChildView, ss: Seq<Sample>, off: u64, use64: bool) -> Seq<StblChildView> {
    seq![stsd, StblChildView::Opaque(stts_bytes(ss))] + match ctts_bytes(ss) {
        Some(b) => seq![StblChildView::Opaque(b)],
        None => Seq::empty(),
    } + seq![StblChildView::Stsc(stsc_view(ss.len())), StblChildView::Stsz(stsz_view(ss))] + seq![
        if use64 {
            StblChildView::Opaque(co64_bytes(off))
        } else {
            StblChildView::Stco((0u8, 0u32, seq![off as u32]))
        },
    ] + match stss_bytes(ss) {
        Some(b) => seq![StblChildView::Opaque(b)],
        None => Seq::empty(),
    }
}

/// Build the full sample table of a track.
fn stbl_children(stsd: StblChild, ss: &[Sample], off: u64, use64: bool) -> (r: Vec<StblChild>)
    requires
        tables_fit(ss@),
    ensures
        r@.map_values(|c: StblChild| c@) == prog_stbl(stsd@, ss@, off, use64),
{
    let ghost sv = stsd@;
    let mut out: Vec<StblChild> = Vec::new();
    out.push(stsd);
    out.push(StblChild::Opaque(build_stts(ss)));
    match build_ctts(ss) {
        Some(b) => out.push(StblChild::Opaque(b)),
        None => {},
    }
    let mut sizes: Vec<u32> = Vec::new();
    let mut i: usize = 0;
    while i < ss.len()
        invariant
            i <= ss.len(),
            sizes@ == ss@.take(i as int).map_values(|s: Sample| s.data@.len() as u32),
        decreases ss.len() - i,
    {
        #[verifier::truncate]
        let z = ss[i].data.len() as u32;
        sizes.push(z);
        assert(sizes@ =~= ss@.take(i + 1int).map_values(|s: Sample| s.data@.len() as u32));
        i += 1;
    }
    assert(ss@.take(i as int) =~= ss@);
    let mut entries: Vec<StscEntry> = Vec::new();
    #[verifier::truncate]
    let n32 = ss.len() as u32;
    entries.push(StscEntry { first_chunk: 1, samples_per_chunk: n32, sample_description_index: 1 });
    out.push(StblChild::Stsc(SampleToChunkBox { version: 0, flags: 0, entries }));
    out.push(StblChild::Stsz(SampleSizeBox { version: 0, flags: 0, sample_size: 0, entries: sizes }));
    if use64 {
        out.push(StblChild::Opaque(build_co64(off)));
    } else {
        let mut offs: Vec<u32> = Vec::new();
        #[verifier::truncate]
        let o32 = off as u32;
        offs.push(o32);
        out.push(StblChild::Stco(ChunkOffsetBox { version: 0, flags: 0, entries: offs }));
    }
    match build_stss(ss) {
        Some(b) => out.push(StblChild::Opaque(b)),
        None => {},
    }
    assert(out@.map_values(|c: StblChild| c@) =~= prog_stbl(sv, ss@, off, use64));
    out
}

pub open spec fn is_stsd(c: StblChildView) -> bool {
    c is Stsd
}

/// The first `stsd` child.
pub open spec fn first_stsd(cs: Seq<StblChildView>) -> Option<StblChildView>
    decreases cs.len(),
{
    if cs.len() == 0 {
        None
    } else if is_stsd(cs[0]) {
        Some(cs[0])
    } else {
        first_stsd(cs.drop_first())
    }
}

pub open spec fn stbl_missing() -> Error {
    Error::UnexpectedBox { expected: "stbl" }
}

/// A track's `trak` made progressive: `tkhd` and `mdhd` durations set, the
/// sample table replaced by the full one, the `stsd` kept.
pub open spec fn prog_trak(tv: TrakView, ss: Seq<Sample>, media_dur: u64, movie_dur: u64, off: u64, use64: bool) -> Result<TrakView, Error> {
    let t = tv.0;
    let tkhd = (t.0, t.1, t.2, t.3, t.4, movie_dur, t.6, t.7, t.8, t.9, t.10, t.11);
    match tv.2 {
        None => Err(stbl_missing()),
        Some(md) => match md.2 {
            None => Err(stbl_missing()),
            Some(mi) => match mi.3 {
                None => Err(stbl_missing()),
                Some(cs) => match first_stsd(cs) {
                    None => Err(Error::UnexpectedBox { expected: "stsd" }),
                    Some(stsd) => {
                        let mdhd = match md.0 {
                            Some(h) => Some(crate::init_segment::MediaHeaderBox { duration: media_dur, ..h }),
                            None => None,
                        };
                        let minf = (mi.0, mi.1, mi.2, Some(prog_stbl(stsd, ss, off, use64)), mi.4);
                        Ok((tkhd, tv.1, Some((mdhd, md.1, Some(minf), md.3)), tv.3))
                    },
                },
            },
        },
    }
}

/// Take the first `stsd` child out of `cs`.
fn take_stsd(children: Vec<StblChild>) -> (r: Option<StblChild>)
    ensures
        match first_stsd(children@.map_values(|c: StblChild| c@)) {
            Some(v) => r matches Some(c) && c@ == v,
            None => r is None,
        },
{
    let ghost all = children@.map_values(|c: StblChild| c@);
    let mut cs = children;
    let mut i: usize = 0;
    let n = cs.len();
    assert(all.skip(0) =~= all);
    while i < n
        invariant
            i <= n == cs.len(),
            all == cs@.map_values(|c: StblChild| c@),
            all == children@.map_values(|c: StblChild| c@),
            first_stsd(all) == first_stsd(all.skip(i as int)),
        decreases n - i,
    {
        assert(all.skip(i as int)[0] == cs@[i as int]@);
        assert(all.skip(i as int).drop_first() =~= all.skip(i + 1int));
        let found = match &cs[i] {
            StblChild::Stsd(_) => true,
            _ => false,
        };
        if found {
            assert(is_stsd(all.skip(i as int)[0]));
            assert(first_stsd(all.skip(i as int)) == Some(cs@[i as int]@));
            let ghost want = cs@[i as int];
            let c = cs.remove(i);
            assert(c == want);
            return Some(c);
        }
        i += 1;
    }
    None
}

/// Make a `trak` progressive.
fn make_prog_trak(tb: TrackBox, ss: &[Sample], media_dur: u64, movie_dur: u64, off: u64, use64: bool) -> (r: Result<TrackBox, Error>)
    requires
        tables_fit(ss@),
    ensures
        match prog_trak(tb@, ss@, media_dur, movie_dur, off, use64) {
            Ok(v) => r matches Ok(x) && x@ == v,
            Err(e) => r == Err::<TrackBox, Error>(e),
        },
{
    let ghost tv = tb@;
    let TrackBox { mut tkhd, edts, mdia, opaque } = tb;
    tkhd.duration = movie_dur;
    let md = match mdia {
        Some(m) => m,
        None => {
            return Err(Error::UnexpectedBox { expected: "stbl" });
        },
    };
    let MediaBox { mdhd, hdlr, minf, opaque: mopaque } = md;
    let mi = match minf {
        Some(m) => m,
        None => {
            return Err(Error::UnexpectedBox { expected: "stbl" });
        },
    };
    let MediaInformationBox { vmhd, smhd, dinf, stbl, opaque: iopaque } = mi;
    let st = match stbl {
        Some(s) => s,
        None => {
            return Err(Error::UnexpectedBox { expected: "stbl" });
        },
    };
    let stsd = match take_stsd(st.children) {
        Some(c) => c,
        None => {
            return Err(Error::UnexpectedBox { expected: "stsd" });
        },
    };
    let mdhd = match mdhd {
        Some(mut h) => {
            h.duration = media_dur;
            Some(h)
        },
        None => None,
    };
    let children = stbl_children(stsd, ss, off, use64);
    let minf = MediaInformationBox { vmhd, smhd, dinf, stbl: Some(SampleTableBox { children }), opaque: iopaque };
    let r = TrackBox { tkhd, edts, mdia: Some(MediaBox { mdhd, hdlr, minf: Some(minf), opaque: mopaque }), opaque };
    assert(r@ =~~= prog_trak(tv, ss@, media_dur, movie_dur, off, use64)->Ok_0);
    Ok(r)
}

// ---------------------------------------------------------------------------
// The file
// ---------------------------------------------------------------------------

/// `ftyp` brands `isom`, `iso2`, `avc1` (with `mp41`).
pub const ISOM: [u8; 4] = [0x69, 0x73, 0x6F, 0x6D];
pub const ISO2: [u8; 4] = [0x69, 0x73, 0x6F, 0x32];
pub const AVC1: [u8; 4] = [0x61, 0x76, 0x63, 0x31];

/// `ftyp`: major brand `isom`, minor version 512, compatible `isom`,
/// `iso2`, `mp41`, `avc1`.
pub open spec fn prog_ftyp() -> Seq<u8> {
    box_head(32, FTYP@) + ISOM@ + be32(512) + ISOM@ + ISO2@ + MP41@ + AVC1@
}

/// The tracks that are muxed: all but opaque data tracks, in order.
pub open spec fn kept(ts: Seq<Track>) -> Seq<Track>
    decreases ts.len(),
{
    if ts.len() == 0 {
        Seq::empty()
    } else if ts.last().spec.config is Data {
        kept(ts.drop_last())
    } else {
        kept(ts.drop_last()).push(ts.last())
    }
}

/// The sum of the samples' decode durations.
pub open spec fn sum_dur(ss: Seq<Sample>) -> nat
    decreases ss.len(),
{
    if ss.len() == 0 {
        0
    } else {
        sum_dur(ss.drop_last()) + dur_of(ss.last()) as nat
    }
}

/// The samples' data, concatenated.
pub open spec fn samples_data(ss: Seq<Sample>) -> Seq<u8>
    decreases ss.len(),
{
    if ss.len() == 0 {
        Seq::empty()
    } else {
        samples_data(ss.drop_last()) + ss.last().data@
    }
}

/// The `mdat` payload: each track's samples, track after track.
pub open spec fn payload(ks: Seq<Track>) -> Seq<u8>
    decreases ks.len(),
{
    if ks.len() == 0 {
        Seq::empty()
    } else {
        payload(ks.drop_last()) + samples_data(ks.last().samples@)
    }
}

/// Where track `j`'s chunk starts within the `mdat` payload.
pub open spec fn rel(ks: Seq<Track>, j: int) -> nat {
    payload(ks.take(j)).len()
}

/// A track's duration in movie-timescale units.
pub open spec fn movie_dur(t: Track, mts: u32) -> nat {
    let ts: nat = if t.spec.timescale == 0 { 1 } else { t.spec.timescale as nat };
    ((sum_dur(t.samples@) * (mts as nat)) as int / ts as int) as nat
}

pub open spec fn max_movie_dur(ks: Seq<Track>, mts: u32) -> nat
    decreases ks.len(),
{
    if ks.len() == 0 {
        0
    } else {
        let m = max_movie_dur(ks.drop_last(), mts);
        let d = movie_dur(ks.last(), mts) as u64;
        if d > m { d as nat } else { m }
    }
}

/// The fragmented-init `trak` of each track, or the first track's error.
pub open spec fn base_traks(ks: Seq<Track>) -> Result<Seq<TrakView>, Error>
    decreases ks.len(),
{
    if ks.len() == 0 {
        Ok(Seq::empty())
    } else {
        match base_traks(ks.drop_last()) {
            Err(e) => Err(e),
            Ok(a) => match spec_trak(ks.last().spec) {
                Err(e) => Err(e),
                Ok(v) => Ok(a.push(v)),
            },
        }
    }
}

/// The progressive `trak`s when the `mdat` payload starts at `poff`.
pub open spec fn prog_traks(ks: Seq<Track>, tvs: Seq<TrakView>, mts: u32, use64: bool, poff: nat) -> Result<Seq<TrakView>, Error>
    decreases ks.len(),
{
    if ks.len() == 0 || tvs.len() == 0 {
        Ok(Seq::empty())
    } else {
        match prog_traks(ks.drop_last(), tvs.drop_last(), mts, use64, poff) {
            Err(e) => Err(e),
            Ok(a) => {
                let t = ks.last();
                match prog_trak(
                    tvs.last(),
                    t.samples@,
                    sum_dur(t.samples@) as u64,
                    movie_dur(t, mts) as u64,
                    (poff + rel(ks, ks.len() - 1)) as u64,
                    use64,
                ) {
                    Err(e) => Err(e),
                    Ok(v) => Ok(a.push(v)),
                }
            },
        }
    }
}

pub open spec fn prog_mvhd(mts: u32, next_track_id: u32, duration: u64) -> MvhdView {
    (0u8, 0u32, 0u64, 0u64, mts, duration, 0x0001_0000u32, 0x0100u16, IDENTITY_MATRIX@, next_track_id)
}

/// The `moov` bytes when the `mdat` payload starts at `poff`.
pub open spec fn prog_moov(ks: Seq<Track>, tvs: Seq<TrakView>, mts: u32, use64: bool, poff: nat) -> Result<Seq<u8>, Error> {
    match prog_traks(ks, tvs, mts, use64, poff) {
        Err(e) => Err(e),
        Ok(trs) => Ok(moov_bytes(
            (
                prog_mvhd(mts, (max_track_id(specs_of(ks)) + 1) as u32, max_movie_dur(ks, mts) as u64),
                trs,
                None,
                Seq::empty(),
            ),
        )),
    }
}

/// Some chunk would start beyond the reach of a 32-bit offset.
pub open spec fn needs_co64(ks: Seq<Track>, poff: nat) -> bool {
    exists|j: int| 0 <= j < ks.len() && poff + rel(ks, j) > u32::MAX
}

/// Where the `mdat` payload starts, given the `moov` size.
pub open spec fn payload_start(faststart: bool, moov_len: nat) -> nat {
    if faststart { 40 + moov_len } else { 40 }
}

pub open spec fn mdat_bytes(p: Seq<u8>) -> Seq<u8> {
    box_head(8 + p.len(), MDAT@) + p
}

/// The file: `ftyp`, then `moov` and `mdat` (or `mdat` and `moov`).
pub open spec fn prog_file(faststart: bool, moov: Seq<u8>, p: Seq<u8>) -> Seq<u8> {
    if faststart {
        prog_ftyp() + moov + mdat_bytes(p)
    } else {
        prog_ftyp() + mdat_bytes(p) + moov
    }
}

/// The movie timescale written: the media's own, or 1000 for 0.
pub open spec fn prog_timescale(m: Media) -> u32 {
    if m.movie_timescale == 0 { 1000 } else { m.movie_timescale }
}

/// What `ProgressiveMux` produces. The `moov` is laid out once with 32-bit
/// offsets against a payload at 0 to learn its size; if some chunk then
/// starts past `u32::MAX`, it is laid out again with 64-bit offsets; the
/// final `moov` carries the true chunk offsets.
pub open spec fn spec_progressive(faststart: bool, m: Media) -> Result<Seq<u8>, Error> {
    let ks = kept(m.tracks@);
    let mts = prog_timescale(m);
    if m.tracks@.len() == 0 {
        Err(Error::InvalidInput("cannot package a Media with no tracks"))
    } else {
        match base_traks(ks) {
            Err(e) => Err(e),
            Ok(tvs) => match prog_moov(ks, tvs, mts, false, 0) {
                Err(e) => Err(e),
                Ok(m0) => {
                    let off0 = payload_start(faststart, m0.len());
                    if !needs_co64(ks, off0) {
                        match prog_moov(ks, tvs, mts, false, off0) {
                            Err(e) => Err(e),
                            Ok(mv) => Ok(prog_file(faststart, mv, payload(ks))),
                        }
                    } else {
                        match prog_moov(ks, tvs, mts, true, 0) {
                            Err(e) => Err(e),
                            Ok(m1) => match prog_moov(ks, tvs, mts, true, payload_start(faststart, m1.len())) {
                                Err(e) => Err(e),
                                Ok(mv) => Ok(prog_file(faststart, mv, payload(ks))),
                            },
                        }
                    }
                },
            },
        }
    }
}

/// The limits `ProgressiveMux` works within: track IDs below `u32::MAX`,
/// sample counts, durations and the `mdat` size within their fields.
pub open spec fn prog_fits(m: Media) -> bool {
    let ks = kept(m.tracks@);
    &&& max_track_id(specs_of(ks)) < u32::MAX
    &&& forall|j: int| 0 <= j < ks.len() ==> config_fits((#[trigger] ks[j]).spec.config)
    &&& forall|j: int| 0 <= j < ks.len() ==> tables_fit((#[trigger] ks[j]).samples@)
    &&& forall|j: int| 0 <= j < ks.len() ==> sum_dur((#[trigger] ks[j]).samples@) * prog_timescale(m) <= u64::MAX
    &&& payload(ks).len() + 8 <= u32::MAX
}

proof fn lemma_base_traks(ks: Seq<Track>, tvs: Seq<TrakView>)
    requires
        base_traks(ks) == Ok::<Seq<TrakView>, Error>(tvs),
    ensures
        tvs.len() == ks.len(),
        forall|j: int| 0 <= j < ks.len() ==> spec_trak((#[trigger] ks[j]).spec) == Ok::<TrakView, Error>(tvs[j]),
    decreases ks.len(),
{
    if ks.len() > 0 {
        let a = base_traks(ks.drop_last())->Ok_0;
        lemma_base_traks(ks.drop_last(), a);
        assert forall|j: int| 0 <= j < ks.len() implies spec_trak((#[trigger] ks[j]).spec) == Ok::<TrakView, Error>(tvs[j]) by {
            if j < ks.len() - 1 {
                assert(ks.drop_last()[j] == ks[j]);
            }
        }
    }
}

proof fn lemma_base_traks_err(ks: Seq<Track>, k: int, e: Error)
    requires
        0 <= k <= ks.len(),
        base_traks(ks.take(k)) == Err::<Seq<TrakView>, Error>(e),
    ensures
        base_traks(ks) == Err::<Seq<TrakView>, Error>(e),
    decreases ks.len() - k,
{
    if k < ks.len() {
        assert(ks.take(k + 1).drop_last() =~= ks.take(k));
        lemma_base_traks_err(ks, k + 1, e);
    } else {
        assert(ks.take(k) =~= ks);
    }
}

proof fn lemma_prog_traks_err(ks: Seq<Track>, tvs: Seq<TrakView>, mts: u32, use64: bool, poff: nat, k: int, e: Error)
    requires
        0 <= k <= ks.len(),
        tvs.len() == ks.len(),
        prog_traks(ks.take(k), tvs.take(k), mts, use64, poff) == Err::<Seq<TrakView>, Error>(e),
    ensures
        prog_traks(ks, tvs, mts, use64, poff) == Err::<Seq<TrakView>, Error>(e),
    decreases ks.len() - k,
{
    if k < ks.len() {
        assert(ks.take(k + 1).drop_last() =~= ks.take(k));
        assert(tvs.take(k + 1).drop_last() =~= tvs.take(k));
        lemma_prog_traks_err(ks, tvs, mts, use64, poff, k + 1, e);
    } else {
        assert(ks.take(k) =~= ks);
        assert(tvs.take(k) =~= tvs);
    }
}

/// Package a [`Media`] into one non-fragmented `.mp4` file.
#[derive(Debug, Clone)]
pub struct ProgressiveMux {
    /// Place `moov` before `mdat` (progressive-download friendly).
    pub faststart: bool,
}

impl Default for ProgressiveMux {
    fn default() -> (r: Self)
        ensures
            r.faststart == false,
    {
        ProgressiveMux { faststart: false }
    }
}

/// Per-track facts computed once: durations, chunk positions, payload.
struct Layout {
    idx: Vec<usize>,
    media_durs: Vec<u64>,
    movie_durs: Vec<u64>,
    rels: Vec<u64>,
    max_dur: u64,
    next_id: u32,
    mts: u32,
}

pub open spec fn layout_ok(
    m: Media,
    idx: Seq<usize>,
    media_durs: Seq<u64>,
    movie_durs: Seq<u64>,
    rels: Seq<u64>,
    max_dur: u64,
    next_id: u32,
    mts: u32,
) -> bool {
    let ks = kept(m.tracks@);
    &&& mts == prog_timescale(m)
    &&& idx.len() == ks.len()
    &&& media_durs.len() == ks.len()
    &&& movie_durs.len() == ks.len()
    &&& rels.len() == ks.len()
    &&& forall|j: int| 0 <= j < ks.len() ==> (#[trigger] idx[j]) < m.tracks@.len() && m.tracks@[idx[j] as int] == ks[j]
    &&& forall|j: int| 0 <= j < ks.len() ==> (#[trigger] media_durs[j]) == sum_dur(ks[j].samples@) as u64
    &&& forall|j: int| 0 <= j < ks.len() ==> (#[trigger] movie_durs[j]) == movie_dur(ks[j], mts) as u64
    &&& forall|j: int| 0 <= j < ks.len() ==> (#[trigger] rels[j]) == rel(ks, j)
    &&& max_dur == max_movie_dur(ks, mts) as u64
    &&& next_id == (max_track_id(specs_of(ks)) + 1) as u32
}

/// The `moov` for one layout of the chunk offsets.
fn assemble_moov(media: &Media, lay: &Layout, Ghost(tvs): Ghost<Seq<TrakView>>, use64: bool, poff: u128) -> (r: Result<Vec<u8>, Error>)
    requires
        poff <= 2 * (u64::MAX as u128),
        prog_fits(*media),
        base_traks(kept(media.tracks@)) == Ok::<Seq<TrakView>, Error>(tvs),
        layout_ok(*media, lay.idx@, lay.media_durs@, lay.movie_durs@, lay.rels@, lay.max_dur, lay.next_id, lay.mts),
    ensures
        match prog_moov(kept(media.tracks@), tvs, lay.mts, use64, poff as nat) {
            Ok(b) => r matches Ok(x) && x@ == b,
            Err(e) => r == Err::<Vec<u8>, Error>(e),
        },
{
    let ghost ks = kept(media.tracks@);
    proof {
        lemma_base_traks(ks, tvs);
    }
    let n = lay.idx.len();
    let mut traks: Vec<TrackBox> = Vec::new();
    let mut j: usize = 0;
    assert(ks.take(0) =~= Seq::<Track>::empty());
    assert(traks@.map_values(|x: TrackBox| x@) =~= Seq::<TrakView>::empty());
    while j < n
        invariant
            n == lay.idx@.len() == ks.len() == tvs.len(),
            ks == kept(media.tracks@),
            j <= n,
            poff <= 2 * (u64::MAX as u128),
            prog_fits(*media),
            layout_ok(*media, lay.idx@, lay.media_durs@, lay.movie_durs@, lay.rels@, lay.max_dur, lay.next_id, lay.mts),
            forall|i: int| 0 <= i < ks.len() ==> spec_trak((#[trigger] ks[i]).spec) == Ok::<TrakView, Error>(tvs[i]),
            prog_traks(ks.take(j as int), tvs.take(j as int), lay.mts, use64, poff as nat) == Ok::<Seq<TrakView>, Error>(
                traks@.map_values(|x: TrackBox| x@),
            ),
        decreases n - j,
    {
        let t = &media.tracks[lay.idx[j]];
        assert(*t == ks[j as int]);
        assert(config_fits(ks[j as int].spec.config));
        assert(tables_fit(ks[j as int].samples@));
        let tb = match build_trak(&t.spec) {
            Ok(tb) => tb,
            Err(e) => {
                proof {
                    assert(false);
                }
                return Err(e);
            },
        };
        #[verifier::truncate]
        let off = (poff + lay.rels[j] as u128) as u64;
        let ghost kj = ks.take(j + 1int);
        let ghost tj = tvs.take(j + 1int);
        assert(kj.drop_last() =~= ks.take(j as int));
        assert(tj.drop_last() =~= tvs.take(j as int));
        assert(kj.take(j as int) =~= ks.take(j as int));
        assert(kj.last() == ks[j as int]);
        assert(tj.last() == tvs[j as int]);
        match make_prog_trak(tb, t.samples.as_slice(), lay.media_durs[j], lay.movie_durs[j], off, use64) {
            Ok(pt) => {
                let ghost prev = traks@.map_values(|x: TrackBox| x@);
                traks.push(pt);
                assert(traks@.map_values(|x: TrackBox| x@) =~= prev.push(pt@));
            },
            Err(e) => {
                proof {
                    lemma_prog_traks_err(ks, tvs, lay.mts, use64, poff as nat, j + 1, e);
                }
                return Err(e);
            },
        }
        j += 1;
    }
    assert(ks.take(n as int) =~= ks);
    assert(tvs.take(n as int) =~= tvs);
    let mvhd = MovieHeaderBox {
        version: 0,
        flags: 0,
        creation_time: 0,
        modification_time: 0,
        timescale: lay.mts,
        duration: lay.max_dur,
        rate: 0x0001_0000,
        volume: 0x0100,
        matrix: IDENTITY_MATRIX,
        next_track_id: lay.next_id,
    };
    let moov = MovieBox { mvhd, tracks: traks, mvex: None, opaque: Vec::new() };
    let out = moov.to_bytes();
    proof {
        let mv = moov@;
        assert(mv.3 =~= Seq::<(Seq<u8>, Seq<u8>)>::empty());
        assert(mv.0 =~~= prog_mvhd(lay.mts, lay.next_id, lay.max_dur));
    }
    Ok(out)
}

/// The positions in `media.tracks` of the tracks that are muxed.
fn kept_indices(media: &Media) -> (idx: Vec<usize>)
    ensures
        idx@.len() == kept(media.tracks@).len(),
        forall|j: int|
            0 <= j < idx@.len() ==> (#[trigger] idx@[j]) < media.tracks@.len() && media.tracks@[idx@[j] as int]
                == kept(media.tracks@)[j],
{
    let mut idx: Vec<usize> = Vec::new();
    let n = media.tracks.len();
    let mut i: usize = 0;
    while i < n
        invariant
            i <= n == media.tracks@.len(),
            idx@.len() == kept(media.tracks@.take(i as int)).len(),
            forall|j: int|
                0 <= j < idx@.len() ==> (#[trigger] idx@[j]) < i && media.tracks@[idx@[j] as int] == kept(
                    media.tracks@.take(i as int),
                )[j],
        decreases n - i,
    {
        assert(media.tracks@.take(i + 1int).drop_last() =~= media.tracks@.take(i as int));
        assert(media.tracks@.take(i + 1int).last() == media.tracks@[i as int]);
        if !media.tracks[i].spec.config.is_opaque_data() {
            idx.push(i);
        }
        i += 1;
    }
    assert(media.tracks@.take(n as int) =~= media.tracks@);
    idx
}

/// Whether every muxed track has a `trak`; the first error otherwise.
fn check_traks(media: &Media, idx: &Vec<usize>) -> (r: Result<(), Error>)
    requires
        prog_fits(*media),
        idx@.len() == kept(media.tracks@).len(),
        forall|j: int|
            0 <= j < idx@.len() ==> (#[trigger] idx@[j]) < media.tracks@.len() && media.tracks@[idx@[j] as int]
                == kept(media.tracks@)[j],
    ensures
        r is Ok <==> base_traks(kept(media.tracks@)) is Ok,
        r matches Err(e) ==> base_traks(kept(media.tracks@)) == Err::<Seq<TrakView>, Error>(e),
{
    let ghost ks = kept(media.tracks@);
    let n = idx.len();
    let mut j: usize = 0;
    assert(ks.take(0) =~= Seq::<Track>::empty());
    while j < n
        invariant
            n == idx@.len() == ks.len(),
            ks == kept(media.tracks@),
            j <= n,
            prog_fits(*media),
            forall|i: int|
                0 <= i < idx@.len() ==> (#[trigger] idx@[i]) < media.tracks@.len() && media.tracks@[idx@[i] as int]
                    == ks[i],
            base_traks(ks.take(j as int)) is Ok,
        decreases n - j,
    {
        let t = &media.tracks[idx[j]];
        assert(*t == ks[j as int]);
        assert(config_fits(ks[j as int].spec.config));
        assert(ks.take(j + 1int).drop_last() =~= ks.take(j as int));
        assert(ks.take(j + 1int).last() == ks[j as int]);
        match build_trak(&t.spec) {
            Ok(_) => {},
            Err(e) => {
                proof {
                    lemma_base_traks_err(ks, j + 1, e);
                }
                return Err(e);
            },
        }
        j += 1;
    }
    assert(ks.take(n as int) =~= ks);
    Ok(())
}

proof fn lemma_sum_dur_bound(ss: Seq<Sample>)
    ensures
        sum_dur(ss) <= ss.len() * 0xFFFF_FFFF,
    decreases ss.len(),
{
    if ss.len() > 0 {
        lemma_sum_dur_bound(ss.drop_last());
    }
}

/// Durations, chunk positions and the `mdat` payload.
fn layout(media: &Media, idx: Vec<usize>) -> (r: (Layout, Vec<u8>))
    requires
        prog_fits(*media),
        idx@.len() == kept(media.tracks@).len(),
        forall|j: int|
            0 <= j < idx@.len() ==> (#[trigger] idx@[j]) < media.tracks@.len() && media.tracks@[idx@[j] as int]
                == kept(media.tracks@)[j],
    ensures
        layout_ok(*media, r.0.idx@, r.0.media_durs@, r.0.movie_durs@, r.0.rels@, r.0.max_dur, r.0.next_id, r.0.mts),
        r.1@ == payload(kept(media.tracks@)),
{
    let ghost ks = kept(media.tracks@);
    let mts = if media.movie_timescale == 0 {
        1000
    } else {
        media.movie_timescale
    };
    let n = idx.len();
    let mut media_durs: Vec<u64> = Vec::new();
    let mut movie_durs: Vec<u64> = Vec::new();
    let mut rels: Vec<u64> = Vec::new();
    let mut pl: Vec<u8> = Vec::new();
    let mut max_dur: u64 = 0;
    let mut max_id: u32 = 0;
    let ghost sp = specs_of(ks);
    let mut j: usize = 0;
    assert(ks.take(0) =~= Seq::<Track>::empty());
    assert(sp.take(0) =~= Seq::<crate::ir::track::TrackSpec>::empty());
    while j < n
        invariant
            n == idx@.len() == ks.len(),
            ks == kept(media.tracks@),
            sp == specs_of(ks),
            j <= n,
            mts == prog_timescale(*media),
            prog_fits(*media),
            forall|i: int|
                0 <= i < idx@.len() ==> (#[trigger] idx@[i]) < media.tracks@.len() && media.tracks@[idx@[i] as int]
                    == ks[i],
            media_durs@.len() == j,
            movie_durs@.len() == j,
            rels@.len() == j,
            forall|i: int| 0 <= i < j ==> (#[trigger] media_durs@[i]) == sum_dur(ks[i].samples@) as u64,
            forall|i: int| 0 <= i < j ==> (#[trigger] movie_durs@[i]) == movie_dur(ks[i], mts) as u64,
            forall|i: int| 0 <= i < j ==> (#[trigger] rels@[i]) == rel(ks, i),
            pl@ == payload(ks.take(j as int)),
            max_dur == max_movie_dur(ks.take(j as int), mts) as u64,
            max_movie_dur(ks.take(j as int), mts) <= u64::MAX,
            max_id == max_track_id(sp.take(j as int)),
        decreases n - j,
    {
        let t = &media.tracks[idx[j]];
        assert(*t == ks[j as int]);
        let ghost ss = t.samples@;
        assert(tables_fit(ss));
        rels.push(pl.len() as u64);
        let ghost base = pl@;
        let mut sum: u64 = 0;
        let m = t.samples.len();
        let mut k: usize = 0;
        assert(ss.take(0) =~= Seq::<Sample>::empty());
        while k < m
            invariant
                m == ss.len() <= u32::MAX,
                ss == t.samples@,
                k <= m,
                sum == sum_dur(ss.take(k as int)),
                pl@ == base + samples_data(ss.take(k as int)),
            decreases m - k,
        {
            proof {
                lemma_sum_dur_bound(ss.take(k as int));
            }
            assert(ss.take(k + 1int).drop_last() =~= ss.take(k as int));
            let d: u64 = match t.samples[k].duration {
                Some(d) => d as u64,
                None => 0,
            };
            sum = sum + d;
            push_all(&mut pl, t.samples[k].data.as_slice());
            assert(pl@ =~= base + samples_data(ss.take(k + 1int)));
            k += 1;
        }
        assert(ss.take(m as int) =~= ss);
        assert(sum * (mts as u64) <= u64::MAX);
        let ts: u64 = if t.spec.timescale == 0 {
            1
        } else {
            t.spec.timescale as u64
        };
        let mv = sum * (mts as u64) / ts;
        assert(mv == movie_dur(ks[j as int], mts) as u64);
        media_durs.push(sum);
        movie_durs.push(mv);
        let ghost kj = ks.take(j + 1int);
        assert(kj.drop_last() =~= ks.take(j as int));
        assert(kj.last() == ks[j as int]);
        assert(pl@ =~= payload(kj));
        if mv > max_dur {
            max_dur = mv;
        }
        assert(sp.take(j + 1int).drop_last() =~= sp.take(j as int));
        assert(sp.take(j + 1int).last() == t.spec);
        if t.spec.track_id > max_id {
            max_id = t.spec.track_id;
        }
        j += 1;
    }
    assert(ks.take(n as int) =~= ks);
    assert(sp.take(n as int) =~= sp);
    let lay = Layout { idx, media_durs, movie_durs, rels, max_dur, next_id: max_id + 1, mts };
    (lay, pl)
}

impl ProgressiveMux {
    /// A muxer with the given `moov` placement.
    pub fn new(faststart: bool) -> (r: Self)
        ensures
            r.faststart == faststart,
    {
        ProgressiveMux { faststart }
    }

    /// The whole file: `ftyp`, then `moov` and `mdat` in the chosen order,
    /// opaque data tracks left out; a media without tracks is refused.
    pub fn package(&mut self, media: &Media) -> (r: Result<Vec<u8>, Error>)
        requires
            prog_fits(*media),
        ensures
            final(self).faststart == old(self).faststart,
            match spec_progressive(old(self).faststart, *media) {
                Ok(b) => r matches Ok(x) && x@ == b,
                Err(e) => r == Err::<Vec<u8>, Error>(e),
            },
    {
        if media.tracks.len() == 0 {
            return Err(Error::InvalidInput("cannot package a Media with no tracks"));
        }
        let ghost ks = kept(media.tracks@);
        let idx = kept_indices(media);
        match check_traks(media, &idx) {
            Ok(()) => {},
            Err(e) => {
                return Err(e);
            },
        }
        let ghost tvs = base_traks(ks)->Ok_0;
        let (lay, pl) = layout(media, idx);
        let m0 = match assemble_moov(media, &lay, Ghost(tvs), false, 0) {
            Ok(b) => b,
            Err(e) => {
                return Err(e);
            },
        };
        let off0: u128 = if self.faststart {
            40 + m0.len() as u128
        } else {
            40
        };
        let mut needs = false;
        let n = lay.rels.len();
        let mut j: usize = 0;
        while j < n
            invariant
                n == lay.rels@.len() == ks.len(),
                ks == kept(media.tracks@),
                j <= n,
                off0 <= 40 + u64::MAX,
                layout_ok(*media, lay.idx@, lay.media_durs@, lay.movie_durs@, lay.rels@, lay.max_dur, lay.next_id, lay.mts),
                needs == exists|i: int| 0 <= i < j && off0 + rel(ks, i) > u32::MAX,
            decreases n - j,
        {
            if off0 + lay.rels[j] as u128 > 0xFFFF_FFFF {
                needs = true;
            }
            j += 1;
        }
        let mv = if !needs {
            match assemble_moov(media, &lay, Ghost(tvs), false, off0) {
                Ok(b) => b,
                Err(e) => {
                    return Err(e);
                },
            }
        } else {
            let m1 = match assemble_moov(media, &lay, Ghost(tvs), true, 0) {
                Ok(b) => b,
                Err(e) => {
                    return Err(e);
                },
            };
            let off1: u128 = if self.faststart {
                40 + m1.len() as u128
            } else {
                40
            };
            match assemble_moov(media, &lay, Ghost(tvs), true, off1) {
                Ok(b) => b,
                Err(e) => {
                    return Err(e);
                },
            }
        };
        let mut out: Vec<u8> = Vec::new();
        push32(&mut out, 32);
        push_all(&mut out, &FTYP);
        push_all(&mut out, &ISOM);
        push32(&mut out, 512);
        push_all(&mut out, &ISOM);
        push_all(&mut out, &ISO2);
        push_all(&mut out, &MP41);
        push_all(&mut out, &AVC1);
        assert(out@ =~= prog_ftyp());
        let mut mdat: Vec<u8> = Vec::new();
        push32(&mut mdat, (pl.len() + 8) as u32);
        push_all(&mut mdat, &MDAT);
        push_all(&mut mdat, pl.as_slice());
        assert(mdat@ =~= mdat_bytes(pl@));
        if self.faststart {
            push_all(&mut out, mv.as_slice());
            push_all(&mut out, mdat.as_slice());
        } else {
            push_all(&mut out, mdat.as_slice());
            push_all(&mut out, mv.as_slice());
        }
        Ok(out)
    }
}

} // verus!
