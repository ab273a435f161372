//! Progressive (non-fragmented) MP4 demux: each `trak`'s full sample tables
//! (`stts`, `ctts`, `stss`, `stsz`, `stsc`, `stco`/`co64`, ISO/IEC
//! 14496-12:2015 §8.6–§8.7) give every sample's bytes, duration,
//! composition offset and sync flag.
use vstd::prelude::*;
use crate::bytes::{get32, get64, read32, read64};
use crate::init_segment::{StblChild, StblChildView, StcoView, StscEntry, StscView, StszView};
use crate::progressive::{CO64, CTTS, STSS, STTS};
use crate::box_types::box_head;
use crate::bytes::{be32, be64};
use crate::progressive::{
    all_sync, co64_bytes, cts_offsets, durations, has_cts, prog_stbl, rle, runs_box, runs_bytes, stss_bytes,
    stsc_view, stsz_view, stts_bytes, ctts_bytes, sync_numbers, tables_fit, u32s_bytes, dur_of, cts_of,
    samples_data,
};
use crate::error::Error;
use crate::init_segment::{spec_parse_moov, MovieBox, TrackBox, TrakView, MOOV};
use crate::ir::media::Media;
use crate::ir::sample::Sample;
use crate::ir::track::{Track, TrackSpec};
use crate::media::{find_top, find_top_box, first_data, refine_legacy_config, refined, sample_v, samples_v, track_spec_from_trak, trak_spec_ok, SampleV};

verus! {

/// The first child stored as raw bytes whose box type is `typ`.
pub open spec fn raw_child(cs: Seq<StblChildView>, typ: Seq<u8>) -> Option<Seq<u8>>
    decreases cs.len(),
{
    if cs.len() == 0 {
        None
    } else {
        match cs[0] {
            StblChildView::Opaque(b) => if b.len() >= 8 && b.subrange(4, 8) == typ {
                Some(b)
            } else {
                raw_child(cs.drop_first(), typ)
            },
            _ => raw_child(cs.drop_first(), typ),
        }
    }
}

pub open spec fn stsz_child(cs: Seq<StblChildView>) -> Option<StszView>
    decreases cs.len(),
{
    if cs.len() == 0 {
        None
    } else {
        match cs[0] {
            StblChildView::Stsz(v) => Some(v),
            _ => stsz_child(cs.drop_first()),
        }
    }
}

pub open spec fn stsc_child(cs: Seq<StblChildView>) -> Option<StscView>
    decreases cs.len(),
{
    if cs.len() == 0 {
        None
    } else {
        match cs[0] {
            StblChildView::Stsc(v) => Some(v),
            _ => stsc_child(cs.drop_first()),
        }
    }
}

pub open spec fn stco_child(cs: Seq<StblChildView>) -> Option<StcoView>
    decreases cs.len(),
{
    if cs.len() == 0 {
        None
    } else {
        match cs[0] {
            StblChildView::Stco(v) => Some(v),
            _ => stco_child(cs.drop_first()),
        }
    }
}

/// The `(count, value)` runs of an `stts`/`ctts` box: entry count at 12,
/// then 8 bytes per run.
pub open spec fn runs_of(b: Seq<u8>) -> Option<Seq<(u32, u32)>> {
    if b.len() < 16 {
        None
    } else {
        let n = get32(b, 12);
        if b.len() < 16 + 8 * (n as int) {
            None
        } else {
            Some(Seq::new(n as nat, |i: int| (get32(b, 16 + 8 * i), get32(b, 20 + 8 * i))))
        }
    }
}

/// The 32-bit entries of an `stss` box.
pub open spec fn u32s_of(b: Seq<u8>) -> Option<Seq<u32>> {
    if b.len() < 16 {
        None
    } else {
        let n = get32(b, 12);
        if b.len() < 16 + 4 * (n as int) {
            None
        } else {
            Some(Seq::new(n as nat, |i: int| get32(b, 16 + 4 * i)))
        }
    }
}

/// The 64-bit entries of a `co64` box.
pub open spec fn u64s_of(b: Seq<u8>) -> Option<Seq<u64>> {
    if b.len() < 16 {
        None
    } else {
        let n = get32(b, 12);
        if b.len() < 16 + 8 * (n as int) {
            None
        } else {
            Some(Seq::new(n as nat, |i: int| get64(b, 16 + 8 * i)))
        }
    }
}

/// Index of the first raw child of type `typ`.
fn find_raw(cs: &Vec<StblChild>, typ: &[u8; 4]) -> (r: Option<usize>)
    ensures
        match raw_child(cs@.map_values(|c: StblChild| c@), typ@) {
            Some(b) => r matches Some(i) && i < cs@.len() && (cs@[i as int] matches StblChild::Opaque(x) && x@ == b),
            None => r is None,
        },
{
    let ghost all = cs@.map_values(|c: StblChild| c@);
    let n = cs.len();
    let mut i: usize = 0;
    assert(all.skip(0) =~= all);
    while i < n
        invariant
            i <= n == cs@.len(),
            all == cs@.map_values(|c: StblChild| c@),
            raw_child(all, typ@) == raw_child(all.skip(i as int), typ@),
        decreases n - i,
    {
        assert(all.skip(i as int)[0] == cs@[i as int]@);
        assert(all.skip(i as int).drop_first() =~= all.skip(i + 1int));
        match &cs[i] {
            StblChild::Opaque(b) => {
                if b.len() >= 8 && b[4] == typ[0] && b[5] == typ[1] && b[6] == typ[2] && b[7] == typ[3] {
                    assert(b@.subrange(4, 8) =~= typ@);
                    return Some(i);
                }
                assert(b@.len() >= 8 ==> b@.subrange(4, 8)[0] == b@[4] && b@.subrange(4, 8)[1] == b@[5]
                    && b@.subrange(4, 8)[2] == b@[6] && b@.subrange(4, 8)[3] == b@[7]);
            },
            _ => {},
        }
        i += 1;
    }
    None
}

/// Index of the first child that `pick` selects (0 `stsz`, 1 `stsc`, 2 `stco`).
fn find_typed(cs: &Vec<StblChild>, pick: u8) -> (r: Option<usize>)
    requires
        pick < 3,
    ensures
        pick == 0 ==> match stsz_child(cs@.map_values(|c: StblChild| c@)) {
            Some(v) => r matches Some(i) && i < cs@.len() && (cs@[i as int] matches StblChild::Stsz(x) && x@ == v),
            None => r is None,
        },
        pick == 1 ==> match stsc_child(cs@.map_values(|c: StblChild| c@)) {
            Some(v) => r matches Some(i) && i < cs@.len() && (cs@[i as int] matches StblChild::Stsc(x) && x@ == v),
            None => r is None,
        },
        pick == 2 ==> match stco_child(cs@.map_values(|c: StblChild| c@)) {
            Some(v) => r matches Some(i) && i < cs@.len() && (cs@[i as int] matches StblChild::Stco(x) && x@ == v),
            None => r is None,
        },
{
    let ghost all = cs@.map_values(|c: StblChild| c@);
    let n = cs.len();
    let mut i: usize = 0;
    assert(all.skip(0) =~= all);
    while i < n
        invariant
            i <= n == cs@.len(),
            pick < 3,
            all == cs@.map_values(|c: StblChild| c@),
            pick == 0 ==> stsz_child(all) == stsz_child(all.skip(i as int)),
            pick == 1 ==> stsc_child(all) == stsc_child(all.skip(i as int)),
            pick == 2 ==> stco_child(all) == stco_child(all.skip(i as int)),
        decreases n - i,
    {
        assert(all.skip(i as int)[0] == cs@[i as int]@);
        assert(all.skip(i as int).drop_first() =~= all.skip(i + 1int));
        let hit = match &cs[i] {
            StblChild::Stsz(_) => pick == 0,
            StblChild::Stsc(_) => pick == 1,
            StblChild::Stco(_) => pick == 2,
            _ => false,
        };
        if hit {
            return Some(i);
        }
        i += 1;
    }
    None
}

/// Read the runs of an `stts`/`ctts` box.
fn read_runs(b: &[u8]) -> (r: Option<Vec<(u32, u32)>>)
    ensures
        match runs_of(b@) {
            Some(v) => r matches Some(x) && x@ == v,
            None => r is None,
        },
{
    if b.len() < 16 {
        return None;
    }
    let n = read32(b, 12);
    if ((b.len() - 16) as u64) / 8 < n as u64 {
        return None;
    }
    let mut out: Vec<(u32, u32)> = Vec::new();
    let mut i: usize = 0;
    while i < n as usize
        invariant
            16 + 8 * (n as int) <= b@.len(),
            n == get32(b@, 12),
            b@.len() <= usize::MAX,
            i <= n,
            out@ =~= Seq::new(i as nat, |k: int| (get32(b@, 16 + 8 * k), get32(b@, 20 + 8 * k))),
        decreases n - i,
    {
        let c = read32(b, 16 + 8 * i);
        let v = read32(b, 20 + 8 * i);
        out.push((c, v));
        i += 1;
    }
    Some(out)
}

/// Read the 32-bit entries of an `stss` box.
fn read_u32s(b: &[u8]) -> (r: Option<Vec<u32>>)
    ensures
        match u32s_of(b@) {
            Some(v) => r matches Some(x) && x@ == v,
            None => r is None,
        },
{
    if b.len() < 16 {
        return None;
    }
    let n = read32(b, 12);
    if ((b.len() - 16) as u64) / 4 < n as u64 {
        return None;
    }
    let mut out: Vec<u32> = Vec::new();
    let mut i: usize = 0;
    while i < n as usize
        invariant
            16 + 4 * (n as int) <= b@.len(),
            n == get32(b@, 12),
            b@.len() <= usize::MAX,
            i <= n,
            out@ =~= Seq::new(i as nat, |k: int| get32(b@, 16 + 4 * k)),
        decreases n - i,
    {
        out.push(read32(b, 16 + 4 * i));
        i += 1;
    }
    Some(out)
}

/// Read the 64-bit entries of a `co64` box.
fn read_u64s(b: &[u8]) -> (r: Option<Vec<u64>>)
    ensures
        match u64s_of(b@) {
            Some(v) => r matches Some(x) && x@ == v,
            None => r is None,
        },
{
    if b.len() < 16 {
        return None;
    }
    let n = read32(b, 12);
    if ((b.len() - 16) as u64) / 8 < n as u64 {
        return None;
    }
    let mut out: Vec<u64> = Vec::new();
    let mut i: usize = 0;
    while i < n as usize
        invariant
            16 + 8 * (n as int) <= b@.len(),
            n == get32(b@, 12),
            b@.len() <= usize::MAX,
            i <= n,
            out@ =~= Seq::new(i as nat, |k: int| get64(b@, 16 + 8 * k)),
        decreases n - i,
    {
        out.push(read64(b, 16 + 8 * i));
        i += 1;
    }
    Some(out)
}

// ---------------------------------------------------------------------------
// Sample tables to samples
// ---------------------------------------------------------------------------

/// One past the last chunk (1-based) that `stsc` entry `k` covers.
pub open spec fn stsc_end(es: Seq<StscEntry>, k: int, n: nat) -> int {
    if k + 1 < es.len() {
        es[k + 1].first_chunk as int
    } else {
        n + 1int
    }
}

/// Samples per chunk for chunk `c` (1-based) after entries `0..i`: the
/// last entry whose range holds `c`, or 0.
pub open spec fn spc_at(es: Seq<StscEntry>, n: nat, i: nat, c: int) -> u32
    decreases i,
{
    if i == 0 || i > es.len() {
        0
    } else {
        let k = i - 1;
        if es[k].first_chunk <= c < stsc_end(es, k, n) {
            es[k].samples_per_chunk
        } else {
            spc_at(es, n, (i - 1) as nat, c)
        }
    }
}

/// Samples per chunk for each of `n` chunks.
pub open spec fn stsc_table(es: Seq<StscEntry>, n: nat) -> Seq<u32> {
    Seq::new(n, |j: int| spc_at(es, n, es.len(), j + 1))
}

fn expand_stsc(es: &Vec<StscEntry>, n: usize) -> (r: Vec<u32>)
    ensures
        r@ == stsc_table(es@, n as nat),
{
    let mut t: Vec<u32> = Vec::new();
    let mut j: usize = 0;
    while j < n
        invariant
            j <= n,
            t@.len() == j,
            forall|i: int| 0 <= i < j ==> t@[i] == 0,
        decreases n - j,
    {
        t.push(0);
        j += 1;
    }
    let m = es.len();
    let mut k: usize = 0;
    while k < m
        invariant
            k <= m == es@.len(),
            t@.len() == n,
            forall|i: int| 0 <= i < n ==> t@[i] == spc_at(es@, n as nat, k as nat, i + 1),
        decreases m - k,
    {
        let first = es[k].first_chunk as u64;
        let lo: u64 = if first >= 1 { first - 1 } else { 0 };
        let mut hi: u64 = if k + 1 < m {
            let f = es[k + 1].first_chunk as u64;
            if f >= 1 { f - 1 } else { 0 }
        } else {
            n as u64
        };
        if hi > n as u64 {
            hi = n as u64;
        }
        let v = es[k].samples_per_chunk;
        let mut c = lo;
        while c < hi
            invariant
                t@.len() == n,
                hi <= n,
                c >= lo,
                c <= hi || c == lo,
                forall|i: int|
                    0 <= i < n ==> t@[i] == (if lo <= i < c { v } else { spc_at(es@, n as nat, k as nat, i + 1) }),
            decreases hi - c,
        {
            t.set(c as usize, v);
            c += 1;
        }
        assert forall|i: int| 0 <= i < n implies t@[i] == spc_at(es@, n as nat, (k + 1) as nat, i + 1) by {
            let e = stsc_end(es@, k as int, n as nat);
            let f = es@[k as int].first_chunk as int;
            assert(lo as int == if f >= 1 { f - 1 } else { 0 });
            if k + 1 < m {
                assert(e == es@[k + 1].first_chunk as int);
            } else {
                assert(e == n + 1);
            }
            assert((f <= i + 1 && i + 1 < e) <==> (lo <= i && i < hi));
            assert((lo <= i && i < c) <==> (lo <= i && i < hi));
        }
        k += 1;
    }
    assert(t@ =~= stsc_table(es@, n as nat));
    t
}

/// The size of sample `idx`: the common size, or its own entry.
pub open spec fn size_at(z: StszView, idx: int) -> Option<nat> {
    if z.2 != 0 {
        Some(z.2 as nat)
    } else if 0 <= idx < z.3.len() {
        Some(z.3[idx] as nat)
    } else {
        None
    }
}

/// `count` more samples of a chunk, the next at `cursor`, appended to `acc`
/// as `(start, size)`; a start beyond `usize` or a missing size fails.
pub open spec fn chunk_samples(cursor: int, count: nat, z: StszView, acc: Seq<(int, nat)>) -> Option<Seq<(int, nat)>>
    decreases count,
{
    if count == 0 {
        Some(acc)
    } else {
        match size_at(z, acc.len() as int) {
            None => None,
            Some(sz) => if cursor > usize::MAX {
                None
            } else {
                chunk_samples(cursor + sz, (count - 1) as nat, z, acc.push((cursor, sz)))
            },
        }
    }
}

/// Where each sample of chunks `0..c` lies.
pub open spec fn chunk_layout(offs: Seq<u64>, spc: Seq<u32>, z: StszView, c: nat) -> Option<Seq<(int, nat)>>
    decreases c,
{
    if c == 0 {
        Some(Seq::empty())
    } else {
        match chunk_layout(offs, spc, z, (c - 1) as nat) {
            None => None,
            Some(acc) => chunk_samples(offs[c - 1] as int, spc[c - 1] as nat, z, acc),
        }
    }
}

pub open spec fn lay_view(v: Seq<(usize, u32)>) -> Seq<(int, nat)> {
    v.map_values(|p: (usize, u32)| (p.0 as int, p.1 as nat))
}

proof fn lemma_layout_none(offs: Seq<u64>, spc: Seq<u32>, z: StszView, c: nat, n: nat)
    requires
        c <= n,
        chunk_layout(offs, spc, z, c) is None,
    ensures
        chunk_layout(offs, spc, z, n) is None,
    decreases n - c,
{
    if c < n {
        lemma_layout_none(offs, spc, z, c + 1, n);
    }
}

fn layout_of(offs: &Vec<u64>, spc: &Vec<u32>, z: &crate::init_segment::SampleSizeBox) -> (r: Option<Vec<(usize, u32)>>)
    requires
        spc@.len() == offs@.len(),
    ensures
        match chunk_layout(offs@, spc@, z@, offs@.len()) {
            Some(l) => r matches Some(x) && lay_view(x@) == l,
            None => r is None,
        },
{
    let n = offs.len();
    let mut out: Vec<(usize, u32)> = Vec::new();
    let mut c: usize = 0;
    assert(lay_view(out@) =~= Seq::<(int, nat)>::empty());
    while c < n
        invariant
            c <= n == offs@.len() == spc@.len(),
            chunk_layout(offs@, spc@, z@, c as nat) == Some(lay_view(out@)),
        decreases n - c,
    {
        let ghost acc0 = lay_view(out@);
        let count = spc[c];
        let mut cursor: u128 = offs[c] as u128;
        let mut k: u32 = 0;
        while k < count
            invariant
                k <= count == spc@[c as int],
                c < n == offs@.len() == spc@.len(),
                chunk_layout(offs@, spc@, z@, c as nat) == Some(acc0),
                cursor <= u64::MAX + (k as int) * 0xFFFF_FFFF,
                chunk_samples(offs@[c as int] as int, count as nat, z@, acc0) == chunk_samples(
                    cursor as int,
                    (count - k) as nat,
                    z@,
                    lay_view(out@),
                ),
            decreases count - k,
        {
            let idx = out.len();
            let sz: u32 = if z.sample_size != 0 {
                z.sample_size
            } else if idx < z.entries.len() {
                z.entries[idx]
            } else {
                proof {
                    lemma_layout_none(offs@, spc@, z@, (c + 1) as nat, n as nat);
                }
                return None;
            };
            if cursor > usize::MAX as u128 {
                proof {
                    lemma_layout_none(offs@, spc@, z@, (c + 1) as nat, n as nat);
                }
                return None;
            }
            let ghost before = lay_view(out@);
            out.push((cursor as usize, sz));
            assert(lay_view(out@) =~= before.push((cursor as int, sz as nat)));
            cursor = cursor + sz as u128;
            k += 1;
        }
        assert(chunk_layout(offs@, spc@, z@, (c + 1) as nat) == chunk_samples(offs@[c as int] as int, count as nat, z@, acc0));
        c += 1;
    }
    Some(out)
}

/// Each run's value repeated its count of times, run after run.
pub open spec fn expand_runs(es: Seq<(u32, u32)>) -> Seq<u32>
    decreases es.len(),
{
    if es.len() == 0 {
        Seq::empty()
    } else {
        expand_runs(es.drop_last()) + Seq::new(es.last().0 as nat, |i: int| es.last().1)
    }
}

fn expand(es: &Vec<(u32, u32)>) -> (r: Vec<u32>)
    ensures
        r@ == expand_runs(es@),
{
    let mut out: Vec<u32> = Vec::new();
    let m = es.len();
    let mut k: usize = 0;
    while k < m
        invariant
            k <= m == es@.len(),
            out@ == expand_runs(es@.take(k as int)),
        decreases m - k,
    {
        assert(es@.take(k + 1int).drop_last() =~= es@.take(k as int));
        let (cnt, v) = es[k];
        let ghost base = out@;
        let mut i: u32 = 0;
        while i < cnt
            invariant
                i <= cnt,
                out@ =~= base + Seq::new(i as nat, |j: int| v),
            decreases cnt - i,
        {
            out.push(v);
            i += 1;
        }
        k += 1;
    }
    assert(es@.take(m as int) =~= es@);
    out
}

/// The sync flags: every sample when there is no `stss`, else the samples
/// whose 1-based numbers it lists.
pub open spec fn sync_flags(stss: Option<Seq<u32>>, total: nat) -> Seq<bool> {
    match stss {
        None => Seq::new(total, |i: int| true),
        Some(es) => Seq::new(total, |i: int| exists|k: int| 0 <= k < es.len() && es[k] as int == i + 1),
    }
}

fn flags_of(stss: &Option<Vec<u32>>, total: usize) -> (r: Vec<bool>)
    ensures
        r@ == sync_flags(
            match stss {
                Some(v) => Some(v@),
                None => None,
            },
            total as nat,
        ),
{
    let mut out: Vec<bool> = Vec::new();
    let all = stss.is_none();
    let mut i: usize = 0;
    while i < total
        invariant
            i <= total,
            all == stss.is_none(),
            out@ =~= Seq::new(i as nat, |j: int| all),
        decreases total - i,
    {
        out.push(all);
        i += 1;
    }
    match stss {
        None => out,
        Some(es) => {
            let m = es.len();
            let mut k: usize = 0;
            while k < m
                invariant
                    k <= m == es@.len(),
                    out@.len() == total,
                    forall|j: int| 0 <= j < total ==> out@[j] == exists|q: int| 0 <= q < k && es@[q] as int == j + 1,
                decreases m - k,
            {
                let e = es[k] as usize;
                if e >= 1 && e <= total {
                    out.set(e - 1, true);
                }
                k += 1;
            }
            assert(out@ =~= sync_flags(Some(es@), total as nat));
            out
        },
    }
}

/// The chunk offsets: `co64` when present, else `stco`.
pub open spec fn chunk_offsets_of(cs: Seq<StblChildView>) -> Option<Seq<u64>> {
    match raw_child(cs, CO64@) {
        Some(b) => u64s_of(b),
        None => match stco_child(cs) {
            Some(v) => Some(v.2.map_values(|o: u32| o as u64)),
            None => None,
        },
    }
}

/// Samples `i..` from their byte ranges, durations, composition offsets
/// and sync flags; decode times run from `next`.
pub open spec fn build_samples(
    file: Seq<u8>,
    lay: Seq<(int, nat)>,
    durs: Seq<u32>,
    ctos: Seq<u32>,
    flags: Seq<bool>,
    i: nat,
    next: i64,
    acc: Seq<SampleV>,
) -> Option<Seq<SampleV>>
    decreases lay.len() - i,
{
    if i >= lay.len() {
        Some(acc)
    } else {
        let st = lay[i as int].0;
        let sz = lay[i as int].1;
        if st + sz > file.len() {
            None
        } else {
            build_samples(
                file,
                lay,
                durs,
                ctos,
                flags,
                i + 1,
                (next + durs[i as int]) as i64,
                acc.push(
                    (
                        file.subrange(st, st + sz),
                        Some(next),
                        Some((next + (ctos[i as int] as i32)) as i64),
                        Some(durs[i as int]),
                        flags[i as int],
                        None,
                    ),
                ),
            )
        }
    }
}

/// The composition offsets: all 0 without `ctts`.
pub open spec fn ctts_offsets(cs: Seq<StblChildView>, total: nat) -> Option<Seq<u32>> {
    match raw_child(cs, CTTS@) {
        None => Some(Seq::new(total, |i: int| 0u32)),
        Some(b) => match runs_of(b) {
            None => None,
            Some(r) => if expand_runs(r).len() == total {
                Some(expand_runs(r))
            } else {
                None
            },
        },
    }
}

/// The `stss` entries when there is an `stss` box (`Some(None)` when there
/// is none, `None` when it is malformed).
pub open spec fn stss_entries(cs: Seq<StblChildView>) -> Option<Option<Seq<u32>>> {
    match raw_child(cs, STSS@) {
        None => Some(None),
        Some(b) => match u32s_of(b) {
            None => None,
            Some(v) => Some(Some(v)),
        },
    }
}

/// The samples that the sample table `cs` describes within `file`, or
/// `None` when a table is missing or inconsistent or a sample lies outside
/// the file.
pub open spec fn stbl_samples(file: Seq<u8>, cs: Seq<StblChildView>) -> Option<Seq<SampleV>> {
    match (raw_child(cs, STTS@), stsz_child(cs), stsc_child(cs), chunk_offsets_of(cs)) {
        (Some(tb), Some(z), Some(sc), Some(offs)) => match chunk_layout(offs, stsc_table(sc.2, offs.len()), z, offs.len()) {
            None => None,
            Some(lay) => match runs_of(tb) {
                None => None,
                Some(sr) => if expand_runs(sr).len() != lay.len() {
                    None
                } else {
                    match (ctts_offsets(cs, lay.len()), stss_entries(cs)) {
                        (Some(ctos), Some(ss)) => build_samples(
                            file,
                            lay,
                            expand_runs(sr),
                            ctos,
                            sync_flags(ss, lay.len()),
                            0,
                            0,
                            Seq::empty(),
                        ),
                        _ => None,
                    }
                },
            },
        },
        _ => None,
    }
}

/// The samples of a `trak`.
pub open spec fn trak_samples(file: Seq<u8>, t: TrakView) -> Option<Seq<SampleV>> {
    match t.2 {
        Some(md) => match md.2 {
            Some(mi) => match mi.3 {
                Some(cs) => stbl_samples(file, cs),
                None => None,
            },
            None => None,
        },
        None => None,
    }
}

fn samples_build(
    file: &[u8],
    lay: &Vec<(usize, u32)>,
    durs: &Vec<u32>,
    ctos: &Vec<u32>,
    flags: &Vec<bool>,
) -> (r: Option<Vec<Sample>>)
    requires
        durs@.len() == lay@.len(),
        ctos@.len() == lay@.len(),
        flags@.len() == lay@.len(),
    ensures
        match build_samples(file@, lay_view(lay@), durs@, ctos@, flags@, 0, 0, Seq::empty()) {
            Some(v) => r matches Some(x) && samples_v(x@) == v,
            None => r is None,
        },
{
    let ghost lv = lay_view(lay@);
    let n = lay.len();
    let mut out: Vec<Sample> = Vec::new();
    let mut next: i64 = 0;
    let mut i: usize = 0;
    assert(samples_v(out@) =~= Seq::<SampleV>::empty());
    while i < n
        invariant
            i <= n == lay@.len() == durs@.len() == ctos@.len() == flags@.len(),
            lv == lay_view(lay@),
            build_samples(file@, lv, durs@, ctos@, flags@, 0, 0, Seq::empty()) == build_samples(
                file@,
                lv,
                durs@,
                ctos@,
                flags@,
                i as nat,
                next,
                samples_v(out@),
            ),
        decreases n - i,
    {
        let (st, sz) = lay[i];
        assert(lv[i as int] == (st as int, sz as nat));
        if st as u128 + sz as u128 > file.len() as u128 {
            return None;
        }
        let end = st + sz as usize;
        let data = crate::bytes::copy_range(file, st, end);
        let d = durs[i];
        #[verifier::truncate]
        let c = ctos[i] as i32;
        #[verifier::truncate]
        let pts = (next as i128 + c as i128) as i64;
        let ghost before = samples_v(out@);
        let smp = Sample { data, dts: Some(next), pts: Some(pts), duration: Some(d), is_sync: flags[i], source_timing: None };
        out.push(smp);
        assert(samples_v(out@) =~= before.push(sample_v(smp)));
        assert(data@ == file@.subrange(st as int, st + sz));
        #[verifier::truncate]
        let nx = (next as i128 + d as i128) as i64;
        next = nx;
        i += 1;
    }
    Some(out)
}

fn stbl_samples_exec(file: &[u8], cs: &Vec<StblChild>) -> (r: Option<Vec<Sample>>)
    ensures
        match stbl_samples(file@, cs@.map_values(|c: StblChild| c@)) {
            Some(v) => r matches Some(x) && samples_v(x@) == v,
            None => r is None,
        },
{
    let ghost cv = cs@.map_values(|c: StblChild| c@);
    let tb = match find_raw(cs, &STTS) {
        Some(i) => match &cs[i] {
            StblChild::Opaque(b) => b,
            _ => {
                return None;
            },
        },
        None => {
            return None;
        },
    };
    let z = match find_typed(cs, 0) {
        Some(i) => match &cs[i] {
            StblChild::Stsz(b) => b,
            _ => {
                return None;
            },
        },
        None => {
            return None;
        },
    };
    let sc = match find_typed(cs, 1) {
        Some(i) => match &cs[i] {
            StblChild::Stsc(b) => b,
            _ => {
                return None;
            },
        },
        None => {
            return None;
        },
    };
    let offs: Vec<u64> = match find_raw(cs, &CO64) {
        Some(i) => match &cs[i] {
            StblChild::Opaque(b) => match read_u64s(b.as_slice()) {
                Some(v) => v,
                None => {
                    return None;
                },
            },
            _ => {
                return None;
            },
        },
        None => match find_typed(cs, 2) {
            Some(i) => match &cs[i] {
                StblChild::Stco(b) => {
                    let mut v: Vec<u64> = Vec::new();
                    let mut k: usize = 0;
                    while k < b.entries.len()
                        invariant
                            k <= b.entries@.len(),
                            v@ =~= b.entries@.take(k as int).map_values(|o: u32| o as u64),
                        decreases b.entries@.len() - k,
                    {
                        v.push(b.entries[k] as u64);
                        k += 1;
                    }
                    assert(b.entries@.take(k as int) =~= b.entries@);
                    v
                },
                _ => {
                    return None;
                },
            },
            None => {
                return None;
            },
        },
    };
    assert(chunk_offsets_of(cv) == Some(offs@));
    let spc = expand_stsc(&sc.entries, offs.len());
    let lay = match layout_of(&offs, &spc, z) {
        Some(l) => l,
        None => {
            return None;
        },
    };
    let total = lay.len();
    let sr = match read_runs(tb.as_slice()) {
        Some(r) => r,
        None => {
            return None;
        },
    };
    let durs = expand(&sr);
    if durs.len() != total {
        return None;
    }
    let ctos: Vec<u32> = match find_raw(cs, &CTTS) {
        None => {
            let mut z0: Vec<u32> = Vec::new();
            let mut k: usize = 0;
            while k < total
                invariant
                    k <= total,
                    z0@ =~= Seq::new(k as nat, |i: int| 0u32),
                decreases total - k,
            {
                z0.push(0);
                k += 1;
            }
            z0
        },
        Some(i) => match &cs[i] {
            StblChild::Opaque(b) => match read_runs(b.as_slice()) {
                None => {
                    return None;
                },
                Some(cr) => {
                    let e = expand(&cr);
                    if e.len() != total {
                        return None;
                    }
                    e
                },
            },
            _ => {
                return None;
            },
        },
    };
    assert(ctts_offsets(cv, total as nat) == Some(ctos@));
    let stss: Option<Vec<u32>> = match find_raw(cs, &STSS) {
        None => None,
        Some(i) => match &cs[i] {
            StblChild::Opaque(b) => match read_u32s(b.as_slice()) {
                None => {
                    return None;
                },
                Some(v) => Some(v),
            },
            _ => {
                return None;
            },
        },
    };
    let flags = flags_of(&stss, total);
    samples_build(file, &lay, &durs, &ctos, &flags)
}

fn trak_samples_exec(file: &[u8], trak: &TrackBox) -> (r: Option<Vec<Sample>>)
    ensures
        match trak_samples(file@, trak@) {
            Some(v) => r matches Some(x) && samples_v(x@) == v,
            None => r is None,
        },
{
    match &trak.mdia {
        Some(md) => match &md.minf {
            Some(mi) => match &mi.stbl {
                Some(st) => stbl_samples_exec(file, &st.children),
                None => None,
            },
            None => None,
        },
        None => None,
    }
}

/// `tr` is the track read from `t`: its spec, its configuration refined
/// from its first sample, and its samples, anchored at 0.
pub open spec fn trak_track(file: Seq<u8>, t: TrakView, tr: Track) -> bool {
    exists|s: TrackSpec|
        #![trigger trak_spec_ok(t, Ok::<TrackSpec, Error>(s))]
        trak_spec_ok(t, Ok::<TrackSpec, Error>(s)) && trak_samples(file, t) == Some(samples_v(tr.samples@))
            && tr.spec == (TrackSpec { config: tr.spec.config, ..s }) && refined(
            s.config,
            tr.spec.config,
            first_data(samples_v(tr.samples@)),
        ) && tr.start_decode_time == 0 && tr.encryption is None
}

/// `t` is left out: its spec or its samples cannot be read.
pub open spec fn trak_skipped(file: Seq<u8>, t: TrakView) -> bool {
    (exists|x: Error| #![trigger trak_spec_ok(t, Err::<TrackSpec, Error>(x))] trak_spec_ok(t, Err::<TrackSpec, Error>(x)))
        || trak_samples(file, t) is None
}

/// `tracks` are the readable `traks`, in order.
pub open spec fn tracks_read(file: Seq<u8>, traks: Seq<TrakView>, tracks: Seq<Track>) -> bool
    decreases traks.len(),
{
    if traks.len() == 0 {
        tracks.len() == 0
    } else {
        ||| trak_skipped(file, traks.last()) && tracks_read(file, traks.drop_last(), tracks)
        ||| tracks.len() > 0 && trak_track(file, traks.last(), tracks.last()) && tracks_read(
            file,
            traks.drop_last(),
            tracks.drop_last(),
        )
    }
}

/// Demux a progressive MP4 file into a [`Media`].
#[derive(Debug, Clone)]
pub struct ProgressiveDemux {}

impl Default for ProgressiveDemux {
    fn default() -> (r: Self) {
        ProgressiveDemux {}
    }
}

impl ProgressiveDemux {
    pub fn new() -> (r: Self) {
        ProgressiveDemux {}
    }

    /// The top-level `moov` and, per `trak`, its track and samples; a
    /// `trak` whose spec or sample tables cannot be read is left out.
    pub fn unpackage(&mut self, input: &[u8]) -> (r: Result<Media, Error>)
        ensures
            match find_top(input@, 0, MOOV@) {
                None => r == Err::<Media, Error>(Error::UnexpectedBox { expected: "moov" }),
                Some((s, e)) => match spec_parse_moov(input@.subrange(s, e)) {
                    Err(x) => r == Err::<Media, Error>(x),
                    Ok(mv) => r matches Ok(m) && m.movie_timescale == mv.0.4 && m.pcr@.len() == 0
                        && tracks_read(input@, mv.1, m.tracks@),
                },
            },
    {
        let mb = match find_top_box(input, &MOOV) {
            Some(b) => b,
            None => {
                return Err(Error::UnexpectedBox { expected: "moov" });
            },
        };
        let moov = match MovieBox::parse(mb) {
            Ok(m) => m,
            Err(e) => {
                return Err(e);
            },
        };
        let ghost tv = moov@.1;
        let mut tracks: Vec<Track> = Vec::new();
        let n = moov.tracks.len();
        let mut i: usize = 0;
        assert(tv.take(0) =~= Seq::<TrakView>::empty());
        while i < n
            invariant
                i <= n == moov.tracks@.len(),
                tv == moov@.1,
                tracks_read(input@, tv.take(i as int), tracks@),
            decreases n - i,
        {
            let trak = &moov.tracks[i];
            assert(tv[i as int] == trak@);
            assert(tv.take(i + 1int).drop_last() =~= tv.take(i as int));
            assert(tv.take(i + 1int).last() == trak@);
            let spec = track_spec_from_trak(trak);
            match spec {
                Err(x) => {
                    assert(trak_spec_ok(trak@, Err::<TrackSpec, Error>(x)));
                },
                Ok(sp) => {
                    match trak_samples_exec(input, trak) {
                        None => {},
                        Some(samples) => {
                            let ghost s0 = sp;
                            let TrackSpec { track_id, timescale, config, source_pid, es_info_descriptors } = sp;
                            let config = refine_legacy_config(config, &samples);
                            let t = Track::new(TrackSpec { track_id, timescale, config, source_pid, es_info_descriptors }, samples);
                            assert(trak_spec_ok(trak@, Ok::<TrackSpec, Error>(s0)));
                            assert(t.spec == (TrackSpec { config: t.spec.config, ..s0 }));
                            let ghost before = tracks@;
                            tracks.push(t);
                            assert(tracks@.drop_last() =~= before);
                        },
                    }
                },
            }
            i += 1;
        }
        assert(tv.take(n as int) =~= tv);
        Ok(Media::new(tracks, moov.mvhd.timescale))
    }
}

// ---------------------------------------------------------------------------
// Reading back a written sample table
// ---------------------------------------------------------------------------

proof fn lemma_runs_bytes_at(es: Seq<(u32, u32)>, i: int)
    requires
        0 <= i < es.len(),
    ensures
        runs_bytes(es).len() == 8 * es.len(),
        runs_bytes(es).subrange(8 * i, 8 * i + 4) == be32(es[i].0),
        runs_bytes(es).subrange(8 * i + 4, 8 * i + 8) == be32(es[i].1),
    decreases es.len(),
{
    lemma_runs_bytes_len(es);
    let p = es.drop_last();
    lemma_runs_bytes_len(p);
    let b = runs_bytes(es);
    assert(b == runs_bytes(p) + be32(es.last().0) + be32(es.last().1));
    if i < es.len() - 1 {
        lemma_runs_bytes_at(p, i);
        assert(b.subrange(8 * i, 8 * i + 4) =~= runs_bytes(p).subrange(8 * i, 8 * i + 4));
        assert(b.subrange(8 * i + 4, 8 * i + 8) =~= runs_bytes(p).subrange(8 * i + 4, 8 * i + 8));
    } else {
        assert(b.subrange(8 * i, 8 * i + 4) =~= be32(es.last().0));
        assert(b.subrange(8 * i + 4, 8 * i + 8) =~= be32(es.last().1));
    }
}

proof fn lemma_runs_bytes_len(es: Seq<(u32, u32)>)
    ensures
        runs_bytes(es).len() == 8 * es.len(),
    decreases es.len(),
{
    if es.len() > 0 {
        lemma_runs_bytes_len(es.drop_last());
    }
}

/// A box of runs reads back as its runs.
pub proof fn lemma_runs_round_trip(typ: Seq<u8>, version: u8, es: Seq<(u32, u32)>)
    requires
        typ.len() == 4,
        16 + 8 * es.len() <= u32::MAX,
    ensures
        runs_of(runs_box(typ, version, es)) == Some(es),
{
    let b = runs_box(typ, version, es);
    lemma_runs_bytes_len(es);
    let n = es.len() as u32;
    assert(b.subrange(12, 16) =~= be32(n));
    crate::bytes::lemma_be32_get32(n, b, 12);
    let r = runs_bytes(es);
    assert(b =~= b.subrange(0, 16) + r);
    assert forall|i: int| 0 <= i < es.len() implies (get32(b, 16 + 8 * i), get32(b, 20 + 8 * i)) == es[i] by {
        lemma_runs_bytes_at(es, i);
        assert(b.subrange(16 + 8 * i, 20 + 8 * i) =~= r.subrange(8 * i, 8 * i + 4));
        assert(b.subrange(20 + 8 * i, 24 + 8 * i) =~= r.subrange(8 * i + 4, 8 * i + 8));
        crate::bytes::lemma_be32_get32(es[i].0, b, 16 + 8 * i);
        crate::bytes::lemma_be32_get32(es[i].1, b, 20 + 8 * i);
    }
    assert(runs_of(b)->0 =~= es);
}

/// Expanding the run-length coding of `v` gives `v` back.
pub proof fn lemma_expand_rle(v: Seq<u32>)
    requires
        v.len() <= u32::MAX,
    ensures
        expand_runs(rle(v)) == v,
    decreases v.len(),
{
    if v.len() > 0 {
        let p = v.drop_last();
        let x = v.last();
        lemma_expand_rle(p);
        crate::progressive::lemma_rle_bounds(p);
        let r = rle(p);
        if r.len() > 0 && r.last().1 == x {
            let c = r.last().0;
            let r2 = r.update(r.len() - 1, ((c + 1) as u32, x));
            assert(r2.drop_last() =~= r.drop_last());
            assert(Seq::new((c + 1) as nat, |i: int| x) =~= Seq::new(c as nat, |i: int| x).push(x));
            assert(expand_runs(r) == expand_runs(r.drop_last()) + Seq::new(c as nat, |i: int| x));
            assert(expand_runs(r2) =~= expand_runs(r) + seq![x]);
        } else {
            let r2 = r.push((1u32, x));
            assert(r2.drop_last() =~= r);
            assert(Seq::new(1, |i: int| x) =~= seq![x]);
        }
        assert(p + seq![x] =~= v);
    }
}

proof fn lemma_finders_concat(a: Seq<StblChildView>, b: Seq<StblChildView>, t: Seq<u8>)
    ensures
        raw_child(a + b, t) == (if raw_child(a, t) is Some { raw_child(a, t) } else { raw_child(b, t) }),
        stsz_child(a + b) == (if stsz_child(a) is Some { stsz_child(a) } else { stsz_child(b) }),
        stsc_child(a + b) == (if stsc_child(a) is Some { stsc_child(a) } else { stsc_child(b) }),
        stco_child(a + b) == (if stco_child(a) is Some { stco_child(a) } else { stco_child(b) }),
    decreases a.len(),
{
    if a.len() == 0 {
        assert(a + b =~= b);
    } else {
        assert((a + b).drop_first() =~= a.drop_first() + b);
        assert((a + b)[0] == a[0]);
        lemma_finders_concat(a.drop_first(), b, t);
    }
}

/// The finders on one child.
proof fn lemma_finders_one(c: StblChildView, t: Seq<u8>)
    ensures
        raw_child(seq![c], t) == (match c {
            StblChildView::Opaque(b) => if b.len() >= 8 && b.subrange(4, 8) == t { Some(b) } else { None },
            _ => None,
        }),
        stsz_child(seq![c]) == (match c {
            StblChildView::Stsz(v) => Some(v),
            _ => None,
        }),
        stsc_child(seq![c]) == (match c {
            StblChildView::Stsc(v) => Some(v),
            _ => None,
        }),
        stco_child(seq![c]) == (match c {
            StblChildView::Stco(v) => Some(v),
            _ => None,
        }),
{
    let e = Seq::<StblChildView>::empty();
    assert(seq![c].drop_first() =~= e);
    assert(raw_child(e, t) is None);
    assert(stsz_child(e) is None);
    assert(stsc_child(e) is None);
    assert(stco_child(e) is None);
    assert(seq![c][0] == c);
}

proof fn lemma_head_type(len: nat, t: Seq<u8>, rest: Seq<u8>)
    requires
        t.len() == 4,
    ensures
        (box_head(len, t) + rest).len() >= 8,
        (box_head(len, t) + rest).subrange(4, 8) == t,
{
    assert((box_head(len, t) + rest).subrange(4, 8) =~= t);
}

proof fn lemma_table_types()
    ensures
        STTS@.len() == 4 && CTTS@.len() == 4 && STSS@.len() == 4 && CO64@.len() == 4,
        STTS@ != CTTS@ && STTS@ != STSS@ && STTS@ != CO64@,
        CTTS@ != STSS@ && CTTS@ != CO64@ && STSS@ != CO64@,
{
    assert(STTS@[0] != CTTS@[0]);
    assert(STTS@[2] != STSS@[2]);
    assert(STTS@[0] != CO64@[0]);
    assert(CTTS@[0] != STSS@[0]);
    assert(CTTS@[1] != CO64@[1]);
    assert(STSS@[0] != CO64@[0]);
}

pub open spec fn orr<A>(x: Option<A>, y: Option<A>) -> Option<A> {
    if x is Some { x } else { y }
}

/// The children of a written sample table, one piece each (`ctts` and
/// `stss` empty when not written).
pub open spec fn stbl_pieces(stsd: StblChildView, ss: Seq<Sample>, off: u64, use64: bool) -> Seq<Seq<StblChildView>> {
    seq![
        seq![stsd],
        seq![StblChildView::Opaque(stts_bytes(ss))],
        match ctts_bytes(ss) {
            Some(b) => seq![StblChildView::Opaque(b)],
            None => Seq::empty(),
        },
        seq![StblChildView::Stsc(stsc_view(ss.len()))],
        seq![StblChildView::Stsz(stsz_view(ss))],
        seq![if use64 { StblChildView::Opaque(co64_bytes(off)) } else { StblChildView::Stco((0u8, 0u32, seq![off as u32])) }],
        match stss_bytes(ss) {
            Some(b) => seq![StblChildView::Opaque(b)],
            None => Seq::empty(),
        },
    ]
}

proof fn lemma_pieces_concat(ps: Seq<Seq<StblChildView>>, t: Seq<u8>)
    requires
        ps.len() == 7,
    ensures
        raw_child(ps[0] + ps[1] + ps[2] + ps[3] + ps[4] + ps[5] + ps[6], t) == orr(raw_child(ps[0], t), orr(raw_child(ps[1], t), orr(raw_child(ps[2], t), orr(raw_child(ps[3], t), orr(raw_child(ps[4], t), orr(raw_child(ps[5], t), raw_child(ps[6], t))))))),
        stsz_child(ps[0] + ps[1] + ps[2] + ps[3] + ps[4] + ps[5] + ps[6]) == orr(stsz_child(ps[0]), orr(stsz_child(ps[1]), orr(stsz_child(ps[2]), orr(stsz_child(ps[3]), orr(stsz_child(ps[4]), orr(stsz_child(ps[5]), stsz_child(ps[6]))))))),
        stsc_child(ps[0] + ps[1] + ps[2] + ps[3] + ps[4] + ps[5] + ps[6]) == orr(stsc_child(ps[0]), orr(stsc_child(ps[1]), orr(stsc_child(ps[2]), orr(stsc_child(ps[3]), orr(stsc_child(ps[4]), orr(stsc_child(ps[5]), stsc_child(ps[6]))))))),
        stco_child(ps[0] + ps[1] + ps[2] + ps[3] + ps[4] + ps[5] + ps[6]) == orr(stco_child(ps[0]), orr(stco_child(ps[1]), orr(stco_child(ps[2]), orr(stco_child(ps[3]), orr(stco_child(ps[4]), orr(stco_child(ps[5]), stco_child(ps[6]))))))),
{
    let s6 = ps[5] + ps[6];
    let s5 = ps[4] + s6;
    let s4 = ps[3] + s5;
    let s3 = ps[2] + s4;
    let s2 = ps[1] + s3;
    let s1 = ps[0] + s2;
    assert(ps[0] + ps[1] + ps[2] + ps[3] + ps[4] + ps[5] + ps[6] =~= s1);
    lemma_finders_concat(ps[5], ps[6], t);
    lemma_finders_concat(ps[4], s6, t);
    lemma_finders_concat(ps[3], s5, t);
    lemma_finders_concat(ps[2], s4, t);
    lemma_finders_concat(ps[1], s3, t);
    lemma_finders_concat(ps[0], s2, t);
}

proof fn lemma_empty_finders(t: Seq<u8>)
    ensures
        raw_child(Seq::empty(), t) is None,
        stsz_child(Seq::empty()) is None,
        stsc_child(Seq::empty()) is None,
        stco_child(Seq::empty()) is None,
{
}

proof fn lemma_pieces_of(stsd: StblChildView, ss: Seq<Sample>, off: u64, use64: bool)
    ensures
        prog_stbl(stsd, ss, off, use64) == stbl_pieces(stsd, ss, off, use64)[0] + stbl_pieces(stsd, ss, off, use64)[1]
            + stbl_pieces(stsd, ss, off, use64)[2] + stbl_pieces(stsd, ss, off, use64)[3] + stbl_pieces(stsd, ss, off, use64)[4]
            + stbl_pieces(stsd, ss, off, use64)[5] + stbl_pieces(stsd, ss, off, use64)[6],
{
    let ps = stbl_pieces(stsd, ss, off, use64);
    assert(prog_stbl(stsd, ss, off, use64) =~= ps[0] + ps[1] + ps[2] + ps[3] + ps[4] + ps[5] + ps[6]);
}

proof fn lemma_stts_type(ss: Seq<Sample>)
    ensures
        stts_bytes(ss).len() >= 8 && stts_bytes(ss).subrange(4, 8) == STTS@,
{
    let r = rle(durations(ss));
    let b = stts_bytes(ss);
    assert(b == runs_box(STTS@, 0, r));
    assert(b.subrange(4, 8) =~= STTS@);
}

proof fn lemma_co64_type(off: u64)
    ensures
        co64_bytes(off).len() >= 8 && co64_bytes(off).subrange(4, 8) == CO64@,
{
    assert(co64_bytes(off).subrange(4, 8) =~= CO64@);
}

proof fn lemma_ctts_type(ss: Seq<Sample>)
    ensures
        ctts_bytes(ss) matches Some(b) ==> b.len() >= 8 && b.subrange(4, 8) == CTTS@,
{
    if has_cts(ss) {
        let b = ctts_bytes(ss)->0;
        assert(b == runs_box(CTTS@, 1, rle(cts_offsets(ss))));
        assert(b.subrange(4, 8) =~= CTTS@);
    }
}

proof fn lemma_stss_type(ss: Seq<Sample>)
    ensures
        stss_bytes(ss) matches Some(b) ==> b.len() >= 8 && b.subrange(4, 8) == STSS@,
{
    if !all_sync(ss) {
        let b = stss_bytes(ss)->0;
        assert(b.subrange(4, 8) =~= STSS@);
    }
}

/// What each finder sees in each piece of a written sample table.
proof fn lemma_piece_finders(stsd: StblChildView, ss: Seq<Sample>, off: u64, use64: bool, t: Seq<u8>)
    requires
        stsd is Stsd,
        t == STTS@ || t == CTTS@ || t == STSS@ || t == CO64@,
    ensures
        ({
            let ps = stbl_pieces(stsd, ss, off, use64);
            &&& raw_child(ps[0], t) is None
            &&& raw_child(ps[1], t) == (if t == STTS@ { Some(stts_bytes(ss)) } else { None })
            &&& raw_child(ps[2], t) == (if t == CTTS@ { ctts_bytes(ss) } else { None })
            &&& raw_child(ps[3], t) is None && raw_child(ps[4], t) is None
            &&& raw_child(ps[5], t) == (if t == CO64@ && use64 { Some(co64_bytes(off)) } else { None })
            &&& raw_child(ps[6], t) == (if t == STSS@ { stss_bytes(ss) } else { None })
            &&& stsz_child(ps[0]) is None && stsz_child(ps[1]) is None && stsz_child(ps[2]) is None && stsz_child(ps[3]) is None
            &&& stsz_child(ps[4]) == Some(stsz_view(ss))
            &&& stsc_child(ps[0]) is None && stsc_child(ps[1]) is None && stsc_child(ps[2]) is None
            &&& stsc_child(ps[3]) == Some(stsc_view(ss.len()))
            &&& stco_child(ps[0]) is None && stco_child(ps[1]) is None && stco_child(ps[2]) is None && stco_child(ps[3]) is None && stco_child(ps[4]) is None
            &&& stco_child(ps[5]) == (if use64 { None } else { Some((0u8, 0u32, seq![off as u32])) })
            &&& stco_child(ps[6]) is None
        }),
{
    lemma_table_types();
    lemma_stts_type(ss);
    lemma_co64_type(off);
    lemma_ctts_type(ss);
    lemma_stss_type(ss);
    lemma_empty_finders(t);
    let ps = stbl_pieces(stsd, ss, off, use64);
    lemma_finders_one(stsd, t);
    lemma_finders_one(StblChildView::Opaque(stts_bytes(ss)), t);
    lemma_finders_one(StblChildView::Stsc(stsc_view(ss.len())), t);
    lemma_finders_one(StblChildView::Stsz(stsz_view(ss)), t);
    lemma_finders_one(ps[5][0], t);
    assert(ps[5] == seq![ps[5][0]]);
    match ctts_bytes(ss) {
        Some(b) => { lemma_finders_one(StblChildView::Opaque(b), t); },
        None => {},
    }
    match stss_bytes(ss) {
        Some(b) => { lemma_finders_one(StblChildView::Opaque(b), t); },
        None => {},
    }
}

/// What the finders see in a written sample table.
proof fn lemma_prog_stbl_children(stsd: StblChildView, ss: Seq<Sample>, off: u64, use64: bool)
    requires
        stsd is Stsd,
        use64 || off <= u32::MAX,
    ensures
        raw_child(prog_stbl(stsd, ss, off, use64), STTS@) == Some(stts_bytes(ss)),
        raw_child(prog_stbl(stsd, ss, off, use64), CTTS@) == ctts_bytes(ss),
        raw_child(prog_stbl(stsd, ss, off, use64), STSS@) == stss_bytes(ss),
        stsz_child(prog_stbl(stsd, ss, off, use64)) == Some(stsz_view(ss)),
        stsc_child(prog_stbl(stsd, ss, off, use64)) == Some(stsc_view(ss.len())),
        chunk_offsets_of(prog_stbl(stsd, ss, off, use64)) == Some(seq![off]),
{
    lemma_table_types();
    let ps = stbl_pieces(stsd, ss, off, use64);
    lemma_pieces_of(stsd, ss, off, use64);
    lemma_pieces_concat(ps, STTS@);
    lemma_pieces_concat(ps, CTTS@);
    lemma_pieces_concat(ps, STSS@);
    lemma_pieces_concat(ps, CO64@);
    lemma_piece_finders(stsd, ss, off, use64, STTS@);
    lemma_piece_finders(stsd, ss, off, use64, CTTS@);
    lemma_piece_finders(stsd, ss, off, use64, STSS@);
    lemma_piece_finders(stsd, ss, off, use64, CO64@);
    if !use64 {
        assert(seq![off as u32].map_values(|o: u32| o as u64) =~= seq![off]);
    } else {
        lemma_co64_entries(off);
    }
}

proof fn lemma_co64_entries(off: u64)
    ensures
        u64s_of(co64_bytes(off)) == Some(seq![off]),
{
    let b = co64_bytes(off);
    assert(b.subrange(12, 16) =~= be32(1));
    crate::bytes::lemma_be32_get32(1, b, 12);
    assert(b.subrange(16, 24) =~= be64(off));
    crate::bytes::lemma_be64_get64(off, b, 16);
    assert(u64s_of(b)->0 =~= seq![off]);
}

proof fn lemma_u32s_bytes_at(vs: Seq<u32>, i: int)
    requires
        0 <= i < vs.len(),
    ensures
        u32s_bytes(vs).len() == 4 * vs.len(),
        u32s_bytes(vs).subrange(4 * i, 4 * i + 4) == be32(vs[i]),
    decreases vs.len(),
{
    lemma_u32s_bytes_len(vs);
    let p = vs.drop_last();
    lemma_u32s_bytes_len(p);
    let b = u32s_bytes(vs);
    if i < vs.len() - 1 {
        lemma_u32s_bytes_at(p, i);
        assert(b.subrange(4 * i, 4 * i + 4) =~= u32s_bytes(p).subrange(4 * i, 4 * i + 4));
    } else {
        assert(b.subrange(4 * i, 4 * i + 4) =~= be32(vs.last()));
    }
}

proof fn lemma_u32s_bytes_len(vs: Seq<u32>)
    ensures
        u32s_bytes(vs).len() == 4 * vs.len(),
    decreases vs.len(),
{
    if vs.len() > 0 {
        lemma_u32s_bytes_len(vs.drop_last());
    }
}

/// A written `stss` reads back as the sync sample numbers.
proof fn lemma_stss_round_trip(ss: Seq<Sample>)
    requires
        !all_sync(ss),
        16 + 4 * sync_numbers(ss).len() <= u32::MAX,
    ensures
        u32s_of(stss_bytes(ss)->0) == Some(sync_numbers(ss)),
{
    let nn = sync_numbers(ss);
    let b = stss_bytes(ss)->0;
    lemma_u32s_bytes_len(nn);
    let n = nn.len() as u32;
    assert(b.subrange(12, 16) =~= be32(n));
    crate::bytes::lemma_be32_get32(n, b, 12);
    let r = u32s_bytes(nn);
    assert forall|i: int| 0 <= i < nn.len() implies get32(b, 16 + 4 * i) == nn[i] by {
        lemma_u32s_bytes_at(nn, i);
        assert(b.subrange(16 + 4 * i, 20 + 4 * i) =~= r.subrange(4 * i, 4 * i + 4));
        crate::bytes::lemma_be32_get32(nn[i], b, 16 + 4 * i);
    }
    assert(u32s_of(b)->0 =~= nn);
}

/// The sync sample numbers name exactly the sync samples.
proof fn lemma_sync_numbers(ss: Seq<Sample>)
    requires
        ss.len() <= u32::MAX,
    ensures
        forall|k: int| 0 <= k < sync_numbers(ss).len() ==> 1 <= #[trigger] sync_numbers(ss)[k] <= ss.len(),
        forall|i: int| 0 <= i < ss.len() ==> ((exists|k: int| 0 <= k < sync_numbers(ss).len() && sync_numbers(ss)[k] as int == i + 1) <==> (#[trigger] ss[i]).is_sync),
    decreases ss.len(),
{
    if ss.len() > 0 {
        let p = ss.drop_last();
        lemma_sync_numbers(p);
        let np = sync_numbers(p);
        let nn = sync_numbers(ss);
        assert forall|i: int| 0 <= i < ss.len() implies ((exists|k: int| 0 <= k < nn.len() && nn[k] as int == i + 1) <==> (#[trigger] ss[i]).is_sync) by {
            if i < p.len() {
                assert(p[i] == ss[i]);
                if ss.last().is_sync {
                    if exists|k: int| 0 <= k < nn.len() && nn[k] as int == i + 1 {
                        let k = choose|k: int| 0 <= k < nn.len() && nn[k] as int == i + 1;
                        if k < np.len() {
                            assert(nn[k] == np[k]);
                        }
                    }
                    if p[i].is_sync {
                        let k = choose|k: int| 0 <= k < np.len() && np[k] as int == i + 1;
                        assert(nn[k] == np[k]);
                    }
                }
            } else {
                if ss.last().is_sync {
                    assert(nn[np.len() as int] as int == i + 1);
                } else {
                    if exists|k: int| 0 <= k < nn.len() && nn[k] as int == i + 1 {
                        let k = choose|k: int| 0 <= k < nn.len() && nn[k] as int == i + 1;
                        assert(np[k] <= p.len());
                    }
                }
            }
        }
    }
}

/// Where a chunk at `off` holding `ss` puts each sample: `(start, size)`.
pub open spec fn sample_positions(ss: Seq<Sample>, off: int) -> Seq<(int, nat)> {
    Seq::new(ss.len(), |i: int| (off + samples_data(ss.take(i)).len(), ss[i].data@.len()))
}

proof fn lemma_samples_data_prefix(ss: Seq<Sample>, k: int)
    requires
        0 <= k < ss.len(),
    ensures
        samples_data(ss.take(k + 1)) == samples_data(ss.take(k)) + ss[k].data@,
        samples_data(ss.take(k + 1)).len() <= samples_data(ss).len(),
    decreases ss.len() - k,
{
    assert(ss.take(k + 1).drop_last() =~= ss.take(k));
    if k + 1 < ss.len() {
        lemma_samples_data_prefix(ss, k + 1);
    } else {
        assert(ss.take(k + 1) =~= ss);
    }
}

proof fn lemma_chunk_samples_from(ss: Seq<Sample>, off: int, k: int)
    requires
        0 <= k <= ss.len(),
        0 <= off,
        off + samples_data(ss).len() <= usize::MAX,
        forall|i: int| 0 <= i < ss.len() ==> (#[trigger] ss[i]).data@.len() <= u32::MAX,
    ensures
        chunk_samples(
            off + samples_data(ss.take(k)).len(),
            (ss.len() - k) as nat,
            stsz_view(ss),
            sample_positions(ss, off).take(k),
        ) == Some(sample_positions(ss, off)),
    decreases ss.len() - k,
{
    let pos = sample_positions(ss, off);
    if k == ss.len() {
        assert(pos.take(k) =~= pos);
    } else {
        lemma_samples_data_prefix(ss, k);
        lemma_chunk_samples_from(ss, off, k + 1);
        assert(pos.take(k).push(pos[k]) =~= pos.take(k + 1));
        assert(stsz_view(ss).3[k] == ss[k].data@.len() as u32);
        assert(pos.take(k).len() == k);
    }
}

/// The single chunk of a written track lays its samples out back to back.
proof fn lemma_one_chunk_layout(ss: Seq<Sample>, off: u64)
    requires
        ss.len() <= u32::MAX,
        off + samples_data(ss).len() <= usize::MAX,
        forall|i: int| 0 <= i < ss.len() ==> (#[trigger] ss[i]).data@.len() <= u32::MAX,
    ensures
        chunk_layout(seq![off], stsc_table(stsc_view(ss.len()).2, 1), stsz_view(ss), 1) == Some(sample_positions(ss, off as int)),
{
    let es = stsc_view(ss.len()).2;
    assert(spc_at(es, 1, 1, 1) == ss.len() as u32);
    assert(stsc_table(es, 1) =~= seq![ss.len() as u32]);
    assert(chunk_layout(seq![off], seq![ss.len() as u32], stsz_view(ss), 0) == Some(Seq::<(int, nat)>::empty()));
    lemma_chunk_samples_from(ss, off as int, 0);
    assert(ss.take(0) =~= Seq::<Sample>::empty());
    assert(sample_positions(ss, off as int).take(0) =~= Seq::<(int, nat)>::empty());
}

proof fn lemma_samples_data_is_prefix(ss: Seq<Sample>, k: int)
    requires
        0 <= k <= ss.len(),
    ensures
        samples_data(ss.take(k)).len() <= samples_data(ss).len(),
        samples_data(ss).subrange(0, samples_data(ss.take(k)).len() as int) == samples_data(ss.take(k)),
    decreases ss.len() - k,
{
    if k == ss.len() {
        assert(ss.take(k) =~= ss);
        assert(samples_data(ss).subrange(0, samples_data(ss).len() as int) =~= samples_data(ss));
    } else {
        lemma_samples_data_is_prefix(ss, k + 1);
        lemma_samples_data_prefix(ss, k);
        let a = samples_data(ss.take(k));
        let b = samples_data(ss.take(k + 1));
        assert(samples_data(ss).subrange(0, a.len() as int) =~= b.subrange(0, a.len() as int));
        assert(b.subrange(0, a.len() as int) =~= a);
    }
}

/// What reading back gives: each sample's bytes, its duration, decode times
/// counted from `next`, its composition offset and its sync flag.
pub open spec fn read_back(ss: Seq<Sample>, i: nat, next: i64, acc: Seq<SampleV>) -> Seq<SampleV>
    decreases ss.len() - i,
{
    if i >= ss.len() {
        acc
    } else {
        let s = ss[i as int];
        read_back(
            ss,
            i + 1,
            (next + dur_of(s)) as i64,
            acc.push((s.data@, Some(next), Some((next + (cts_of(s) as i32)) as i64), Some(dur_of(s)), s.is_sync, None)),
        )
    }
}

proof fn lemma_build_samples(
    file: Seq<u8>,
    ss: Seq<Sample>,
    off: int,
    flags: Seq<bool>,
    i: nat,
    next: i64,
    acc: Seq<SampleV>,
)
    requires
        i <= ss.len(),
        0 <= off,
        off + samples_data(ss).len() <= file.len(),
        file.subrange(off, off + samples_data(ss).len()) == samples_data(ss),
        flags.len() == ss.len(),
        forall|j: int| 0 <= j < ss.len() ==> flags[j] == (#[trigger] ss[j]).is_sync,
    ensures
        build_samples(file, sample_positions(ss, off), durations(ss), cts_offsets(ss), flags, i, next, acc)
            == Some(read_back(ss, i, next, acc)),
    decreases ss.len() - i,
{
    if i < ss.len() {
        let pos = sample_positions(ss, off);
        let j = i as int;
        lemma_samples_data_prefix(ss, j);
        lemma_samples_data_is_prefix(ss, j + 1);
        let a = samples_data(ss.take(j));
        let b = samples_data(ss.take(j + 1));
        let all = samples_data(ss);
        assert(pos[j] == (off + a.len(), ss[j].data@.len()));
        assert(file.subrange(off + a.len(), off + b.len()) =~= all.subrange(a.len() as int, b.len() as int));
        assert(all.subrange(a.len() as int, b.len() as int) =~= b.subrange(a.len() as int, b.len() as int));
        assert(b.subrange(a.len() as int, b.len() as int) =~= ss[j].data@);
        lemma_build_samples(
            file,
            ss,
            off,
            flags,
            i + 1,
            (next + dur_of(ss[j])) as i64,
            acc.push((ss[j].data@, Some(next), Some((next + (cts_of(ss[j]) as i32)) as i64), Some(dur_of(ss[j])), ss[j].is_sync, None)),
        );
    }
}

/// The sample table that `ProgressiveMux` writes for a track reads back, by
/// what `ProgressiveDemux` does with it, as the track's samples: each
/// sample's bytes (taken from the file where the chunk offset points), its
/// duration, composition offset and sync flag, with decode times counted
/// from 0.
pub proof fn lemma_stbl_round_trip(file: Seq<u8>, stsd: StblChildView, ss: Seq<Sample>, off: u64, use64: bool)
    requires
        stsd is Stsd,
        tables_fit(ss),
        forall|i: int| 0 <= i < ss.len() ==> (#[trigger] ss[i]).data@.len() <= u32::MAX,
        use64 || off <= u32::MAX,
        file.len() <= usize::MAX,
        off + samples_data(ss).len() <= file.len(),
        file.subrange(off as int, off + samples_data(ss).len()) == samples_data(ss),
    ensures
        stbl_samples(file, prog_stbl(stsd, ss, off, use64)) == Some(read_back(ss, 0, 0, Seq::empty())),
{
    let cs = prog_stbl(stsd, ss, off, use64);
    let n = ss.len();
    lemma_prog_stbl_children(stsd, ss, off, use64);
    lemma_one_chunk_layout(ss, off);
    let pos = sample_positions(ss, off as int);
    assert(stsc_table(stsc_view(n).2, seq![off].len()) == stsc_table(stsc_view(n).2, 1));
    lemma_runs_round_trip(STTS@, 0, rle(durations(ss)));
    lemma_expand_rle(durations(ss));
    let ctos = cts_offsets(ss);
    if has_cts(ss) {
        lemma_runs_round_trip(CTTS@, 1, rle(ctos));
        lemma_expand_rle(ctos);
        assert(ctts_offsets(cs, n) == Some(ctos));
    } else {
        assert forall|i: int| 0 <= i < n implies ctos[i] == 0u32 by {
            assert(crate::pipeline::comp_offset(ss[i]) == 0);
        }
        assert(ctts_offsets(cs, n) == Some(Seq::new(n, |i: int| 0u32)));
        assert(Seq::new(n, |i: int| 0u32) =~= ctos);
    }
    let flags = Seq::new(n, |i: int| ss[i].is_sync);
    if !all_sync(ss) {
        lemma_stss_round_trip(ss);
        lemma_sync_numbers(ss);
        assert(stss_entries(cs) == Some(Some(sync_numbers(ss))));
        assert(sync_flags(Some(sync_numbers(ss)), n) =~= flags);
    } else {
        assert(stss_entries(cs) == Some(None::<Seq<u32>>));
        assert(sync_flags(None, n) =~= flags);
    }
    lemma_build_samples(file, ss, off as int, flags, 0, 0, Seq::empty());
}

proof fn lemma_first_stsd(cs: Seq<StblChildView>)
    ensures
        crate::progressive::first_stsd(cs) matches Some(c) ==> c is Stsd,
    decreases cs.len(),
{
    if cs.len() > 0 {
        lemma_first_stsd(cs.drop_first());
    }
}

/// The `trak` that `ProgressiveMux` writes for a track reads back as the
/// track's samples, as `lemma_stbl_round_trip` says.
pub proof fn lemma_trak_round_trip(
    file: Seq<u8>,
    tv: TrakView,
    ss: Seq<Sample>,
    media_dur: u64,
    movie_dur: u64,
    off: u64,
    use64: bool,
)
    requires
        crate::progressive::prog_trak(tv, ss, media_dur, movie_dur, off, use64) is Ok,
        tables_fit(ss),
        forall|i: int| 0 <= i < ss.len() ==> (#[trigger] ss[i]).data@.len() <= u32::MAX,
        use64 || off <= u32::MAX,
        file.len() <= usize::MAX,
        off + samples_data(ss).len() <= file.len(),
        file.subrange(off as int, off + samples_data(ss).len()) == samples_data(ss),
    ensures
        trak_samples(file, crate::progressive::prog_trak(tv, ss, media_dur, movie_dur, off, use64)->Ok_0)
            == Some(read_back(ss, 0, 0, Seq::empty())),
{
    let md = tv.2->0;
    let mi = md.2->0;
    let cs = mi.3->0;
    lemma_first_stsd(cs);
    let stsd = crate::progressive::first_stsd(cs)->0;
    lemma_stbl_round_trip(file, stsd, ss, off, use64);
}

} // verus!
