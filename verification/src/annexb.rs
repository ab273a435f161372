//! Annex B byte streams (ITU-T H.264 Annex B, `00 00 01` start codes) and the
//! 4-byte length-prefixed NAL framing ISOBMFF `mdat` samples use.
use vstd::prelude::*;
use crate::bytes::{be32, get32, push32, push_all, sat, read32};
use crate::error::Error;

verus! {

/// Size in bytes of the big-endian NAL length prefix in `mdat` samples.
pub const NAL_LENGTH_SIZE: usize = 4;

/// A `00 00 01` start code begins at `i`.
pub open spec fn is_start_code(s: Seq<u8>, i: int) -> bool {
    0 <= i && i + 3 <= s.len() && s[i] == 0 && s[i + 1] == 0 && s[i + 2] == 1
}

/// The first start-code position at or after `i`, or `s.len()` when none.
pub open spec fn next_start_code(s: Seq<u8>, i: nat) -> nat
    decreases s.len() - i,
{
    if i + 3 > s.len() {
        s.len()
    } else if is_start_code(s, i as int) {
        i
    } else {
        next_start_code(s, i + 1)
    }
}

/// `s` with its trailing zero bytes (`trailing_zero_8bits`) removed.
pub open spec fn strip_trailing_zeros(s: Seq<u8>) -> Seq<u8>
    decreases s.len(),
{
    if s.len() > 0 && s.last() == 0 {
        strip_trailing_zeros(s.drop_last())
    } else {
        s
    }
}

pub proof fn lemma_next_start_code(s: Seq<u8>, i: nat)
    ensures
        next_start_code(s, i) == s.len() || (i <= next_start_code(s, i) && is_start_code(
            s,
            next_start_code(s, i) as int,
        )),
        next_start_code(s, i) <= s.len(),
        forall|j: int| i <= j < next_start_code(s, i) ==> !is_start_code(s, j),
    decreases s.len() - i,
{
    if i + 3 <= s.len() && !is_start_code(s, i as int) {
        lemma_next_start_code(s, i + 1);
    }
}

pub proof fn lemma_strip_len(s: Seq<u8>)
    ensures
        strip_trailing_zeros(s).len() <= s.len(),
        strip_trailing_zeros(s) == s.subrange(0, strip_trailing_zeros(s).len() as int),
    decreases s.len(),
{
    if s.len() > 0 && s.last() == 0 {
        lemma_strip_len(s.drop_last());
        let t = strip_trailing_zeros(s.drop_last());
        assert(s.drop_last().subrange(0, t.len() as int) =~= s.subrange(0, t.len() as int));
    } else {
        assert(s.subrange(0, s.len() as int) =~= s);
    }
}

/// The NAL units following the start code that ends at `i`: each runs to the
/// next start code (or the end of `s`), minus trailing zero bytes; empty ones
/// are skipped.
#[verifier::opaque]
pub open spec fn annexb_nals_from(s: Seq<u8>, i: nat) -> Seq<Seq<u8>>
    decreases s.len() - i,
{
    if i > s.len() {
        Seq::empty()
    } else {
        let e = next_start_code(s, i);
        proof {
            lemma_next_start_code(s, i);
        }
        let nal = strip_trailing_zeros(s.subrange(i as int, e as int));
        let rest = if e < s.len() {
            annexb_nals_from(s, e + 3)
        } else {
            Seq::empty()
        };
        if nal.len() == 0 {
            rest
        } else {
            seq![nal] + rest
        }
    }
}

/// The NAL units of an Annex B byte stream; bytes before the first start
/// code are ignored.
pub open spec fn annexb_nals(s: Seq<u8>) -> Seq<Seq<u8>> {
    if next_start_code(s, 0) < s.len() {
        annexb_nals_from(s, next_start_code(s, 0) + 3)
    } else {
        Seq::empty()
    }
}

/// The byte contents of a sequence of slices.
pub open spec fn slices_view(v: Seq<&[u8]>) -> Seq<Seq<u8>> {
    v.map_values(|x: &[u8]| x@)
}

/// Outcome of splitting a buffer of 4-byte-length-prefixed NAL units.
pub open spec fn lp_nals(s: Seq<u8>) -> Result<Seq<Seq<u8>>, Error>
    decreases s.len(),
{
    if s.len() == 0 {
        Ok(Seq::empty())
    } else if s.len() < 4 {
        Err(Error::BufferTooShort { need: 4, have: s.len() as usize, what: "NAL length prefix" })
    } else if s.len() - 4 < get32(s, 0) {
        Err(
            Error::BufferTooShort {
                need: sat(4 + get32(s, 0)),
                have: s.len() as usize,
                what: "length-prefixed NAL unit",
            },
        )
    } else {
        match lp_nals(s.skip(4 + get32(s, 0))) {
            Ok(rest) => Ok(seq![s.subrange(4, 4 + get32(s, 0))] + rest),
            Err(e) => Err(e),
        }
    }
}

/// The 4-byte length-prefixed framing of a sequence of NAL units.
pub open spec fn lp_concat(nals: Seq<Seq<u8>>) -> Seq<u8>
    decreases nals.len(),
{
    if nals.len() == 0 {
        Seq::empty()
    } else {
        be32(nals[0].len() as u32) + nals[0] + lp_concat(nals.skip(1))
    }
}

/// First start-code position at or after `from`, or `data.len()` when none.
fn find_start_code(data: &[u8], from: usize) -> (r: usize)
    requires
        from <= data@.len(),
    ensures
        r == next_start_code(data@, from as nat),
{
    let n = data.len();
    let mut i = from;
    while n >= 3 && i <= n - 3
        invariant
            from <= i <= n,
            n == data@.len(),
            next_start_code(data@, from as nat) == next_start_code(data@, i as nat),
        decreases n - i,
    {
        if data[i] == 0 && data[i + 1] == 0 && data[i + 2] == 1 {
            return i;
        }
        i += 1;
    }
    n
}

/// End of `data[from..to]` once trailing zero bytes are removed.
fn trim_zeros_end(data: &[u8], from: usize, to: usize) -> (r: usize)
    requires
        from <= to <= data@.len(),
    ensures
        from <= r <= to,
        data@.subrange(from as int, r as int) == strip_trailing_zeros(
            data@.subrange(from as int, to as int),
        ),
{
    let mut k = to;
    while k > from && data[k - 1] == 0
        invariant
            from <= k <= to <= data@.len(),
            strip_trailing_zeros(data@.subrange(from as int, to as int)) == strip_trailing_zeros(
                data@.subrange(from as int, k as int),
            ),
        decreases k,
    {
        let ghost s = data@.subrange(from as int, k as int);
        assert(s.drop_last() =~= data@.subrange(from as int, k - 1));
        k -= 1;
    }
    k
}

/// Split an Annex B byte stream into its NAL units (start codes removed,
/// trailing zero bytes trimmed, empty units skipped).
pub fn iter_annexb_nals(data: &[u8]) -> (r: Vec<&[u8]>)
    ensures
        slices_view(r@) == annexb_nals(data@),
{
    let mut out: Vec<&[u8]> = Vec::new();
    let first = find_start_code(data, 0);
    if first >= data.len() {
        assert(slices_view(out@) =~= Seq::<Seq<u8>>::empty());
        return out;
    }
    proof {
        lemma_next_start_code(data@, 0);
    }
    let mut i = first + 3;
    loop
        invariant
            i <= data@.len(),
            annexb_nals(data@) == slices_view(out@) + annexb_nals_from(data@, i as nat),
        decreases data@.len() - i,
    {
        let e = find_start_code(data, i);
        proof {
            lemma_next_start_code(data@, i as nat);
        }
        let end = trim_zeros_end(data, i, e);
        let ghost old_out = out@;
        let ghost nal = data@.subrange(i as int, end as int);
        let ghost rest = if e < data@.len() {
            annexb_nals_from(data@, (e + 3) as nat)
        } else {
            Seq::<Seq<u8>>::empty()
        };
        proof {
            lemma_annexb_step(data@, i as nat);
        }
        if end > i {
            out.push(&data[i..end]);
            assert(slices_view(out@) =~= slices_view(old_out) + seq![nal]);
            assert(slices_view(old_out) + (seq![nal] + rest) =~= slices_view(out@) + rest);
        } else {
            assert(nal.len() == 0);
        }
        if e >= data.len() {
            assert(slices_view(out@) + Seq::<Seq<u8>>::empty() =~= slices_view(out@));
            return out;
        }
        i = e + 3;
    }
}

/// Split a buffer of 4-byte big-endian length-prefixed NAL units; fails when
/// a prefix is truncated or a declared length runs past the end.
pub fn iter_length_prefixed_nals(data: &[u8]) -> (r: Result<Vec<&[u8]>, Error>)
    ensures
        match lp_nals(data@) {
            Ok(v) => r matches Ok(x) && slices_view(x@) == v,
            Err(e) => r == Err::<Vec<&[u8]>, Error>(e),
        },
{
    let mut out: Vec<&[u8]> = Vec::new();
    let mut rest: &[u8] = data;
    while rest.len() > 0
        invariant
            lp_nals(data@) == match lp_nals(rest@) {
                Ok(v) => Ok(slices_view(out@) + v),
                Err(e) => Err(e),
            },
        decreases rest@.len(),
    {
        if rest.len() < NAL_LENGTH_SIZE {
            return Err(Error::BufferTooShort { need: 4, have: rest.len(), what: "NAL length prefix" });
        }
        let n = read32(rest, 0) as usize;
        if rest.len() - 4 < n {
            return Err(
                Error::BufferTooShort {
                    need: if n <= usize::MAX - 4 {
                        n + 4
                    } else {
                        usize::MAX
                    },
                    have: rest.len(),
                    what: "length-prefixed NAL unit",
                },
            );
        }
        let ghost old_rest = rest@;
        let ghost old_out = out@;
        out.push(&rest[4..4 + n]);
        rest = &rest[4 + n..rest.len()];
        assert(rest@ =~= old_rest.skip(4 + n));
        assert(slices_view(out@) =~= slices_view(old_out) + seq![old_rest.subrange(4, 4 + n)]);
        proof {
            match lp_nals(rest@) {
                Ok(v) => {
                    assert(slices_view(old_out) + (seq![old_rest.subrange(4, 4 + n)] + v)
                        =~= slices_view(out@) + v);
                },
                Err(_) => {},
            }
        }
    }
    assert(slices_view(out@) + Seq::<Seq<u8>>::empty() =~= slices_view(out@));
    Ok(out)
}

proof fn lemma_annexb_step(s: Seq<u8>, i: nat)
    requires
        i <= s.len(),
    ensures
        ({
            let e = next_start_code(s, i);
            let nal = strip_trailing_zeros(s.subrange(i as int, e as int));
            let rest = if e < s.len() {
                annexb_nals_from(s, e + 3)
            } else {
                Seq::<Seq<u8>>::empty()
            };
            annexb_nals_from(s, i) == if nal.len() == 0 {
                rest
            } else {
                seq![nal] + rest
            }
        }),
{
    reveal(annexb_nals_from);
}

pub proof fn lemma_annexb_nals_from_bounds(s: Seq<u8>, i: nat)
    ensures
        forall|k: int|
            0 <= k < annexb_nals_from(s, i).len() ==> #[trigger] annexb_nals_from(s, i)[k].len()
                <= s.len(),
    decreases s.len() - i,
{
    reveal(annexb_nals_from);
    if i <= s.len() {
        let e = next_start_code(s, i);
        lemma_next_start_code(s, i);
        lemma_annexb_step(s, i);
        let nal = strip_trailing_zeros(s.subrange(i as int, e as int));
        lemma_strip_len(s.subrange(i as int, e as int));
        let rest = if e < s.len() {
            annexb_nals_from(s, e + 3)
        } else {
            Seq::<Seq<u8>>::empty()
        };
        if e < s.len() {
            lemma_annexb_nals_from_bounds(s, e + 3);
        }
        assert(forall|k: int| 0 <= k < rest.len() ==> #[trigger] rest[k].len() <= s.len());
        if nal.len() > 0 {
            assert forall|k: int| 0 <= k < annexb_nals_from(s, i).len() implies #[trigger] annexb_nals_from(
                s,
                i,
            )[k].len() <= s.len() by {
                assert(annexb_nals_from(s, i) == seq![nal] + rest);
                if k > 0 {
                    assert(annexb_nals_from(s, i)[k] == rest[k - 1]);
                }
            }
        }
    }
}

/// Every NAL unit of an Annex B stream is no longer than the stream itself.
pub proof fn lemma_annexb_nals_bounds(s: Seq<u8>)
    ensures
        forall|k: int| 0 <= k < annexb_nals(s).len() ==> #[trigger] annexb_nals(s)[k].len() <= s.len(),
{
    lemma_next_start_code(s, 0);
    if next_start_code(s, 0) < s.len() {
        lemma_annexb_nals_from_bounds(s, next_start_code(s, 0) + 3);
    }
}

/// Every NAL unit of an Annex B stream fits a 32-bit length prefix.
pub open spec fn nals_fit_u32(s: Seq<u8>) -> bool {
    forall|k: int| 0 <= k < annexb_nals(s).len() ==> #[trigger] annexb_nals(s)[k].len() <= u32::MAX
}

/// Convert an Annex B access unit to 4-byte length-prefixed NAL units.
pub fn annexb_to_length_prefixed(data: &[u8]) -> (r: Vec<u8>)
    requires
        nals_fit_u32(data@),
    ensures
        r@ == lp_concat(annexb_nals(data@)),
{
    let nals = iter_annexb_nals(data);
    let mut out: Vec<u8> = Vec::new();
    let mut k: usize = 0;
    assert forall|j: int| 0 <= j < nals@.len() implies #[trigger] nals@[j]@.len() <= u32::MAX by {
        assert(slices_view(nals@)[j] == nals@[j]@);
    }
    assert(slices_view(nals@).skip(0) =~= slices_view(nals@));
    assert(out@ + lp_concat(slices_view(nals@)) =~= lp_concat(slices_view(nals@)));
    while k < nals.len()
        invariant
            k <= nals@.len(),
            slices_view(nals@) == annexb_nals(data@),
            forall|j: int| 0 <= j < nals@.len() ==> #[trigger] nals@[j]@.len() <= u32::MAX,
            lp_concat(annexb_nals(data@)) == out@ + lp_concat(slices_view(nals@).skip(k as int)),
        decreases nals@.len() - k,
    {
        let nal = nals[k];
        assert(slices_view(nals@)[k as int] == nal@);
        let ghost tail = slices_view(nals@).skip(k as int);
        assert(tail.skip(1) =~= slices_view(nals@).skip(k + 1));
        assert(tail[0] == nal@);
        push32(&mut out, nal.len() as u32);
        push_all(&mut out, nal);
        k += 1;
        assert(lp_concat(tail) =~= be32(nal@.len() as u32) + nal@ + lp_concat(tail.skip(1)));
    }
    assert(slices_view(nals@).skip(k as int) =~= Seq::<Seq<u8>>::empty());
    assert(out@ + Seq::<u8>::empty() =~= out@);
    out
}

/// Splitting the length-prefixed framing of NAL units gives them back.
pub proof fn lemma_lp_round_trip(nals: Seq<Seq<u8>>)
    requires
        forall|k: int| 0 <= k < nals.len() ==> #[trigger] nals[k].len() <= u32::MAX,
    ensures
        lp_nals(lp_concat(nals)) == Ok::<Seq<Seq<u8>>, Error>(nals),
    decreases nals.len(),
{
    if nals.len() == 0 {
        assert(nals =~= Seq::<Seq<u8>>::empty());
    } else {
        let n = nals[0].len() as u32;
        let s = lp_concat(nals);
        let rest = lp_concat(nals.skip(1));
        assert(s =~= be32(n) + (nals[0] + rest));
        assert(s.subrange(0, 4) =~= be32(n));
        crate::bytes::lemma_be32_get32(n, s, 0);
        assert(s.skip(4 + n) =~= rest);
        assert(s.subrange(4, 4 + n) =~= nals[0]);
        assert forall|k: int| 0 <= k < nals.skip(1).len() implies #[trigger] nals.skip(1)[k].len()
            <= u32::MAX by {
            assert(nals.skip(1)[k] == nals[k + 1]);
        }
        lemma_lp_round_trip(nals.skip(1));
        assert(seq![nals[0]] + nals.skip(1) =~= nals);
    }
}

/// Converting an Annex B access unit to length-prefixed form and splitting
/// that again yields exactly the Annex B NAL units.
pub proof fn lemma_annexb_length_prefixed_agree(s: Seq<u8>)
    requires
        nals_fit_u32(s),
    ensures
        lp_nals(lp_concat(annexb_nals(s))) == Ok::<Seq<Seq<u8>>, Error>(annexb_nals(s)),
{
    lemma_lp_round_trip(annexb_nals(s));
}

} // verus!
