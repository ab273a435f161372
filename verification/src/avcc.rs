//! The parameter sets and profile bytes of an `AVCDecoderConfigurationRecord`
//! (the `avcC` body, ISO/IEC 14496-15 §5.3.3.1), read where RTP needs them:
//! the STAP-A parameter-set packet and the SDP `profile-level-id` and
//! `sprop-parameter-sets`.
use vstd::prelude::*;
use crate::bytes::{get16, read16, sat, copy_range};
use crate::error::Error;

verus! {

/// `count` parameter sets from offset `off`, each after its 16-bit length,
/// and the offset after the last one.
pub open spec fn ps_list(b: Seq<u8>, off: int, count: nat) -> Result<(Seq<Seq<u8>>, int), Error>
    decreases count,
{
    if count == 0 {
        Ok((Seq::empty(), off))
    } else if off + 2 > b.len() {
        Err(Error::BufferTooShort { need: sat(off + 2), have: b.len() as usize, what: "avcC parameter set length" })
    } else {
        let end = off + 2 + get16(b, off);
        if end > b.len() {
            Err(Error::BufferTooShort { need: sat(end), have: b.len() as usize, what: "avcC parameter set" })
        } else {
            match ps_list(b, end, (count - 1) as nat) {
                Ok((r, e)) => Ok((seq![b.subrange(off + 2, end)] + r, e)),
                Err(e) => Err(e),
            }
        }
    }
}

/// `(profile, compatibility, level, SPS list, PPS list)` of an `avcC` body.
pub type AvccView = (u8, u8, u8, Seq<Seq<u8>>, Seq<Seq<u8>>);

/// The profile bytes and parameter sets of an `avcC` body, or why it is
/// refused.
pub open spec fn avcc_params(b: Seq<u8>) -> Result<AvccView, Error> {
    if b.len() < 6 {
        Err(Error::BufferTooShort { need: 6, have: b.len() as usize, what: "avcC header" })
    } else {
        match ps_list(b, 6, (b[5] % 32) as nat) {
            Err(e) => Err(e),
            Ok((sps, o)) => if o + 1 > b.len() {
                Err(Error::BufferTooShort { need: sat(o + 1), have: b.len() as usize, what: "avcC PPS count" })
            } else {
                match ps_list(b, o + 1, b[o] as nat) {
                    Err(e) => Err(e),
                    Ok((pps, _)) => Ok((b[1], b[2], b[3], sps, pps)),
                }
            },
        }
    }
}

/// The profile bytes and parameter sets of an AVC decoder configuration.
#[derive(Debug, Clone)]
pub struct AvcParams {
    /// `AVCProfileIndication`.
    pub profile: u8,
    /// `profile_compatibility`.
    pub compat: u8,
    /// `AVCLevelIndication`.
    pub level: u8,
    /// Sequence parameter sets, in order.
    pub sps: Vec<Vec<u8>>,
    /// Picture parameter sets, in order.
    pub pps: Vec<Vec<u8>>,
}

/// The views of a list of byte vectors.
pub open spec fn vv(v: Seq<Vec<u8>>) -> Seq<Seq<u8>> {
    v.map_values(|p: Vec<u8>| p@)
}

fn read_ps_list(b: &[u8], off: usize, count: usize) -> (r: Result<(Vec<Vec<u8>>, usize), Error>)
    requires
        off <= b@.len(),
    ensures
        match ps_list(b@, off as int, count as nat) {
            Ok((l, e)) => r matches Ok((v, x)) && vv(v@) == l && x == e,
            Err(e) => r matches Err(x) && x == e,
        },
{
    let n = b.len();
    let mut out: Vec<Vec<u8>> = Vec::new();
    let mut o = off;
    let mut k: usize = 0;
    assert(vv(out@) =~= Seq::<Seq<u8>>::empty());
    while k < count
        invariant
            k <= count,
            o <= n,
            n == b@.len(),
            ps_list(b@, off as int, count as nat) == (match ps_list(b@, o as int, (count - k) as nat) {
                Ok((l, e)) => Ok((vv(out@) + l, e)),
                Err(e) => Err(e),
            }),
        decreases count - k,
    {
        if n - o < 2 {
            return Err(Error::BufferTooShort { need: o.saturating_add(2), have: n, what: "avcC parameter set length" });
        }
        let len = read16(b, o) as usize;
        let start = o + 2;
        if len > n - start {
            return Err(Error::BufferTooShort { need: start.saturating_add(len), have: n, what: "avcC parameter set" });
        }
        let end = start + len;
        let ghost before = vv(out@);
        out.push(copy_range(b, start, end));
        proof {
            assert(vv(out@) =~= before.push(b@.subrange(start as int, end as int)));
            match ps_list(b@, end as int, (count - k - 1) as nat) {
                Ok((l, e)) => {
                    assert(before + (seq![b@.subrange(start as int, end as int)] + l) =~= before.push(b@.subrange(start as int, end as int)) + l);
                },
                Err(e) => {},
            }
        }
        o = end;
        k += 1;
    }
    assert(vv(out@) + Seq::<Seq<u8>>::empty() =~= vv(out@));
    Ok((out, o))
}

/// Reads the profile bytes and the SPS/PPS lists of an `avcC` body.
pub fn parse_avcc_params(b: &[u8]) -> (r: Result<AvcParams, Error>)
    ensures
        match avcc_params(b@) {
            Ok(v) => r matches Ok(p) && p.profile == v.0 && p.compat == v.1 && p.level == v.2
                && vv(p.sps@) == v.3 && vv(p.pps@) == v.4,
            Err(e) => r matches Err(x) && x == e,
        },
{
    let n = b.len();
    if n < 6 {
        return Err(Error::BufferTooShort { need: 6, have: n, what: "avcC header" });
    }
    let (sps, o) = match read_ps_list(b, 6, (b[5] % 32) as usize) {
        Ok(x) => x,
        Err(e) => {
            return Err(e);
        },
    };
    if o >= n {
        return Err(Error::BufferTooShort { need: o.saturating_add(1), have: n, what: "avcC PPS count" });
    }
    let (pps, _) = match read_ps_list(b, o + 1, b[o] as usize) {
        Ok(x) => x,
        Err(e) => {
            return Err(e);
        },
    };
    Ok(AvcParams { profile: b[1], compat: b[2], level: b[3], sps, pps })
}

} // verus!
