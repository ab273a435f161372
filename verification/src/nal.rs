//! NAL-unit-type classification and IDR/IRAP keyframe detection for AVC
//! (ITU-T H.264 §7.3.1, Table 7-1), HEVC (ITU-T H.265 §7.3.1.2, Table 7-1)
//! and VVC (ITU-T H.266 §7.3.1.2, Table 5), on single NAL units and on whole
//! access units in Annex B or 4-byte length-prefixed form.
//!
//! Open-GOP AVC: [`access_unit_is_rap`] also treats an access unit carrying a
//! `recovery_point` SEI (Annex D.1.7 / D.2.7) or an SPS as a random-access
//! point, while [`is_keyframe_nal`] stays IDR-only.
use vstd::prelude::*;
use crate::annexb::{
    annexb_nals, iter_annexb_nals, iter_length_prefixed_nals, lp_concat, lp_nals, slices_view,
    lemma_annexb_length_prefixed_agree,
};
use crate::error::Error;

verus! {

/// H.264 `nal_unit_type` mask for header byte 0 (bits `[4:0]`).
const AVC_NAL_TYPE_MASK: u8 = 0x1F;
/// H.264 coded slice of an IDR picture.
const AVC_NAL_IDR: u8 = 5;
/// H.264 supplemental enhancement information.
const AVC_NAL_SEI: u8 = 6;
/// H.264 sequence parameter set.
const AVC_NAL_SPS: u8 = 7;
/// `payloadType` of the `recovery_point` SEI message (Table D-1).
const AVC_SEI_PAYLOAD_TYPE_RECOVERY_POINT: usize = 6;
/// First HEVC IRAP `nal_unit_type` (`BLA_W_LP`).
const HEVC_IRAP_FIRST: u8 = 16;
/// Last HEVC IRAP `nal_unit_type` (`RSV_IRAP_VCL23`).
const HEVC_IRAP_LAST: u8 = 23;
/// VVC `IDR_W_RADL`.
const VVC_NAL_IDR_W_RADL: u8 = 7;
/// VVC `IDR_N_LP`.
const VVC_NAL_IDR_N_LP: u8 = 8;
/// VVC `CRA_NUT`.
const VVC_NAL_CRA: u8 = 9;

/// The video codec family a NAL unit belongs to.
#[derive(Debug, Clone, Copy, PartialEq, Eq, Hash, Structural)]
pub enum NalCodec {
    /// H.264 / AVC.
    Avc,
    /// H.265 / HEVC.
    Hevc,
    /// H.266 / VVC.
    Vvc,
}

/// The short token naming a codec family.
pub open spec fn nal_codec_name(c: NalCodec) -> Seq<char> {
    match c {
        NalCodec::Avc => "AVC"@,
        NalCodec::Hevc => "HEVC"@,
        NalCodec::Vvc => "VVC"@,
    }
}

/// NAL header size: one byte for AVC, two for HEVC and VVC.
pub open spec fn nal_header_len(c: NalCodec) -> nat {
    match c {
        NalCodec::Avc => 1,
        _ => 2,
    }
}

impl NalCodec {
    /// The short spec token for this codec family.
    pub fn name(&self) -> (r: &'static str)
        ensures
            r@ == nal_codec_name(*self),
    {
        match self {
            NalCodec::Avc => "AVC",
            NalCodec::Hevc => "HEVC",
            NalCodec::Vvc => "VVC",
        }
    }

    fn header_len(self) -> (r: usize)
        ensures
            r == nal_header_len(self),
    {
        match self {
            NalCodec::Avc => 1,
            NalCodec::Hevc | NalCodec::Vvc => 2,
        }
    }
}

/// The `nal_unit_type` of one NAL unit, or `None` when it is shorter than
/// the codec's header.
pub open spec fn spec_nal_unit_type(codec: NalCodec, nal: Seq<u8>) -> Option<u8> {
    if nal.len() < nal_header_len(codec) {
        None
    } else {
        Some(
            match codec {
                NalCodec::Avc => nal[0] & 0x1Fu8,
                NalCodec::Hevc => (nal[0] >> 1u8) & 0x3Fu8,
                NalCodec::Vvc => (nal[1] >> 3u8) & 0x1Fu8,
            },
        )
    }
}

/// The unit is an IDR (AVC 5), IRAP (HEVC 16..=23) or IDR/CRA (VVC 7, 8, 9) slice.
pub open spec fn spec_is_keyframe_nal(codec: NalCodec, nal: Seq<u8>) -> bool {
    match spec_nal_unit_type(codec, nal) {
        None => false,
        Some(t) => match codec {
            NalCodec::Avc => t == 5,
            NalCodec::Hevc => 16 <= t <= 23,
            NalCodec::Vvc => t == 7 || t == 8 || t == 9,
        },
    }
}

/// The raw `nal_unit_type` from a single NAL unit's header (start code or
/// length prefix already removed), or `None` for a unit shorter than the
/// codec's header.
pub fn nal_unit_type(codec: NalCodec, nal: &[u8]) -> (r: Option<u8>)
    ensures
        r == spec_nal_unit_type(codec, nal@),
{
    if nal.len() < codec.header_len() {
        return None;
    }
    Some(
        match codec {
            NalCodec::Avc => nal[0] & AVC_NAL_TYPE_MASK,
            NalCodec::Hevc => (nal[0] >> 1u8) & 0x3Fu8,
            NalCodec::Vvc => (nal[1] >> 3u8) & 0x1Fu8,
        },
    )
}

/// Whether a single NAL unit is an IDR/IRAP VCL slice for `codec`.
pub fn is_keyframe_nal(codec: NalCodec, nal: &[u8]) -> (r: bool)
    ensures
        r == spec_is_keyframe_nal(codec, nal@),
{
    match nal_unit_type(codec, nal) {
        None => false,
        Some(t) => match codec {
            NalCodec::Avc => t == AVC_NAL_IDR,
            NalCodec::Hevc => HEVC_IRAP_FIRST <= t && t <= HEVC_IRAP_LAST,
            NalCodec::Vvc => t == VVC_NAL_IDR_W_RADL || t == VVC_NAL_IDR_N_LP || t == VVC_NAL_CRA,
        },
    }
}

/// Some unit of `nals` is a keyframe slice.
pub open spec fn any_keyframe(codec: NalCodec, nals: Seq<Seq<u8>>) -> bool {
    exists|i: int| 0 <= i < nals.len() && #[trigger] spec_is_keyframe_nal(codec, nals[i])
}

/// An access unit (length-prefixed when `length_prefixed`, else Annex B)
/// holds a keyframe slice; a malformed length-prefixed buffer holds none.
pub open spec fn spec_access_unit_is_keyframe(codec: NalCodec, au: Seq<u8>, length_prefixed: bool) -> bool {
    if length_prefixed {
        match lp_nals(au) {
            Ok(nals) => any_keyframe(codec, nals),
            Err(_) => false,
        }
    } else {
        any_keyframe(codec, annexb_nals(au))
    }
}

fn any_keyframe_in(codec: NalCodec, nals: &Vec<&[u8]>) -> (r: bool)
    ensures
        r == any_keyframe(codec, slices_view(nals@)),
{
    let mut i: usize = 0;
    while i < nals.len()
        invariant
            i <= nals@.len(),
            forall|j: int| 0 <= j < i ==> !spec_is_keyframe_nal(codec, #[trigger] slices_view(nals@)[j]),
        decreases nals@.len() - i,
    {
        assert(slices_view(nals@)[i as int] == nals@[i as int]@);
        if is_keyframe_nal(codec, nals[i]) {
            return true;
        }
        i += 1;
    }
    false
}

/// Whether an access unit contains any keyframe/IRAP VCL NAL unit for
/// `codec`; a malformed length-prefixed buffer yields `false`.
pub fn access_unit_is_keyframe(codec: NalCodec, au: &[u8], length_prefixed: bool) -> (r: bool)
    ensures
        r == spec_access_unit_is_keyframe(codec, au@, length_prefixed),
{
    if length_prefixed {
        match iter_length_prefixed_nals(au) {
            Ok(nals) => any_keyframe_in(codec, &nals),
            Err(_) => false,
        }
    } else {
        let nals = iter_annexb_nals(au);
        any_keyframe_in(codec, &nals)
    }
}

// ---------------------------------------------------------------------------
// SEI recovery points
// ---------------------------------------------------------------------------

/// Emulation-prevention removal (H.264 §7.4.1) from position `i` on, after
/// `zeros` zero bytes (counted up to two): a `03` following two zeros is
/// dropped and resets the count.
pub open spec fn ebsp_from(s: Seq<u8>, i: nat, zeros: nat) -> Seq<u8>
    decreases s.len() - i,
{
    if i >= s.len() {
        Seq::empty()
    } else if zeros >= 2 && s[i as int] == 3 {
        ebsp_from(s, i + 1, 0)
    } else {
        seq![s[i as int]] + ebsp_from(
            s,
            i + 1,
            if s[i as int] == 0 {
                if zeros < 2 {
                    zeros + 1
                } else {
                    2
                }
            } else {
                0
            },
        )
    }
}

/// The RBSP bytes of an escaped NAL body.
pub open spec fn ebsp_unescape(s: Seq<u8>) -> Seq<u8> {
    ebsp_from(s, 0, 0)
}

fn unescape(s: &[u8]) -> (r: Vec<u8>)
    ensures
        r@ == ebsp_unescape(s@),
{
    let mut out: Vec<u8> = Vec::new();
    let mut i: usize = 0;
    let mut zeros: u8 = 0;
    while i < s.len()
        invariant
            i <= s@.len(),
            zeros <= 2,
            ebsp_unescape(s@) == out@ + ebsp_from(s@, i as nat, zeros as nat),
        decreases s@.len() - i,
    {
        let b = s[i];
        let ghost old_out = out@;
        let ghost z = zeros as nat;
        if zeros >= 2 && b == 3 {
            zeros = 0;
        } else {
            out.push(b);
            zeros = if b == 0 {
                if zeros < 2 {
                    zeros + 1
                } else {
                    2
                }
            } else {
                0
            };
            assert(old_out + ebsp_from(s@, i as nat, z) =~= out@ + ebsp_from(
                s@,
                (i + 1) as nat,
                zeros as nat,
            ));
        }
        i += 1;
    }
    assert(out@ + Seq::<u8>::empty() =~= out@);
    out
}

/// One SEI `payloadType`/`payloadSize` value read from position `i`: a run of
/// `0xFF` bytes (255 each) closed by a byte below `0xFF`; gives the value and
/// the position after it, or `None` when the bytes run out first.
pub open spec fn sei_varint(s: Seq<u8>, i: nat, acc: nat) -> Option<(nat, nat)>
    decreases s.len() - i,
{
    if i >= s.len() {
        None
    } else if s[i as int] == 0xFF {
        sei_varint(s, i + 1, acc + 255)
    } else {
        Some((acc + s[i as int] as nat, i + 1))
    }
}

pub proof fn lemma_sei_varint_advances(s: Seq<u8>, i: nat, acc: nat)
    ensures
        sei_varint(s, i, acc) matches Some((v, j)) ==> i < j <= s.len() && acc <= v,
    decreases s.len() - i,
{
    if i < s.len() && s[i as int] == 0xFF {
        lemma_sei_varint_advances(s, i + 1, acc + 255);
    }
}

/// Walking the `sei_message()`s from position `i` of an SEI RBSP meets a
/// `recovery_point` message before the bytes run out.
pub open spec fn sei_finds_recovery(s: Seq<u8>, i: nat) -> bool
    decreases s.len() - i,
{
    match sei_varint(s, i, 0) {
        None => false,
        Some((pt, j)) => match sei_varint(s, j, 0) {
            None => false,
            Some((ps, k)) => if pt == 6 {
                true
            } else if k + ps >= s.len() {
                false
            } else {
                proof {
                    lemma_sei_varint_advances(s, i, 0);
                    lemma_sei_varint_advances(s, j, 0);
                }
                sei_finds_recovery(s, k + ps)
            },
        },
    }
}

/// An AVC SEI NAL unit (type 6) carrying a `recovery_point` message.
pub open spec fn spec_recovery_point_sei(nal: Seq<u8>) -> bool {
    spec_nal_unit_type(NalCodec::Avc, nal) == Some(6u8) && sei_finds_recovery(
        ebsp_unescape(nal.skip(1)),
        0,
    )
}

/// Read one SEI varint at `i`, saturating the value at `usize::MAX`.
fn read_sei_varint(s: &[u8], i: usize) -> (r: Option<(usize, usize)>)
    requires
        i <= s@.len(),
    ensures
        match sei_varint(s@, i as nat, 0) {
            None => r is None,
            Some((v, j)) => r matches Some((x, jj)) && jj == j && x == (if v <= usize::MAX {
                v
            } else {
                usize::MAX as nat
            }),
        },
{
    let mut value: usize = 0;
    let ghost mut acc: nat = 0;
    let mut p = i;
    while p < s.len()
        invariant
            i <= p <= s@.len(),
            value == (if acc <= usize::MAX {
                acc
            } else {
                usize::MAX as nat
            }),
            sei_varint(s@, i as nat, 0) == sei_varint(s@, p as nat, acc),
        decreases s@.len() - p,
    {
        let b = s[p];
        if b != 0xFF {
            let v = value.saturating_add(b as usize);
            return Some((v, p + 1));
        }
        value = value.saturating_add(255);
        proof {
            acc = acc + 255;
        }
        p += 1;
    }
    None
}

/// Whether a single H.264 SEI NAL unit (type 6) carries a `recovery_point`
/// SEI message (Annex D.1.7 / D.2.7). Every `sei_message()` is examined in
/// turn; anything that is not a type-6 NAL, is too short, or fails to parse
/// is not a recovery point.
pub fn recovery_point_sei(nal: &[u8]) -> (r: bool)
    ensures
        r == spec_recovery_point_sei(nal@),
{
    if nal_unit_type(NalCodec::Avc, nal) != Some(AVC_NAL_SEI) {
        return false;
    }
    let body = unescape(&nal[1..nal.len()]);
    assert(nal@.subrange(1, nal@.len() as int) =~= nal@.skip(1));
    let n = body.len();
    let mut pos: usize = 0;
    loop
        invariant
            pos <= n,
            n == body@.len(),
            spec_recovery_point_sei(nal@) == sei_finds_recovery(body@, pos as nat),
        decreases n - pos,
    {
        proof {
            lemma_sei_varint_advances(body@, pos as nat, 0);
        }
        let (payload_type, j) = match read_sei_varint(body.as_slice(), pos) {
            Some(x) => x,
            None => {
                return false;
            },
        };
        proof {
            lemma_sei_varint_advances(body@, j as nat, 0);
        }
        let (payload_size, k) = match read_sei_varint(body.as_slice(), j) {
            Some(x) => x,
            None => {
                return false;
            },
        };
        if payload_type == AVC_SEI_PAYLOAD_TYPE_RECOVERY_POINT {
            return true;
        }
        if payload_size >= n - k {
            return false;
        }
        pos = k + payload_size;
    }
}

/// An AVC NAL unit that marks a random-access point: an SPS, an IDR slice,
/// or a `recovery_point` SEI.
pub open spec fn spec_is_rap_nal(nal: Seq<u8>) -> bool {
    spec_nal_unit_type(NalCodec::Avc, nal) == Some(7u8) || spec_is_keyframe_nal(NalCodec::Avc, nal)
        || spec_recovery_point_sei(nal)
}

/// Some unit of `nals` marks an AVC random-access point.
pub open spec fn any_rap(nals: Seq<Seq<u8>>) -> bool {
    exists|i: int| 0 <= i < nals.len() && #[trigger] spec_is_rap_nal(nals[i])
}

/// An access unit is a random-access point: any IRAP slice for HEVC/VVC;
/// for AVC an IDR slice, a `recovery_point` SEI or an SPS.
pub open spec fn spec_access_unit_is_rap(codec: NalCodec, au: Seq<u8>, length_prefixed: bool) -> bool {
    match codec {
        NalCodec::Avc => if length_prefixed {
            match lp_nals(au) {
                Ok(nals) => any_rap(nals),
                Err(_) => false,
            }
        } else {
            any_rap(annexb_nals(au))
        },
        _ => spec_access_unit_is_keyframe(codec, au, length_prefixed),
    }
}

fn is_rap_nal(nal: &[u8]) -> (r: bool)
    ensures
        r == spec_is_rap_nal(nal@),
{
    nal_unit_type(NalCodec::Avc, nal) == Some(AVC_NAL_SPS) || is_keyframe_nal(NalCodec::Avc, nal)
        || recovery_point_sei(nal)
}

fn any_rap_in(nals: &Vec<&[u8]>) -> (r: bool)
    ensures
        r == any_rap(slices_view(nals@)),
{
    let mut i: usize = 0;
    while i < nals.len()
        invariant
            i <= nals@.len(),
            forall|j: int| 0 <= j < i ==> !spec_is_rap_nal(#[trigger] slices_view(nals@)[j]),
        decreases nals@.len() - i,
    {
        assert(slices_view(nals@)[i as int] == nals@[i as int]@);
        if is_rap_nal(nals[i]) {
            return true;
        }
        i += 1;
    }
    false
}

/// Whether an access unit is a random-access point (the segmentation anchor
/// signal) for `codec`: HEVC/VVC as [`access_unit_is_keyframe`]; AVC when it
/// holds an IDR slice, a `recovery_point` SEI or an SPS.
pub fn access_unit_is_rap(codec: NalCodec, au: &[u8], length_prefixed: bool) -> (r: bool)
    ensures
        r == spec_access_unit_is_rap(codec, au@, length_prefixed),
{
    match codec {
        NalCodec::Hevc | NalCodec::Vvc => access_unit_is_keyframe(codec, au, length_prefixed),
        NalCodec::Avc => {
            if length_prefixed {
                match iter_length_prefixed_nals(au) {
                    Ok(nals) => any_rap_in(&nals),
                    Err(_) => false,
                }
            } else {
                let nals = iter_annexb_nals(au);
                any_rap_in(&nals)
            }
        },
    }
}

/// The keyframe verdict on an Annex B access unit equals the verdict on its
/// length-prefixed conversion.
pub proof fn lemma_keyframe_framing_agrees(codec: NalCodec, au: Seq<u8>)
    requires
        crate::annexb::nals_fit_u32(au),
    ensures
        spec_access_unit_is_keyframe(codec, lp_concat(annexb_nals(au)), true)
            == spec_access_unit_is_keyframe(codec, au, false),
{
    lemma_annexb_length_prefixed_agree(au);
}

/// The random-access verdict on an Annex B access unit equals the verdict on
/// its length-prefixed conversion.
pub proof fn lemma_rap_framing_agrees(codec: NalCodec, au: Seq<u8>)
    requires
        crate::annexb::nals_fit_u32(au),
    ensures
        spec_access_unit_is_rap(codec, lp_concat(annexb_nals(au)), true) == spec_access_unit_is_rap(
            codec,
            au,
            false,
        ),
{
    lemma_annexb_length_prefixed_agree(au);
}

/// Every keyframe access unit is a random-access point.
pub proof fn lemma_keyframe_is_rap(codec: NalCodec, au: Seq<u8>, length_prefixed: bool)
    requires
        spec_access_unit_is_keyframe(codec, au, length_prefixed),
    ensures
        spec_access_unit_is_rap(codec, au, length_prefixed),
{
    if codec == NalCodec::Avc {
        let nals = if length_prefixed {
            lp_nals(au)->Ok_0
        } else {
            annexb_nals(au)
        };
        let i = choose|i: int| 0 <= i < nals.len() && #[trigger] spec_is_keyframe_nal(codec, nals[i]);
        assert(spec_is_rap_nal(nals[i]));
    }
}

} // verus!
