//! HLS playlist text (RFC 8216 / RFC 8216bis): the multivariant (master)
//! playlist model with its renderer and parser, the `#EXT-X-KEY` line for
//! `cbcs`-protected CMAF, and the byte-range, map, preload-hint,
//! rendition-report and skip records of the media playlist.
use vstd::prelude::*;
use vstd::string::*;
use crate::error::Error;
use crate::rtp::{hex_enc, hex_encode};
use crate::sdp::{dec, dec_string};
use crate::text::{
    is_attr_sep,
    lacks,
    attr_get, attr_items, chars_of, equals_at, find, find_from, is_ws, parse_uint, parse_uint_at,
    starts_with_at, trim, trim_range,
};

verus! {

/// Common Encryption protection schemes (ISO/IEC 23001-7 §4.2).
#[derive(Debug, Clone, Copy, PartialEq, Eq)]
pub enum CencScheme {
    /// AES-CTR full-sample encryption.
    Cenc,
    /// AES-CBC full-sample encryption.
    Cbc1,
    /// AES-CTR subsample pattern encryption.
    Cens,
    /// AES-CBC subsample pattern encryption.
    Cbcs,
}

/// `KEYFORMAT` for the common-encryption key identification.
pub const CENC_KEYFORMAT: &'static str = "urn:mpeg:dash:mp4protection:2011";

/// `KEYFORMATVERSIONS` for [`CENC_KEYFORMAT`].
pub const CENC_KEYFORMATVERSIONS: &'static str = "1";

/// The `#EXT-X-KEY` line for a `cbcs`-protected track.
pub open spec fn key_line(kid: Seq<u8>, key_uri: Seq<char>) -> Seq<char> {
    "#EXT-X-KEY:METHOD=SAMPLE-AES,URI=\""@ + key_uri + "\",KEYFORMAT=\""@
        + "urn:mpeg:dash:mp4protection:2011"@ + "\",KEYFORMATVERSIONS=\""@ + "1"@
        + "\",KEYID=0x"@ + hex_enc(kid)
}

/// The `#EXT-X-KEY` tag line (`METHOD=SAMPLE-AES`) for a `cbcs`-protected
/// CMAF track with key ID `kid`; `None` for every other scheme, which HLS
/// has no method for.
pub fn cenc_ext_x_key(scheme: CencScheme, kid: &[u8; 16], key_uri: &str) -> (r: Option<String>)
    ensures
        scheme != CencScheme::Cbcs ==> r is None,
        scheme == CencScheme::Cbcs ==> (r matches Some(s) && s@ == key_line(kid@, key_uri@)),
{
    match scheme {
        CencScheme::Cbcs => {},
        _ => {
            return None;
        },
    }
    let mut s = String::new();
    s.append("#EXT-X-KEY:METHOD=SAMPLE-AES,URI=\"");
    s.append(key_uri);
    s.append("\",KEYFORMAT=\"");
    s.append(CENC_KEYFORMAT);
    s.append("\",KEYFORMATVERSIONS=\"");
    s.append(CENC_KEYFORMATVERSIONS);
    s.append("\",KEYID=0x");
    let h = hex_encode(kid.as_slice());
    s.append(h.as_str());
    Some(s)
}

/// A byte sub-range `<n>[@<o>]` of a resource.
#[derive(Debug, Clone, Copy, PartialEq, Eq)]
pub struct ByteRange {
    /// `n` — length of the sub-range in bytes.
    pub length: u64,
    /// `o` — offset of the sub-range from the start of the resource; `None`
    /// continues from the previous sub-range of the same resource.
    pub offset: Option<u64>,
}

/// The `<n>[@<o>]` notation of a byte range.
pub open spec fn byte_range_text(length: u64, offset: Option<u64>) -> Seq<char> {
    match offset {
        Some(o) => dec(length as nat) + "@"@ + dec(o as nat),
        None => dec(length as nat),
    }
}

/// What `<n>[@<o>]` notation reads as: the text before the first `@` is the
/// length, the text after it (if there is an `@`) the offset, each an
/// unsigned 64-bit decimal.
pub open spec fn parse_byte_range(s: Seq<char>) -> Option<(u64, Option<u64>)> {
    let k = find(s, '@');
    match parse_uint(s.take(k as int), u64::MAX as nat) {
        None => None,
        Some(n) => if k >= s.len() {
            Some((n as u64, None))
        } else {
            match parse_uint(s.skip(k + 1int), u64::MAX as nat) {
                Some(o) => Some((n as u64, Some(o as u64))),
                None => None,
            }
        },
    }
}

impl ByteRange {
    /// Render the `<n>[@<o>]` notation.
    pub fn render(&self) -> (r: String)
        ensures
            r@ == byte_range_text(self.length, self.offset),
    {
        let mut s = dec_string(self.length);
        match self.offset {
            Some(o) => {
                s.append("@");
                let t = dec_string(o);
                s.append(t.as_str());
            },
            None => {},
        }
        s
    }

    /// Parse the `<n>[@<o>]` notation; a malformed number is an error
    /// reported at `line_no`.
    pub fn parse(s: &str, line_no: usize) -> (r: Result<ByteRange, Error>)
        ensures
            match parse_byte_range(s@) {
                Some(v) => r matches Ok(b) && b.length == v.0 && b.offset == v.1,
                None => r == Err::<ByteRange, Error>(Error::HlsParse { line_no }),
            },
    {
        let cs = chars_of(s);
        let n = cs.len();
        let k = find_from(&cs, 0, n, '@');
        assert(cs@.subrange(0, n as int) =~= s@);
        assert(cs@.subrange(0, k as int) =~= s@.take(k as int));
        let length = match parse_uint_at(&cs, 0, k, u64::MAX) {
            Some(v) => v,
            None => {
                return Err(Error::HlsParse { line_no });
            },
        };
        if k == n {
            return Ok(ByteRange { length, offset: None });
        }
        assert(cs@.subrange(k + 1, n as int) =~= s@.skip(k + 1int));
        match parse_uint_at(&cs, k + 1, n, u64::MAX) {
            Some(o) => Ok(ByteRange { length, offset: Some(o) }),
            None => Err(Error::HlsParse { line_no }),
        }
    }
}

/// The Media Initialization Section reference of `#EXT-X-MAP`.
#[derive(Debug, Clone, PartialEq, Eq)]
pub struct MapTag {
    /// `URI` of the resource holding the initialization section.
    pub uri: String,
    /// `BYTERANGE` of the initialization section within `uri`; `None` for
    /// the whole resource.
    pub byte_range: Option<ByteRange>,
}

/// The `#EXT-X-MAP:URI="<uri>"[,BYTERANGE="<n>@<o>"]` line.
pub open spec fn map_line(uri: Seq<char>, byte_range: Option<ByteRange>) -> Seq<char> {
    "#EXT-X-MAP:URI=\""@ + uri + "\""@ + match byte_range {
        Some(br) => ",BYTERANGE=\""@ + byte_range_text(br.length, br.offset) + "\""@,
        None => Seq::empty(),
    } + "\n"@
}

/// Append the `#EXT-X-MAP` line of `map` to `s`.
pub fn push_map_line(s: &mut String, map: &MapTag)
    ensures
        final(s)@ == old(s)@ + map_line(map.uri@, map.byte_range),
{
    s.append("#EXT-X-MAP:URI=\"");
    s.append(map.uri.as_str());
    s.append("\"");
    match map.byte_range {
        Some(br) => {
            s.append(",BYTERANGE=\"");
            let t = br.render();
            s.append(t.as_str());
            s.append("\"");
        },
        None => {},
    }
    s.append("\n");
}

/// `TYPE` attribute of `#EXT-X-PRELOAD-HINT`.
#[derive(Debug, Clone, Copy, PartialEq, Eq)]
pub enum PreloadHintType {
    /// `PART` — the hinted resource is a partial segment.
    Part,
    /// `MAP` — the hinted resource is a media initialization section.
    InitSection,
}

impl Default for PreloadHintType {
    fn default() -> (r: Self)
        ensures
            r == PreloadHintType::Part,
    {
        PreloadHintType::Part
    }
}

impl PreloadHintType {
    /// The attribute token.
    pub fn name(&self) -> (r: &'static str)
        ensures
            *self == PreloadHintType::Part ==> r@ == "PART"@,
            *self == PreloadHintType::InitSection ==> r@ == "MAP"@,
    {
        match self {
            PreloadHintType::Part => "PART",
            PreloadHintType::InitSection => "MAP",
        }
    }
}

/// `#EXT-X-RENDITION-REPORT` — how far an associated rendition's own media
/// playlist has progressed.
#[derive(Debug, Clone, PartialEq, Eq, Default)]
pub struct RenditionReport {
    /// `URI` of the rendition's media playlist.
    pub uri: String,
    /// `LAST-MSN` — media sequence number of its last segment.
    pub last_msn: u64,
    /// `LAST-PART` — part index of its last partial segment, if any.
    pub last_part: Option<u64>,
}

/// `#EXT-X-SKIP` — segments elided from a playlist delta update.
#[derive(Debug, Clone, PartialEq, Eq, Default)]
pub struct SkipInfo {
    /// `SKIPPED-SEGMENTS`.
    pub skipped_segments: u64,
    /// `RECENTLY-REMOVED-DATERANGES` IDs; empty when absent.
    pub recently_removed_daterange_ids: Vec<String>,
}

/// A variant stream of a master playlist.
#[derive(Debug, Clone, PartialEq, Eq)]
pub struct Variant {
    /// `BANDWIDTH` in bits per second.
    pub bandwidth: u32,
    /// `CODECS` string.
    pub codecs: String,
    /// `RESOLUTION` as `(width, height)`, if present.
    pub resolution: Option<(u32, u32)>,
    /// URI of the variant's media playlist.
    pub uri: String,
}

/// An I-frame-only rendition of a master playlist.
#[derive(Debug, Clone, PartialEq, Eq)]
pub struct IFrameVariant {
    /// `BANDWIDTH` in bits per second.
    pub bandwidth: u32,
    /// `CODECS` string, when present.
    pub codecs: Option<String>,
    /// `RESOLUTION` as `(width, height)`, when present.
    pub resolution: Option<(u32, u32)>,
    /// URI of the I-frame-only media playlist.
    pub uri: String,
}

/// A master (multivariant) playlist.
#[derive(Debug, Clone, PartialEq, Eq)]
pub struct MasterPlaylist {
    /// `#EXT-X-VERSION`.
    pub version: u8,
    /// Variant streams, in order.
    pub variants: Vec<Variant>,
    /// I-frame-only renditions, in order.
    pub iframe_variants: Vec<IFrameVariant>,
}

/// A variant as text.
pub struct VariantView {
    pub bandwidth: u32,
    pub codecs: Seq<char>,
    pub resolution: Option<(u32, u32)>,
    pub uri: Seq<char>,
}

/// An I-frame rendition as text.
pub struct IFrameView {
    pub bandwidth: u32,
    pub codecs: Option<Seq<char>>,
    pub resolution: Option<(u32, u32)>,
    pub uri: Seq<char>,
}

/// A master playlist as text.
pub struct MasterView {
    pub version: u8,
    pub variants: Seq<VariantView>,
    pub iframes: Seq<IFrameView>,
}

impl View for Variant {
    type V = VariantView;

    open spec fn view(&self) -> VariantView {
        VariantView {
            bandwidth: self.bandwidth,
            codecs: self.codecs@,
            resolution: self.resolution,
            uri: self.uri@,
        }
    }
}

pub open spec fn opt_text(s: Option<String>) -> Option<Seq<char>> {
    match s {
        Some(t) => Some(t@),
        None => None,
    }
}

impl View for IFrameVariant {
    type V = IFrameView;

    open spec fn view(&self) -> IFrameView {
        IFrameView {
            bandwidth: self.bandwidth,
            codecs: opt_text(self.codecs),
            resolution: self.resolution,
            uri: self.uri@,
        }
    }
}

impl View for MasterPlaylist {
    type V = MasterView;

    open spec fn view(&self) -> MasterView {
        MasterView {
            version: self.version,
            variants: self.variants@.map_values(|v: Variant| v@),
            iframes: self.iframe_variants@.map_values(|f: IFrameVariant| f@),
        }
    }
}

/// `,RESOLUTION=<w>x<h>`, or nothing.
pub open spec fn resolution_attr(r: Option<(u32, u32)>) -> Seq<char> {
    match r {
        Some(wh) => ",RESOLUTION="@ + dec(wh.0 as nat) + "x"@ + dec(wh.1 as nat),
        None => Seq::empty(),
    }
}

/// `,CODECS="<c>"`, or nothing.
pub open spec fn codecs_attr(c: Option<Seq<char>>) -> Seq<char> {
    match c {
        Some(t) => ",CODECS=\""@ + t + "\""@,
        None => Seq::empty(),
    }
}

/// The `#EXT-X-STREAM-INF` line of a variant, without its line end.
pub open spec fn stream_inf_line(v: VariantView) -> Seq<char> {
    "#EXT-X-STREAM-INF:"@ + "BANDWIDTH="@ + dec(v.bandwidth as nat) + codecs_attr(Some(v.codecs))
        + resolution_attr(v.resolution)
}

/// A variant's two lines: its `#EXT-X-STREAM-INF` tag and its URI.
pub open spec fn variant_text(v: VariantView) -> Seq<char> {
    stream_inf_line(v) + "\n"@ + v.uri + "\n"@
}

/// The `#EXT-X-I-FRAME-STREAM-INF` line of a rendition, without its line end.
pub open spec fn iframe_line(f: IFrameView) -> Seq<char> {
    "#EXT-X-I-FRAME-STREAM-INF:"@ + "BANDWIDTH="@ + dec(f.bandwidth as nat) + codecs_attr(f.codecs)
        + resolution_attr(f.resolution) + ",URI=\""@ + f.uri + "\""@
}

pub open spec fn iframe_text(f: IFrameView) -> Seq<char> {
    iframe_line(f) + "\n"@
}

pub open spec fn variants_text(vs: Seq<VariantView>) -> Seq<char>
    decreases vs.len(),
{
    if vs.len() == 0 {
        Seq::empty()
    } else {
        variants_text(vs.drop_last()) + variant_text(vs.last())
    }
}

pub open spec fn iframes_text(fs: Seq<IFrameView>) -> Seq<char>
    decreases fs.len(),
{
    if fs.len() == 0 {
        Seq::empty()
    } else {
        iframes_text(fs.drop_last()) + iframe_text(fs.last())
    }
}

/// The header lines of a master playlist.
pub open spec fn master_header(version: u8) -> Seq<char> {
    "#EXTM3U\n"@ + "#EXT-X-VERSION:"@ + dec(version as nat) + "\n"@
}

/// A master playlist as `#EXTM3U` text: the header, each variant's tag
/// and URI lines, then each I-frame rendition's line.
pub open spec fn master_text(m: MasterView) -> Seq<char> {
    master_header(m.version) + variants_text(m.variants) + iframes_text(m.iframes)
}

fn push_resolution(s: &mut String, r: Option<(u32, u32)>)
    ensures
        final(s)@ == old(s)@ + resolution_attr(r),
{
    match r {
        Some((w, h)) => {
            s.append(",RESOLUTION=");
            let t = dec_string(w as u64);
            s.append(t.as_str());
            s.append("x");
            let t = dec_string(h as u64);
            s.append(t.as_str());
        },
        None => {},
    }
}

fn push_variant(s: &mut String, v: &Variant)
    ensures
        final(s)@ == old(s)@ + variant_text(v@),
{
    s.append("#EXT-X-STREAM-INF:");
    s.append("BANDWIDTH=");
    let t = dec_string(v.bandwidth as u64);
    s.append(t.as_str());
    s.append(",CODECS=\"");
    s.append(v.codecs.as_str());
    s.append("\"");
    push_resolution(s, v.resolution);
    s.append("\n");
    s.append(v.uri.as_str());
    s.append("\n");
    assert(final(s)@ =~= old(s)@ + variant_text(v@));
}

fn push_iframe(s: &mut String, f: &IFrameVariant)
    ensures
        final(s)@ == old(s)@ + iframe_text(f@),
{
    s.append("#EXT-X-I-FRAME-STREAM-INF:");
    s.append("BANDWIDTH=");
    let t = dec_string(f.bandwidth as u64);
    s.append(t.as_str());
    match &f.codecs {
        Some(c) => {
            s.append(",CODECS=\"");
            s.append(c.as_str());
            s.append("\"");
        },
        None => {},
    }
    push_resolution(s, f.resolution);
    s.append(",URI=\"");
    s.append(f.uri.as_str());
    s.append("\"");
    s.append("\n");
    assert(final(s)@ =~= old(s)@ + iframe_text(f@));
}

impl MasterPlaylist {
    /// Render this master playlist as `#EXTM3U` text.
    pub fn to_m3u8(&self) -> (r: String)
        ensures
            r@ == master_text(self@),
    {
        let mut s = String::new();
        s.append("#EXTM3U\n");
        s.append("#EXT-X-VERSION:");
        let t = dec_string(self.version as u64);
        s.append(t.as_str());
        s.append("\n");
        let ghost head = s@;
        let ghost vs = self@.variants;
        let n = self.variants.len();
        let mut i: usize = 0;
        while i < n
            invariant
                n == self.variants.len(),
                vs == self@.variants,
                i <= n,
                s@ == head + variants_text(vs.take(i as int)),
            decreases n - i,
        {
            push_variant(&mut s, &self.variants[i]);
            assert(vs.take(i + 1).drop_last() =~= vs.take(i as int));
            i = i + 1;
        }
        assert(vs.take(n as int) =~= vs);
        let ghost mid = s@;
        let ghost fs = self@.iframes;
        let m = self.iframe_variants.len();
        let mut j: usize = 0;
        while j < m
            invariant
                m == self.iframe_variants.len(),
                fs == self@.iframes,
                j <= m,
                s@ == mid + iframes_text(fs.take(j as int)),
            decreases m - j,
        {
            push_iframe(&mut s, &self.iframe_variants[j]);
            assert(fs.take(j + 1).drop_last() =~= fs.take(j as int));
            j = j + 1;
        }
        assert(fs.take(m as int) =~= fs);
        assert(s@ =~= master_text(self@));
        s
    }
}

/// What the lines of a master playlist read so far have given.
pub struct MasterState {
    pub version: u8,
    pub variants: Seq<VariantView>,
    pub iframes: Seq<IFrameView>,
    pub saw_header: bool,
    /// A `#EXT-X-STREAM-INF` still waiting for its URI line.
    pub pending: Option<(u32, Seq<char>, Option<(u32, u32)>)>,
}

pub open spec fn master_init() -> MasterState {
    MasterState {
        version: 1,
        variants: Seq::empty(),
        iframes: Seq::empty(),
        saw_header: false,
        pending: None,
    }
}

/// A line without the byte-order mark that may open the first line.
pub open spec fn bom_stripped(line: Seq<char>, line_no: nat) -> Seq<char> {
    if line_no == 1 && line.len() > 0 && line[0] == '\u{feff}' {
        line.drop_first()
    } else {
        line
    }
}

pub open spec fn has_prefix(t: Seq<char>, p: Seq<char>) -> bool {
    p.len() <= t.len() && t.take(p.len() as int) == p
}

/// `BANDWIDTH`, which must be present and fit in 32 bits.
pub open spec fn bandwidth_attr(items: Seq<(Seq<char>, Seq<char>)>) -> Option<u32> {
    match attr_get(items, "BANDWIDTH"@) {
        Some(b) => match parse_uint(b, u32::MAX as nat) {
            Some(n) => Some(n as u32),
            None => None,
        },
        None => None,
    }
}

/// A `<width>x<height>` value: the text before the first `x` and the text
/// after it, each a 32-bit decimal.
pub open spec fn parse_resolution(v: Seq<char>) -> Option<(u32, u32)> {
    let k = find(v, 'x');
    if k >= v.len() {
        None
    } else {
        match (parse_uint(v.take(k as int), u32::MAX as nat), parse_uint(v.skip(k + 1int), u32::MAX as nat)) {
            (Some(w), Some(h)) => Some((w as u32, h as u32)),
            _ => None,
        }
    }
}

/// `RESOLUTION`, optional: `Some(None)` when absent, `None` when malformed.
pub open spec fn resolution_of(items: Seq<(Seq<char>, Seq<char>)>) -> Option<Option<(u32, u32)>> {
    match attr_get(items, "RESOLUTION"@) {
        None => Some(None),
        Some(v) => match parse_resolution(v) {
            Some(r) => Some(Some(r)),
            None => None,
        },
    }
}

/// The attributes of `#EXT-X-STREAM-INF`: bandwidth, codecs (empty when
/// absent) and resolution.
pub open spec fn stream_inf(items: Seq<(Seq<char>, Seq<char>)>) -> Option<(u32, Seq<char>, Option<(u32, u32)>)> {
    match (bandwidth_attr(items), resolution_of(items)) {
        (Some(bw), Some(res)) => Some(
            (
                bw,
                match attr_get(items, "CODECS"@) {
                    Some(c) => c,
                    None => Seq::empty(),
                },
                res,
            ),
        ),
        _ => None,
    }
}

/// The attributes of `#EXT-X-I-FRAME-STREAM-INF`, of which `URI` is required.
pub open spec fn iframe_inf(items: Seq<(Seq<char>, Seq<char>)>) -> Option<IFrameView> {
    match (bandwidth_attr(items), resolution_of(items), attr_get(items, "URI"@)) {
        (Some(bw), Some(res), Some(uri)) => Some(
            IFrameView { bandwidth: bw, codecs: attr_get(items, "CODECS"@), resolution: res, uri },
        ),
        _ => None,
    }
}

/// One line of a master playlist, numbered from 1: `None` when the line is
/// malformed. Lines are trimmed; blank lines, unknown tags and comments are
/// skipped; a URI line closes the pending `#EXT-X-STREAM-INF`.
pub open spec fn master_line(st: MasterState, line: Seq<char>, line_no: nat) -> Option<MasterState> {
    let t = trim(bom_stripped(line, line_no));
    if t.len() == 0 {
        Some(st)
    } else if t == "#EXTM3U"@ {
        Some(MasterState { saw_header: true, ..st })
    } else if has_prefix(t, "#EXT-X-VERSION:"@) {
        match parse_uint(t.skip("#EXT-X-VERSION:"@.len() as int), 255) {
            Some(v) => Some(MasterState { version: v as u8, ..st }),
            None => None,
        }
    } else if has_prefix(t, "#EXT-X-STREAM-INF:"@) {
        match stream_inf(attr_items(t.skip("#EXT-X-STREAM-INF:"@.len() as int))) {
            Some(p) => Some(MasterState { pending: Some(p), ..st }),
            None => None,
        }
    } else if has_prefix(t, "#EXT-X-I-FRAME-STREAM-INF:"@) {
        match iframe_inf(attr_items(t.skip("#EXT-X-I-FRAME-STREAM-INF:"@.len() as int))) {
            Some(f) => Some(MasterState { iframes: st.iframes.push(f), ..st }),
            None => None,
        }
    } else if t[0] == '#' {
        Some(st)
    } else {
        match st.pending {
            None => None,
            Some(p) => Some(
                MasterState {
                    variants: st.variants.push(
                        VariantView { bandwidth: p.0, codecs: p.1, resolution: p.2, uri: t },
                    ),
                    pending: None,
                    ..st
                },
            ),
        }
    }
}

/// The lines of `s` (split at `\n`), the first numbered `line_no`: the
/// state after the last, or the number of the first malformed line.
pub open spec fn master_lines(st: MasterState, s: Seq<char>, line_no: nat) -> Result<MasterState, nat>
    decreases s.len(),
{
    let k = find(s, '\n');
    match master_line(st, s.take(k as int), line_no) {
        None => Err(line_no),
        Some(st2) => if k >= s.len() {
            Ok(st2)
        } else {
            proof {
                crate::text::lemma_find_bound(s, '\n');
            }
            master_lines(st2, s.skip(k + 1int), line_no + 1)
        },
    }
}

/// What a master playlist text reads as: the playlist, or the number of
/// the line at fault (line 1 when `#EXTM3U` is missing).
pub open spec fn parse_master(s: Seq<char>) -> Result<MasterView, nat> {
    match master_lines(master_init(), s, 1) {
        Err(n) => Err(n),
        Ok(st) => if st.saw_header {
            Ok(MasterView { version: st.version, variants: st.variants, iframes: st.iframes })
        } else {
            Err(1)
        },
    }
}

struct MasterParse {
    version: u8,
    variants: Vec<Variant>,
    iframes: Vec<IFrameVariant>,
    saw_header: bool,
    pending: Option<(u32, String, Option<(u32, u32)>)>,
}

impl View for MasterParse {
    type V = MasterState;

    closed spec fn view(&self) -> MasterState {
        MasterState {
            version: self.version,
            variants: self.variants@.map_values(|v: Variant| v@),
            iframes: self.iframes@.map_values(|f: IFrameVariant| f@),
            saw_header: self.saw_header,
            pending: match self.pending {
                Some(p) => Some((p.0, p.1@, p.2)),
                None => None,
            },
        }
    }
}

fn substring(input: &str, cs: &Vec<char>, a: usize, b: usize) -> (r: String)
    requires
        cs@ == input@,
        a <= b <= cs.len(),
    ensures
        r@ == cs@.subrange(a as int, b as int),
{
    input.substring_char(a, b).to_owned()
}

fn bandwidth_exec(cs: &Vec<char>, items: &Vec<(usize, usize, usize, usize)>) -> (r: Option<u32>)
    requires
        crate::text::ranges_ok(items@, 0, cs@.len() as int),
    ensures
        r == bandwidth_attr(crate::text::ranges_view(cs@, items@)),
{
    match crate::text::find_attr(cs, items, "BANDWIDTH") {
        Some((x, y)) => match parse_uint_at(cs, x, y, 0xFFFF_FFFF) {
            Some(v) => Some(v as u32),
            None => None,
        },
        None => None,
    }
}

fn resolution_exec(cs: &Vec<char>, lo: usize, hi: usize) -> (r: Option<(u32, u32)>)
    requires
        lo <= hi <= cs.len(),
    ensures
        r == parse_resolution(cs@.subrange(lo as int, hi as int)),
{
    let k = find_from(cs, lo, hi, 'x');
    if k == hi {
        return None;
    }
    let ghost v = cs@.subrange(lo as int, hi as int);
    assert(v.take(k - lo) =~= cs@.subrange(lo as int, k as int));
    assert(v.skip(k - lo + 1) =~= cs@.subrange(k + 1, hi as int));
    let w = parse_uint_at(cs, lo, k, 0xFFFF_FFFF);
    let h = parse_uint_at(cs, k + 1, hi, 0xFFFF_FFFF);
    match (w, h) {
        (Some(w), Some(h)) => Some((w as u32, h as u32)),
        _ => None,
    }
}

fn resolution_of_exec(cs: &Vec<char>, items: &Vec<(usize, usize, usize, usize)>) -> (r: Option<
    Option<(u32, u32)>,
>)
    requires
        crate::text::ranges_ok(items@, 0, cs@.len() as int),
    ensures
        r == resolution_of(crate::text::ranges_view(cs@, items@)),
{
    match crate::text::find_attr(cs, items, "RESOLUTION") {
        None => Some(None),
        Some((x, y)) => match resolution_exec(cs, x, y) {
            Some(wh) => Some(Some(wh)),
            None => None,
        },
    }
}

fn codecs_exec(input: &str, cs: &Vec<char>, items: &Vec<(usize, usize, usize, usize)>) -> (r: Option<String>)
    requires
        cs@ == input@,
        crate::text::ranges_ok(items@, 0, cs@.len() as int),
    ensures
        opt_text(r) == attr_get(crate::text::ranges_view(cs@, items@), "CODECS"@),
{
    match crate::text::find_attr(cs, items, "CODECS") {
        Some((x, y)) => Some(substring(input, cs, x, y)),
        None => None,
    }
}

fn stream_inf_exec(input: &str, cs: &Vec<char>, lo: usize, hi: usize) -> (r: Option<
    (u32, String, Option<(u32, u32)>),
>)
    requires
        cs@ == input@,
        lo <= hi <= cs.len(),
    ensures
        r is Some <==> stream_inf(attr_items(cs@.subrange(lo as int, hi as int))) is Some,
        r matches Some(p) ==> (p.0, p.1@, p.2) == stream_inf(
            attr_items(cs@.subrange(lo as int, hi as int)),
        )->0,
{
    let items = crate::text::attr_ranges(cs, lo, hi);
    assert(crate::text::ranges_ok(items@, 0, cs@.len() as int));
    let bw = bandwidth_exec(cs, &items);
    let res = resolution_of_exec(cs, &items);
    match (bw, res) {
        (Some(bw), Some(res)) => {
            let codecs = match codecs_exec(input, cs, &items) {
                Some(c) => c,
                None => String::new(),
            };
            Some((bw, codecs, res))
        },
        _ => None,
    }
}

fn iframe_inf_exec(input: &str, cs: &Vec<char>, lo: usize, hi: usize) -> (r: Option<IFrameVariant>)
    requires
        cs@ == input@,
        lo <= hi <= cs.len(),
    ensures
        r is Some <==> iframe_inf(attr_items(cs@.subrange(lo as int, hi as int))) is Some,
        r matches Some(f) ==> f@ == iframe_inf(attr_items(cs@.subrange(lo as int, hi as int)))->0,
{
    let items = crate::text::attr_ranges(cs, lo, hi);
    assert(crate::text::ranges_ok(items@, 0, cs@.len() as int));
    let bw = bandwidth_exec(cs, &items);
    let res = resolution_of_exec(cs, &items);
    let uri = crate::text::find_attr(cs, &items, "URI");
    match (bw, res, uri) {
        (Some(bandwidth), Some(resolution), Some((x, y))) => {
            let codecs = codecs_exec(input, cs, &items);
            let uri = substring(input, cs, x, y);
            Some(IFrameVariant { bandwidth, codecs, resolution, uri })
        },
        _ => None,
    }
}

fn master_line_exec(
    input: &str,
    cs: &Vec<char>,
    lo: usize,
    hi: usize,
    line_no: usize,
    st: &mut MasterParse,
) -> (ok: bool)
    requires
        cs@ == input@,
        lo <= hi <= cs.len(),
    ensures
        ok == master_line(old(st)@, cs@.subrange(lo as int, hi as int), line_no as nat) is Some,
        ok ==> final(st)@ == master_line(
            old(st)@,
            cs@.subrange(lo as int, hi as int),
            line_no as nat,
        )->0,
{
    let ghost line = cs@.subrange(lo as int, hi as int);
    let mut lo2 = lo;
    if line_no == 1 && lo < hi && cs[lo] == '\u{feff}' {
        lo2 = lo + 1;
    }
    assert(bom_stripped(line, line_no as nat) =~= cs@.subrange(lo2 as int, hi as int));
    let (a, b) = trim_range(cs, lo2, hi);
    let ghost t = cs@.subrange(a as int, b as int);
    if a == b {
        return true;
    }
    if equals_at(cs, a, b, "#EXTM3U") {
        st.saw_header = true;
        return true;
    }
    if starts_with_at(cs, a, b, "#EXT-X-VERSION:") {
        let n = "#EXT-X-VERSION:".unicode_len();
        assert(t.take(n as int) =~= cs@.subrange(a as int, a + n));
        assert(t.skip(n as int) =~= cs@.subrange(a + n, b as int));
        match parse_uint_at(cs, a + n, b, 255) {
            Some(v) => {
                st.version = v as u8;
                return true;
            },
            None => {
                return false;
            },
        }
    }
    assert(!has_prefix(t, "#EXT-X-VERSION:"@)) by {
        if "#EXT-X-VERSION:"@.len() <= t.len() {
            assert(t.take("#EXT-X-VERSION:"@.len() as int) =~= cs@.subrange(
                a as int,
                a + "#EXT-X-VERSION:"@.len(),
            ));
        }
    }
    if starts_with_at(cs, a, b, "#EXT-X-STREAM-INF:") {
        let n = "#EXT-X-STREAM-INF:".unicode_len();
        assert(t.take(n as int) =~= cs@.subrange(a as int, a + n));
        assert(t.skip(n as int) =~= cs@.subrange(a + n, b as int));
        match stream_inf_exec(input, cs, a + n, b) {
            Some(p) => {
                st.pending = Some(p);
                return true;
            },
            None => {
                return false;
            },
        }
    }
    assert(!has_prefix(t, "#EXT-X-STREAM-INF:"@)) by {
        if "#EXT-X-STREAM-INF:"@.len() <= t.len() {
            assert(t.take("#EXT-X-STREAM-INF:"@.len() as int) =~= cs@.subrange(
                a as int,
                a + "#EXT-X-STREAM-INF:"@.len(),
            ));
        }
    }
    if starts_with_at(cs, a, b, "#EXT-X-I-FRAME-STREAM-INF:") {
        let n = "#EXT-X-I-FRAME-STREAM-INF:".unicode_len();
        assert(t.take(n as int) =~= cs@.subrange(a as int, a + n));
        assert(t.skip(n as int) =~= cs@.subrange(a + n, b as int));
        match iframe_inf_exec(input, cs, a + n, b) {
            Some(f) => {
                let ghost before = st@.iframes;
                st.iframes.push(f);
                assert(st@.iframes =~= before.push(f@));
                return true;
            },
            None => {
                return false;
            },
        }
    }
    assert(!has_prefix(t, "#EXT-X-I-FRAME-STREAM-INF:"@)) by {
        if "#EXT-X-I-FRAME-STREAM-INF:"@.len() <= t.len() {
            assert(t.take("#EXT-X-I-FRAME-STREAM-INF:"@.len() as int) =~= cs@.subrange(
                a as int,
                a + "#EXT-X-I-FRAME-STREAM-INF:"@.len(),
            ));
        }
    }
    if cs[a] == '#' {
        return true;
    }
    let mut pend: Option<(u32, String, Option<(u32, u32)>)> = None;
    std::mem::swap(&mut pend, &mut st.pending);
    match pend {
        None => false,
        Some((bandwidth, codecs, resolution)) => {
            let uri = substring(input, cs, a, b);
            let ghost before = st@.variants;
            st.variants.push(Variant { bandwidth, codecs, resolution, uri });
            assert(st@.variants =~= before.push(
                VariantView { bandwidth, codecs: codecs@, resolution, uri: t },
            ));
            true
        },
    }
}

impl MasterPlaylist {
    /// Parse a master playlist. Tags other than `#EXTM3U`, `#EXT-X-VERSION`,
    /// `#EXT-X-STREAM-INF` and `#EXT-X-I-FRAME-STREAM-INF` are skipped; a
    /// malformed known tag, a URI line without a preceding
    /// `#EXT-X-STREAM-INF`, or a missing `#EXTM3U` is an error.
    pub fn parse(input: &str) -> (r: Result<MasterPlaylist, Error>)
        requires
            input@.len() < usize::MAX,
        ensures
            match parse_master(input@) {
                Ok(v) => r matches Ok(pl) && pl@ == v,
                Err(n) => r == Err::<MasterPlaylist, Error>(Error::HlsParse { line_no: n as usize }),
            },
    {
        let cs = chars_of(input);
        let n = cs.len();
        let mut st = MasterParse {
            version: 1,
            variants: Vec::new(),
            iframes: Vec::new(),
            saw_header: false,
            pending: None,
        };
        assert(st@.variants =~= Seq::<VariantView>::empty());
        assert(st@.iframes =~= Seq::<IFrameView>::empty());
        assert(cs@.subrange(0, n as int) =~= input@);
        let mut pos: usize = 0;
        let mut line_no: usize = 1;
        loop
            invariant_except_break
                pos <= n,
                1 <= line_no <= pos + 1,
                master_lines(st@, cs@.subrange(pos as int, n as int), line_no as nat) == master_lines(
                    master_init(),
                    input@,
                    1,
                ),
            invariant
                n == cs.len(),
                cs@ == input@,
                n < usize::MAX,
            ensures
                master_lines(master_init(), input@, 1) == Ok::<MasterState, nat>(st@),
            decreases n - pos,
        {
            let ghost s = cs@.subrange(pos as int, n as int);
            let ghost before = st@;
            let k = find_from(&cs, pos, n, '\n');
            assert(s.take(k - pos) =~= cs@.subrange(pos as int, k as int));
            let ok = master_line_exec(input, &cs, pos, k, line_no, &mut st);
            if !ok {
                return Err(Error::HlsParse { line_no });
            }
            if k == n {
                break;
            }
            assert(s.skip(k - pos + 1) =~= cs@.subrange(k + 1, n as int));
            pos = k + 1;
            line_no = line_no + 1;
        }
        if !st.saw_header {
            return Err(Error::HlsParse { line_no: 1 });
        }
        Ok(MasterPlaylist { version: st.version, variants: st.variants, iframe_variants: st.iframes })
    }
}

proof fn lemma_literals()
    ensures
        "#EXTM3U"@.len() == 7,
        "#EXTM3U"@[4] == 'M',
        "#EXTM3U"@[6] == 'U',
        "#EXTM3U\n"@ == "#EXTM3U"@ + "\n"@,
        "\n"@ == seq!['\n'],
        "#EXT-X-VERSION:"@.len() == 15,
        "#EXT-X-VERSION:"@[7] == 'V',
        "#EXT-X-STREAM-INF:"@.len() == 18,
        "#EXT-X-STREAM-INF:"@[7] == 'S',
        "#EXT-X-I-FRAME-STREAM-INF:"@.len() == 26,
        "#EXT-X-I-FRAME-STREAM-INF:"@[7] == 'I',
        lacks("#EXTM3U"@, '\n'),
        lacks("#EXT-X-VERSION:"@, '\n'),
        lacks("#EXT-X-STREAM-INF:"@, '\n'),
        lacks("#EXT-X-I-FRAME-STREAM-INF:"@, '\n'),
        "#EXTM3U"@[0] == '#',
        "#EXT-X-VERSION:"@[0] == '#',
        "#EXT-X-STREAM-INF:"@[0] == '#',
        "#EXT-X-I-FRAME-STREAM-INF:"@[0] == '#',
{
    reveal_strlit("#EXTM3U");
    reveal_strlit("#EXTM3U\n");
    reveal_strlit("\n");
    reveal_strlit("#EXT-X-VERSION:");
    reveal_strlit("#EXT-X-STREAM-INF:");
    reveal_strlit("#EXT-X-I-FRAME-STREAM-INF:");
    assert("#EXTM3U\n"@ =~= "#EXTM3U"@ + "\n"@);
    assert("\n"@ =~= seq!['\n']);
}

proof fn lemma_attr_literals()
    ensures
        "BANDWIDTH="@ == "BANDWIDTH"@ + seq!['='],
        ",CODECS=\""@ == seq![','] + "CODECS"@ + seq!['=', '"'],
        "\""@ == seq!['"'],
        ",RESOLUTION="@ == seq![','] + "RESOLUTION"@ + seq!['='],
        ",URI=\""@ == seq![','] + "URI"@ + seq!['=', '"'],
        "x"@ == seq!['x'],
        "BANDWIDTH"@.len() == 9,
        "CODECS"@.len() == 6,
        "RESOLUTION"@.len() == 10,
        "URI"@.len() == 3,
        !is_attr_sep("BANDWIDTH"@[0]),
        !is_attr_sep("CODECS"@[0]),
        !is_attr_sep("RESOLUTION"@[0]),
        !is_attr_sep("URI"@[0]),
        lacks("BANDWIDTH"@, '='),
        lacks("CODECS"@, '='),
        lacks("RESOLUTION"@, '='),
        lacks("URI"@, '='),
        lacks("BANDWIDTH="@, '\n'),
        lacks(",CODECS=\""@, '\n'),
        lacks(",RESOLUTION="@, '\n'),
        lacks(",URI=\""@, '\n'),
{
    reveal_strlit("BANDWIDTH=");
    reveal_strlit("BANDWIDTH");
    reveal_strlit(",CODECS=\"");
    reveal_strlit("CODECS");
    reveal_strlit("\"");
    reveal_strlit(",RESOLUTION=");
    reveal_strlit("RESOLUTION");
    reveal_strlit(",URI=\"");
    reveal_strlit("URI");
    reveal_strlit("x");
    assert("BANDWIDTH="@ =~= "BANDWIDTH"@ + seq!['=']);
    assert(",CODECS=\""@ =~= seq![','] + "CODECS"@ + seq!['=', '"']);
    assert("\""@ =~= seq!['"']);
    assert(",RESOLUTION="@ =~= seq![','] + "RESOLUTION"@ + seq!['=']);
    assert(",URI=\""@ =~= seq![','] + "URI"@ + seq!['=', '"']);
    assert("x"@ =~= seq!['x']);
}

/// Text that can stand in a quoted attribute value on one line.
pub open spec fn quotable(s: Seq<char>) -> bool {
    lacks(s, '"') && lacks(s, '\n')
}

/// A URI that can stand on a line of its own: not empty, not a tag or
/// comment, without surrounding whitespace or a line break.
pub open spec fn uri_line_ok(u: Seq<char>) -> bool {
    &&& u.len() > 0
    &&& u[0] != '#'
    &&& !is_ws(u[0])
    &&& !is_ws(u.last())
    &&& lacks(u, '\n')
}

/// The master playlists whose text reads back as themselves: codecs and
/// I-frame URIs free of quotes and line breaks, variant URIs that can
/// stand on a line of their own.
pub open spec fn master_round_trips(m: MasterView) -> bool {
    &&& forall|i: int|
        0 <= i < m.variants.len() ==> quotable(#[trigger] m.variants[i].codecs) && uri_line_ok(
            m.variants[i].uri,
        )
    &&& forall|i: int|
        0 <= i < m.iframes.len() ==> quotable(#[trigger] m.iframes[i].uri) && (
        m.iframes[i].codecs matches Some(c) ==> quotable(c))
}

pub open spec fn codecs_items(c: Option<Seq<char>>) -> Seq<(Seq<char>, Seq<char>)> {
    match c {
        Some(t) => seq![("CODECS"@, t)],
        None => Seq::empty(),
    }
}

pub open spec fn res_items(r: Option<(u32, u32)>) -> Seq<(Seq<char>, Seq<char>)> {
    match r {
        Some(wh) => seq![("RESOLUTION"@, dec(wh.0 as nat) + "x"@ + dec(wh.1 as nat))],
        None => Seq::empty(),
    }
}

proof fn lemma_codecs_items(c: Option<Seq<char>>, rest: Seq<char>)
    requires
        c matches Some(t) ==> quotable(t),
    ensures
        attr_items(codecs_attr(c) + rest) == codecs_items(c) + attr_items(rest),
        lacks(codecs_attr(c), '\n'),
        c is Some ==> codecs_attr(c).len() > 0 && codecs_attr(c)[0] == ',' && codecs_attr(c).last() == '"',
{
    lemma_attr_literals();
    match c {
        Some(t) => {
            let body = "CODECS"@ + seq!['=', '"'] + t + seq!['"'] + rest;
            assert(codecs_attr(c) + rest =~= seq![','] + body);
            crate::text::lemma_attr_comma(body);
            crate::text::lemma_attr_quoted("CODECS"@, t, rest);
            crate::text::lemma_lacks_add(",CODECS=\""@, t, '\n');
            crate::text::lemma_lacks_add(",CODECS=\""@ + t, "\""@, '\n');
        },
        None => {
            assert(codecs_attr(c) + rest =~= rest);
            assert(codecs_items(c) + attr_items(rest) =~= attr_items(rest));
        },
    }
}

proof fn lemma_res_items(r: Option<(u32, u32)>, rest: Seq<char>)
    requires
        rest.len() == 0 || rest[0] == ',',
    ensures
        attr_items(resolution_attr(r) + rest) == res_items(r) + attr_items(rest),
        lacks(resolution_attr(r), '\n'),
        r is Some ==> resolution_attr(r).len() > 0 && resolution_attr(r)[0] == ','
            && crate::text::is_digit(resolution_attr(r).last()),
{
    lemma_attr_literals();
    match r {
        Some(wh) => {
            let dw = dec(wh.0 as nat);
            let dh = dec(wh.1 as nat);
            crate::text::lemma_dec_digits(wh.0 as nat);
            crate::text::lemma_dec_digits(wh.1 as nat);
            crate::text::lemma_digits_lack(dw);
            crate::text::lemma_digits_lack(dh);
            let v = dw + "x"@ + dh;
            crate::text::lemma_lacks_add(dw, "x"@, ',');
            crate::text::lemma_lacks_add(dw + "x"@, dh, ',');
            assert(v[0] == dw[0]);
            assert(crate::text::is_digit(dw[0]));
            let body = "RESOLUTION"@ + seq!['='] + v + rest;
            assert(resolution_attr(r) + rest =~= seq![','] + body);
            crate::text::lemma_attr_comma(body);
            crate::text::lemma_attr_unquoted("RESOLUTION"@, v, rest);
            crate::text::lemma_lacks_add(",RESOLUTION="@, dw, '\n');
            crate::text::lemma_lacks_add(",RESOLUTION="@ + dw, "x"@, '\n');
            crate::text::lemma_lacks_add(",RESOLUTION="@ + dw + "x"@, dh, '\n');
            assert(resolution_attr(r).last() == dh.last());
            assert(crate::text::is_digit(dh[dh.len() - 1]));
        },
        None => {
            assert(resolution_attr(r) + rest =~= rest);
            assert(res_items(r) + attr_items(rest) =~= attr_items(rest));
        },
    }
}

proof fn lemma_get_found(
    xs: Seq<(Seq<char>, Seq<char>)>,
    v: Seq<char>,
    ys: Seq<(Seq<char>, Seq<char>)>,
    key: Seq<char>,
)
    requires
        forall|k: int| 0 <= k < ys.len() ==> (#[trigger] ys[k]).0 != key,
    ensures
        attr_get(xs + seq![(key, v)] + ys, key) == Some(v),
{
    crate::text::lemma_attr_get_tail(xs + seq![(key, v)], ys, key);
    assert((xs + seq![(key, v)]).last() == (key, v));
}

proof fn lemma_get_absent(ys: Seq<(Seq<char>, Seq<char>)>, key: Seq<char>)
    requires
        forall|k: int| 0 <= k < ys.len() ==> (#[trigger] ys[k]).0 != key,
    ensures
        attr_get(ys, key) is None,
{
    crate::text::lemma_attr_get_tail(Seq::empty(), ys, key);
    assert(Seq::<(Seq<char>, Seq<char>)>::empty() + ys =~= ys);
}

/// What the attributes of a rendered `#EXT-X-STREAM-INF` line read as.
proof fn lemma_stream_inf_attrs(v: VariantView)
    requires
        quotable(v.codecs),
    ensures
        stream_inf(
            attr_items(
                "BANDWIDTH="@ + dec(v.bandwidth as nat) + codecs_attr(Some(v.codecs)) + resolution_attr(
                    v.resolution,
                ),
            ),
        ) == Some((v.bandwidth, v.codecs, v.resolution)),
{
    lemma_attr_literals();
    let d = dec(v.bandwidth as nat);
    crate::text::lemma_dec_digits(v.bandwidth as nat);
    crate::text::lemma_digits_lack(d);
    assert(crate::text::is_digit(d[0]));
    let r3 = resolution_attr(v.resolution);
    lemma_res_items(v.resolution, Seq::empty());
    assert(r3 + Seq::<char>::empty() =~= r3);
    assert(res_items(v.resolution) + attr_items(Seq::<char>::empty()) =~= res_items(v.resolution));
    lemma_codecs_items(Some(v.codecs), r3);
    let r1 = codecs_attr(Some(v.codecs)) + r3;
    let a = "BANDWIDTH="@ + d + codecs_attr(Some(v.codecs)) + r3;
    assert(a =~= "BANDWIDTH"@ + seq!['='] + d + r1);
    crate::text::lemma_attr_unquoted("BANDWIDTH"@, d, r1);
    let items = attr_items(a);
    let cv = v.codecs;
    assert(items =~= seq![("BANDWIDTH"@, d)] + seq![("CODECS"@, cv)] + res_items(v.resolution));
    let ri = res_items(v.resolution);
    assert forall|k: int| 0 <= k < ri.len() implies (#[trigger] ri[k]).0 != "CODECS"@ && ri[k].0
        != "BANDWIDTH"@ by {}
    lemma_get_found(seq![("BANDWIDTH"@, d)], cv, ri, "CODECS"@);
    assert forall|k: int| 0 <= k < (seq![("CODECS"@, cv)] + ri).len() implies (#[trigger] (seq![
        ("CODECS"@, cv),
    ] + ri)[k]).0 != "BANDWIDTH"@ by {
        if k > 0 {
            assert((seq![("CODECS"@, cv)] + ri)[k] == ri[k - 1]);
        }
    }
    assert(items =~= Seq::empty() + seq![("BANDWIDTH"@, d)] + (seq![("CODECS"@, cv)] + ri));
    lemma_get_found(Seq::empty(), d, seq![("CODECS"@, cv)] + ri, "BANDWIDTH"@);
    crate::text::lemma_parse_dec(v.bandwidth as nat, u32::MAX as nat);
    match v.resolution {
        Some(wh) => {
            assert(items =~= seq![("BANDWIDTH"@, d), ("CODECS"@, cv)] + seq![
                ("RESOLUTION"@, dec(wh.0 as nat) + "x"@ + dec(wh.1 as nat)),
            ] + Seq::empty());
            lemma_get_found(
                seq![("BANDWIDTH"@, d), ("CODECS"@, cv)],
                dec(wh.0 as nat) + "x"@ + dec(wh.1 as nat),
                Seq::empty(),
                "RESOLUTION"@,
            );
            lemma_resolution_text(wh.0, wh.1);
        },
        None => {
            assert forall|k: int| 0 <= k < items.len() implies (#[trigger] items[k]).0
                != "RESOLUTION"@ by {}
            lemma_get_absent(items, "RESOLUTION"@);
        },
    }
}

proof fn lemma_resolution_text(w: u32, h: u32)
    ensures
        parse_resolution(dec(w as nat) + "x"@ + dec(h as nat)) == Some((w, h)),
{
    lemma_attr_literals();
    let dw = dec(w as nat);
    let dh = dec(h as nat);
    let v = dw + "x"@ + dh;
    crate::text::lemma_dec_digits(w as nat);
    crate::text::lemma_digits_lack(dw);
    crate::text::lemma_find_at(v, 'x', dw.len() as int);
    assert(v.take(dw.len() as int) =~= dw);
    assert(v.skip(dw.len() + 1int) =~= dh);
    crate::text::lemma_parse_dec(w as nat, u32::MAX as nat);
    crate::text::lemma_parse_dec(h as nat, u32::MAX as nat);
}

pub open spec fn uri_attr(u: Seq<char>) -> Seq<char> {
    ",URI=\""@ + u + "\""@
}

/// What the attributes of a rendered `#EXT-X-I-FRAME-STREAM-INF` line read as.
proof fn lemma_iframe_attrs(f: IFrameView)
    requires
        quotable(f.uri),
        f.codecs matches Some(c) ==> quotable(c),
    ensures
        iframe_inf(
            attr_items(
                "BANDWIDTH="@ + dec(f.bandwidth as nat) + codecs_attr(f.codecs) + resolution_attr(
                    f.resolution,
                ) + uri_attr(f.uri),
            ),
        ) == Some(f),
{
    lemma_attr_literals();
    let d = dec(f.bandwidth as nat);
    crate::text::lemma_dec_digits(f.bandwidth as nat);
    crate::text::lemma_digits_lack(d);
    assert(crate::text::is_digit(d[0]));
    let ua = uri_attr(f.uri);
    let ubody = "URI"@ + seq!['=', '"'] + f.uri + seq!['"'] + Seq::<char>::empty();
    assert(ua =~= seq![','] + ubody);
    crate::text::lemma_attr_comma(ubody);
    crate::text::lemma_attr_quoted("URI"@, f.uri, Seq::empty());
    let ui = seq![("URI"@, f.uri)];
    assert(attr_items(ua) =~= ui);
    let r3 = resolution_attr(f.resolution) + ua;
    lemma_res_items(f.resolution, ua);
    lemma_codecs_items(f.codecs, r3);
    let r1 = codecs_attr(f.codecs) + r3;
    assert(r1.len() > 0 && r1[0] == ',') by {
        if f.codecs is Some {
            assert(r1[0] == codecs_attr(f.codecs)[0]);
        } else if f.resolution is Some {
            assert(r1 =~= r3);
            assert(r3[0] == resolution_attr(f.resolution)[0]);
        } else {
            assert(r1 =~= ua);
        }
    }
    let a = "BANDWIDTH="@ + d + codecs_attr(f.codecs) + resolution_attr(f.resolution) + ua;
    assert(a =~= "BANDWIDTH"@ + seq!['='] + d + r1);
    crate::text::lemma_attr_unquoted("BANDWIDTH"@, d, r1);
    let ci = codecs_items(f.codecs);
    let ri = res_items(f.resolution);
    let items = attr_items(a);
    assert(items =~= seq![("BANDWIDTH"@, d)] + ci + ri + ui);
    // URI
    lemma_get_found(seq![("BANDWIDTH"@, d)] + ci + ri, f.uri, Seq::empty(), "URI"@);
    assert(items =~= seq![("BANDWIDTH"@, d)] + ci + ri + seq![("URI"@, f.uri)] + Seq::empty());
    // BANDWIDTH
    let after_bw = ci + ri + ui;
    assert forall|k: int| 0 <= k < after_bw.len() implies (#[trigger] after_bw[k]).0
        != "BANDWIDTH"@ by {
        if k < ci.len() {
            assert(after_bw[k] == ci[k]);
        } else if k < ci.len() + ri.len() {
            assert(after_bw[k] == ri[k - ci.len()]);
        } else {
            assert(after_bw[k] == ui[k - ci.len() - ri.len()]);
        }
    }
    assert(items =~= Seq::empty() + seq![("BANDWIDTH"@, d)] + after_bw);
    lemma_get_found(Seq::empty(), d, after_bw, "BANDWIDTH"@);
    crate::text::lemma_parse_dec(f.bandwidth as nat, u32::MAX as nat);
    // RESOLUTION
    let ru = ri + ui;
    match f.resolution {
        Some(wh) => {
            let rv = dec(wh.0 as nat) + "x"@ + dec(wh.1 as nat);
            assert(items =~= seq![("BANDWIDTH"@, d)] + ci + seq![("RESOLUTION"@, rv)] + ui);
            assert forall|k: int| 0 <= k < ui.len() implies (#[trigger] ui[k]).0
                != "RESOLUTION"@ by {}
            lemma_get_found(seq![("BANDWIDTH"@, d)] + ci, rv, ui, "RESOLUTION"@);
            lemma_resolution_text(wh.0, wh.1);
        },
        None => {
            assert forall|k: int| 0 <= k < items.len() implies (#[trigger] items[k]).0
                != "RESOLUTION"@ by {
                if k >= 1 + ci.len() {
                    assert(items[k] == ui[k - 1 - ci.len()]);
                } else if k >= 1 {
                    assert(items[k] == ci[k - 1]);
                }
            }
            lemma_get_absent(items, "RESOLUTION"@);
        },
    }
    // CODECS
    let tail = ri + ui;
    assert forall|k: int| 0 <= k < tail.len() implies (#[trigger] tail[k]).0 != "CODECS"@ by {
        if k < ri.len() {
            assert(tail[k] == ri[k]);
        } else {
            assert(tail[k] == ui[k - ri.len()]);
        }
    }
    match f.codecs {
        Some(c) => {
            assert(items =~= seq![("BANDWIDTH"@, d)] + seq![("CODECS"@, c)] + tail);
            lemma_get_found(seq![("BANDWIDTH"@, d)], c, tail, "CODECS"@);
        },
        None => {
            assert(items =~= seq![("BANDWIDTH"@, d)] + tail);
            assert forall|k: int| 0 <= k < items.len() implies (#[trigger] items[k]).0
                != "CODECS"@ by {
                if k >= 1 {
                    assert(items[k] == tail[k - 1]);
                }
            }
            lemma_get_absent(items, "CODECS"@);
        },
    }
}

/// A line followed by `\n` is read on its own, the rest from the next line.
proof fn lemma_lines_step(st: MasterState, l: Seq<char>, rest: Seq<char>, n: nat)
    requires
        lacks(l, '\n'),
    ensures
        master_lines(st, l + "\n"@ + rest, n) == match master_line(st, l, n) {
            None => Err(n),
            Some(st2) => master_lines(st2, rest, n + 1),
        },
{
    lemma_literals();
    let s = l + "\n"@ + rest;
    crate::text::lemma_find_at(s, '\n', l.len() as int);
    assert(s.take(l.len() as int) =~= l);
    assert(s.skip(l.len() + 1int) =~= rest);
}

proof fn lemma_lines_end(st: MasterState, n: nat)
    ensures
        master_lines(st, Seq::empty(), n) == Ok::<MasterState, nat>(st),
{
    assert(Seq::<char>::empty().take(0) =~= Seq::<char>::empty());
}

/// A tag line starting with `lit`, which is none of the tags before it.
proof fn lemma_tag_line(t: Seq<char>, lit: Seq<char>, rest: Seq<char>)
    requires
        t == lit + rest,
        lit.len() >= 15,
        lit[0] == '#',
        rest.len() > 0,
        !is_ws(t.last()),
    ensures
        trim(t) == t,
        t != "#EXTM3U"@,
        t.len() > 0 && t[0] == '#',
        has_prefix(t, lit),
        t.skip(lit.len() as int) == rest,
        lit[7] != 'V' ==> !has_prefix(t, "#EXT-X-VERSION:"@),
        lit[7] != 'S' ==> !has_prefix(t, "#EXT-X-STREAM-INF:"@),
{
    lemma_literals();
    assert(t[0] == '#');
    crate::text::lemma_trim_id(t);
    assert(t.take(lit.len() as int) =~= lit);
    assert(t.skip(lit.len() as int) =~= rest);
    if lit[7] != 'V' && has_prefix(t, "#EXT-X-VERSION:"@) {
        assert(t.take(15)[7] == t[7]);
    }
    if lit[7] != 'S' && has_prefix(t, "#EXT-X-STREAM-INF:"@) {
        assert(t.take(18)[7] == t[7]);
    }
}

proof fn lemma_variant_lines(st: MasterState, v: VariantView, tail: Seq<char>, n: nat)
    requires
        n >= 2,
        quotable(v.codecs),
        uri_line_ok(v.uri),
    ensures
        master_lines(st, variant_text(v) + tail, n) == master_lines(
            MasterState { variants: st.variants.push(v), pending: None, ..st },
            tail,
            n + 2,
        ),
{
    lemma_literals();
    lemma_attr_literals();
    let d = dec(v.bandwidth as nat);
    crate::text::lemma_dec_digits(v.bandwidth as nat);
    crate::text::lemma_digits_lack(d);
    lemma_codecs_items(Some(v.codecs), Seq::empty());
    lemma_res_items(v.resolution, Seq::empty());
    let ca = codecs_attr(Some(v.codecs));
    let ra = resolution_attr(v.resolution);
    let a = "BANDWIDTH="@ + d + ca + ra;
    let l1 = stream_inf_line(v);
    assert(l1 =~= "#EXT-X-STREAM-INF:"@ + a);
    crate::text::lemma_lacks_add("BANDWIDTH="@, d, '\n');
    crate::text::lemma_lacks_add("BANDWIDTH="@ + d, ca, '\n');
    crate::text::lemma_lacks_add("BANDWIDTH="@ + d + ca, ra, '\n');
    crate::text::lemma_lacks_add("#EXT-X-STREAM-INF:"@, a, '\n');
    assert(!is_ws(l1.last())) by {
        if v.resolution is Some {
            assert(l1.last() == ra.last());
        } else {
            assert(l1.last() == ca.last());
        }
    }
    lemma_tag_line(l1, "#EXT-X-STREAM-INF:"@, a);
    assert(bom_stripped(l1, n) == l1);
    lemma_stream_inf_attrs(v);
    let st1 = MasterState { pending: Some((v.bandwidth, v.codecs, v.resolution)), ..st };
    assert(master_line(st, l1, n) == Some(st1));
    assert(variant_text(v) + tail =~= l1 + "\n"@ + (v.uri + "\n"@ + tail));
    lemma_lines_step(st, l1, v.uri + "\n"@ + tail, n);
    let u = v.uri;
    crate::text::lemma_trim_id(u);
    assert(u != "#EXTM3U"@);
    assert(!has_prefix(u, "#EXT-X-VERSION:"@)) by {
        if has_prefix(u, "#EXT-X-VERSION:"@) {
            assert(u.take(15)[0] == u[0]);
        }
    }
    assert(!has_prefix(u, "#EXT-X-STREAM-INF:"@)) by {
        if has_prefix(u, "#EXT-X-STREAM-INF:"@) {
            assert(u.take(18)[0] == u[0]);
        }
    }
    assert(!has_prefix(u, "#EXT-X-I-FRAME-STREAM-INF:"@)) by {
        if has_prefix(u, "#EXT-X-I-FRAME-STREAM-INF:"@) {
            assert(u.take(26)[0] == u[0]);
        }
    }
    assert(bom_stripped(u, n + 1) == u);
    lemma_lines_step(st1, u, tail, n + 1);
}

proof fn lemma_iframe_lines(st: MasterState, f: IFrameView, tail: Seq<char>, n: nat)
    requires
        n >= 2,
        quotable(f.uri),
        f.codecs matches Some(c) ==> quotable(c),
    ensures
        master_lines(st, iframe_text(f) + tail, n) == master_lines(
            MasterState { iframes: st.iframes.push(f), ..st },
            tail,
            n + 1,
        ),
{
    lemma_literals();
    lemma_attr_literals();
    let d = dec(f.bandwidth as nat);
    crate::text::lemma_dec_digits(f.bandwidth as nat);
    crate::text::lemma_digits_lack(d);
    lemma_codecs_items(f.codecs, Seq::empty());
    lemma_res_items(f.resolution, Seq::empty());
    let ca = codecs_attr(f.codecs);
    let ra = resolution_attr(f.resolution);
    let ua = uri_attr(f.uri);
    crate::text::lemma_lacks_add(",URI=\""@, f.uri, '\n');
    crate::text::lemma_lacks_add(",URI=\""@ + f.uri, "\""@, '\n');
    let a = "BANDWIDTH="@ + d + ca + ra + ua;
    let l1 = iframe_line(f);
    assert(l1 =~= "#EXT-X-I-FRAME-STREAM-INF:"@ + a);
    crate::text::lemma_lacks_add("BANDWIDTH="@, d, '\n');
    crate::text::lemma_lacks_add("BANDWIDTH="@ + d, ca, '\n');
    crate::text::lemma_lacks_add("BANDWIDTH="@ + d + ca, ra, '\n');
    crate::text::lemma_lacks_add("BANDWIDTH="@ + d + ca + ra, ua, '\n');
    crate::text::lemma_lacks_add("#EXT-X-I-FRAME-STREAM-INF:"@, a, '\n');
    assert(l1.last() == '"');
    lemma_tag_line(l1, "#EXT-X-I-FRAME-STREAM-INF:"@, a);
    assert(has_prefix(l1, "#EXT-X-I-FRAME-STREAM-INF:"@));
    assert(bom_stripped(l1, n) == l1);
    lemma_iframe_attrs(f);
    assert(iframe_text(f) + tail =~= l1 + "\n"@ + tail);
    lemma_lines_step(st, l1, tail, n);
}

proof fn lemma_variants_lines(st: MasterState, vs: Seq<VariantView>, tail: Seq<char>, n: nat)
    requires
        n >= 2,
        st.pending is None,
        forall|i: int|
            0 <= i < vs.len() ==> quotable(#[trigger] vs[i].codecs) && uri_line_ok(vs[i].uri),
    ensures
        master_lines(st, variants_text(vs) + tail, n) == master_lines(
            MasterState { variants: st.variants + vs, ..st },
            tail,
            n + 2 * vs.len(),
        ),
    decreases vs.len(),
{
    if vs.len() == 0 {
        assert(variants_text(vs) + tail =~= tail);
        assert(st.variants + vs =~= st.variants);
    } else {
        let init = vs.drop_last();
        let v = vs.last();
        assert(quotable(vs[vs.len() - 1].codecs));
        assert forall|i: int|
            0 <= i < init.len() implies quotable(#[trigger] init[i].codecs) && uri_line_ok(
                init[i].uri,
            ) by {
            assert(init[i] == vs[i]);
        }
        assert(variants_text(vs) + tail =~= variants_text(init) + (variant_text(v) + tail));
        lemma_variants_lines(st, init, variant_text(v) + tail, n);
        let st1 = MasterState { variants: st.variants + init, ..st };
        lemma_variant_lines(st1, v, tail, n + 2 * init.len());
        assert((st.variants + init).push(v) =~= st.variants + vs);
    }
}

proof fn lemma_iframes_lines(st: MasterState, fs: Seq<IFrameView>, tail: Seq<char>, n: nat)
    requires
        n >= 2,
        forall|i: int|
            0 <= i < fs.len() ==> quotable(#[trigger] fs[i].uri) && (fs[i].codecs matches Some(
                c,
            ) ==> quotable(c)),
    ensures
        master_lines(st, iframes_text(fs) + tail, n) == master_lines(
            MasterState { iframes: st.iframes + fs, ..st },
            tail,
            n + fs.len(),
        ),
    decreases fs.len(),
{
    if fs.len() == 0 {
        assert(iframes_text(fs) + tail =~= tail);
        assert(st.iframes + fs =~= st.iframes);
    } else {
        let init = fs.drop_last();
        let f = fs.last();
        assert(quotable(fs[fs.len() - 1].uri));
        assert forall|i: int|
            0 <= i < init.len() implies quotable(#[trigger] init[i].uri) && (
            init[i].codecs matches Some(c) ==> quotable(c)) by {
            assert(init[i] == fs[i]);
        }
        assert(iframes_text(fs) + tail =~= iframes_text(init) + (iframe_text(f) + tail));
        lemma_iframes_lines(st, init, iframe_text(f) + tail, n);
        let st1 = MasterState { iframes: st.iframes + init, ..st };
        lemma_iframe_lines(st1, f, tail, n + init.len());
        assert((st.iframes + init).push(f) =~= st.iframes + fs);
    }
}

/// Parsing is the inverse of rendering: the text of a master playlist reads
/// back as the same playlist, for every playlist whose codecs and I-frame
/// URIs hold no quote or line break and whose variant URIs can stand on a
/// line of their own.
pub proof fn lemma_master_round_trip(m: MasterView)
    requires
        master_round_trips(m),
    ensures
        parse_master(master_text(m)) == Ok::<MasterView, nat>(m),
{
    lemma_literals();
    let st0 = master_init();
    let dv = dec(m.version as nat);
    crate::text::lemma_dec_digits(m.version as nat);
    crate::text::lemma_digits_lack(dv);
    let body = variants_text(m.variants) + iframes_text(m.iframes);
    assert(master_text(m) =~= "#EXTM3U"@ + "\n"@ + (("#EXT-X-VERSION:"@ + dv) + "\n"@ + body));
    // line 1
    let h = "#EXTM3U"@;
    crate::text::lemma_trim_id(h);
    assert(bom_stripped(h, 1) == h);
    let st1 = MasterState { saw_header: true, ..st0 };
    assert(master_line(st0, h, 1) == Some(st1));
    lemma_lines_step(st0, h, ("#EXT-X-VERSION:"@ + dv) + "\n"@ + body, 1);
    // line 2
    let l2 = "#EXT-X-VERSION:"@ + dv;
    crate::text::lemma_lacks_add("#EXT-X-VERSION:"@, dv, '\n');
    assert(l2.last() == dv.last());
    assert(crate::text::is_digit(dv[dv.len() - 1]));
    lemma_tag_line(l2, "#EXT-X-VERSION:"@, dv);
    assert(bom_stripped(l2, 2) == l2);
    crate::text::lemma_parse_dec(m.version as nat, 255);
    let st2 = MasterState { version: m.version, ..st1 };
    assert(master_line(st1, l2, 2) == Some(st2));
    lemma_lines_step(st1, l2, body, 2);
    // the variants, then the I-frame renditions
    lemma_variants_lines(st2, m.variants, iframes_text(m.iframes), 3);
    let st3 = MasterState { variants: st2.variants + m.variants, ..st2 };
    assert(iframes_text(m.iframes) =~= iframes_text(m.iframes) + Seq::<char>::empty());
    lemma_iframes_lines(st3, m.iframes, Seq::empty(), 3 + 2 * m.variants.len());
    let st4 = MasterState { iframes: st3.iframes + m.iframes, ..st3 };
    lemma_lines_end(st4, 3 + 2 * m.variants.len() + m.iframes.len());
    assert(st4.variants =~= m.variants);
    assert(st4.iframes =~= m.iframes);
}

/// Reading the `<n>[@<o>]` notation of a byte range gives the range back.
pub proof fn lemma_byte_range_round_trip(length: u64, offset: Option<u64>)
    ensures
        parse_byte_range(byte_range_text(length, offset)) == Some((length, offset)),
{
    reveal_strlit("@");
    assert("@"@ =~= seq!['@']);
    let dl = dec(length as nat);
    crate::text::lemma_dec_digits(length as nat);
    crate::text::lemma_digits_lack(dl);
    crate::text::lemma_parse_dec(length as nat, u64::MAX as nat);
    let t = byte_range_text(length, offset);
    match offset {
        Some(o) => {
            crate::text::lemma_parse_dec(o as nat, u64::MAX as nat);
            assert(t =~= dl + seq!['@'] + dec(o as nat));
            crate::text::lemma_find_at(t, '@', dl.len() as int);
            assert(t.take(dl.len() as int) =~= dl);
            assert(t.skip(dl.len() + 1int) =~= dec(o as nat));
        },
        None => {
            crate::text::lemma_find_at(t, '@', dl.len() as int);
            assert(t.take(dl.len() as int) =~= dl);
        },
    }
}

} // verus!
