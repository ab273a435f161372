//! RFC 8216 / RFC 8216bis media playlists (VOD, live and low-latency HLS):
//! the playlist as text, its renderer and its parser.
//!
//! Durations are kept as the decimal text that stands in the playlist
//! (`9.009`, `0.5`): the renderer writes that text verbatim and the parser
//! hands back exactly the text it read, once it has checked that the text is
//! a decimal floating-point number as `str::parse::<f64>` reads them.
use vstd::prelude::*;
use vstd::string::*;
use crate::error::Error;
use crate::hls::{
    bom_stripped, byte_range_text, has_prefix, map_line, parse_byte_range, push_map_line, quotable,
    uri_line_ok, ByteRange, MapTag, PreloadHintType, RenditionReport, SkipInfo,
};
use crate::sdp::{dec, dec_string};
use crate::text::{
    all_digits, attr_get, attr_items, chars_of, equals_at, find, find_from, is_attr_sep, is_digit,
    is_ws, lacks, parse_uint, parse_uint_at, starts_with_at, trim, trim_range,
};

verus! {

/// A partial segment (`#EXT-X-PART`, RFC 8216bis §4.4.4.9).
#[derive(Debug, Clone, PartialEq, Eq, Default)]
pub struct PartDoc {
    /// The part URI.
    pub uri: String,
    /// The part duration in seconds, as decimal text.
    pub duration: String,
    /// `INDEPENDENT=YES`: the part begins with an independently decodable frame.
    pub independent: bool,
    /// `BYTERANGE` of the part within `uri`; `None` for the whole resource.
    pub byte_range: Option<ByteRange>,
    /// `GAP=YES`: the part is not available.
    pub gap: bool,
}

/// A media segment of a media playlist.
#[derive(Debug, Clone, PartialEq, Eq, Default)]
pub struct SegmentDoc {
    /// The segment URI.
    pub uri: String,
    /// The `#EXTINF` duration in seconds, as decimal text.
    pub duration: String,
    /// `#EXT-X-DISCONTINUITY` precedes this segment.
    pub discontinuous: bool,
    /// Low-latency partial segments of this segment, in order.
    pub parts: Vec<PartDoc>,
    /// `#EXT-X-BYTERANGE` of this segment within `uri`.
    pub byte_range: Option<ByteRange>,
    /// The `#EXT-X-MAP` that applies to this segment.
    pub map: Option<MapTag>,
}

/// Low-latency HLS directives of a media playlist.
#[derive(Debug, Clone, PartialEq, Eq, Default)]
pub struct LowLatencyDoc {
    /// `PART-TARGET` of `#EXT-X-PART-INF`, as decimal text.
    pub part_target: Option<String>,
    /// `PART-HOLD-BACK` of `#EXT-X-SERVER-CONTROL`, as decimal text.
    pub part_hold_back: Option<String>,
    /// `CAN-SKIP-UNTIL` of `#EXT-X-SERVER-CONTROL`, as decimal text.
    pub can_skip_until: Option<String>,
    /// `URI` of `#EXT-X-PRELOAD-HINT`; `None` for no hint.
    pub preload_hint: Option<String>,
    /// `TYPE` of `#EXT-X-PRELOAD-HINT`.
    pub preload_hint_type: PreloadHintType,
    /// `BYTERANGE-START` of `#EXT-X-PRELOAD-HINT`.
    pub preload_hint_byte_range_start: Option<u64>,
    /// `BYTERANGE-LENGTH` of `#EXT-X-PRELOAD-HINT`.
    pub preload_hint_byte_range_length: Option<u64>,
}

/// A media playlist, its durations held as decimal text.
#[derive(Debug, Clone, PartialEq, Eq, Default)]
pub struct MediaPlaylistDoc {
    /// `#EXT-X-VERSION`.
    pub version: u8,
    /// `#EXT-X-TARGETDURATION`.
    pub target_duration: u32,
    /// `#EXT-X-MEDIA-SEQUENCE`.
    pub media_sequence: u64,
    /// `#EXT-X-DISCONTINUITY-SEQUENCE`; written only when above zero.
    pub discontinuity_sequence: u64,
    /// The closed segments, in order.
    pub segments: Vec<SegmentDoc>,
    /// The parts of the open segment at the live edge, if any.
    pub open_segment: Option<Vec<PartDoc>>,
    /// `#EXT-X-ENDLIST`.
    pub endlist: bool,
    /// Tag lines written verbatim before the segments.
    pub extra_tags: Vec<String>,
    /// The low-latency directives; `None` for a plain playlist.
    pub low_latency: Option<LowLatencyDoc>,
    /// `#EXT-X-I-FRAMES-ONLY`.
    pub iframes_only: bool,
    /// `#EXT-X-RENDITION-REPORT` entries, in order.
    pub rendition_reports: Vec<RenditionReport>,
    /// `#EXT-X-SKIP` of a playlist delta update.
    pub skip: Option<SkipInfo>,
}

pub struct PartView {
    pub uri: Seq<char>,
    pub duration: Seq<char>,
    pub independent: bool,
    pub byte_range: Option<ByteRange>,
    pub gap: bool,
}

pub struct MapView {
    pub uri: Seq<char>,
    pub byte_range: Option<ByteRange>,
}

pub struct SegmentView {
    pub uri: Seq<char>,
    pub duration: Seq<char>,
    pub discontinuous: bool,
    pub parts: Seq<PartView>,
    pub byte_range: Option<ByteRange>,
    pub map: Option<MapView>,
}

pub struct LowLatencyView {
    pub part_target: Option<Seq<char>>,
    pub part_hold_back: Option<Seq<char>>,
    pub can_skip_until: Option<Seq<char>>,
    pub preload_hint: Option<Seq<char>>,
    pub preload_hint_type: PreloadHintType,
    pub preload_hint_byte_range_start: Option<u64>,
    pub preload_hint_byte_range_length: Option<u64>,
}

pub struct ReportView {
    pub uri: Seq<char>,
    pub last_msn: u64,
    pub last_part: Option<u64>,
}

pub struct SkipView {
    pub skipped_segments: u64,
    pub ids: Seq<Seq<char>>,
}

pub struct MediaDocView {
    pub version: u8,
    pub target_duration: u32,
    pub media_sequence: u64,
    pub discontinuity_sequence: u64,
    pub segments: Seq<SegmentView>,
    pub open_segment: Option<Seq<PartView>>,
    pub endlist: bool,
    pub extra_tags: Seq<Seq<char>>,
    pub low_latency: Option<LowLatencyView>,
    pub iframes_only: bool,
    pub rendition_reports: Seq<ReportView>,
    pub skip: Option<SkipView>,
}

pub open spec fn text_of(s: Option<String>) -> Option<Seq<char>> {
    match s {
        Some(t) => Some(t@),
        None => None,
    }
}

impl View for PartDoc {
    type V = PartView;

    open spec fn view(&self) -> PartView {
        PartView {
            uri: self.uri@,
            duration: self.duration@,
            independent: self.independent,
            byte_range: self.byte_range,
            gap: self.gap,
        }
    }
}

impl View for MapTag {
    type V = MapView;

    open spec fn view(&self) -> MapView {
        MapView { uri: self.uri@, byte_range: self.byte_range }
    }
}

pub open spec fn map_of(m: Option<MapTag>) -> Option<MapView> {
    match m {
        Some(t) => Some(t@),
        None => None,
    }
}

pub open spec fn parts_of(ps: Seq<PartDoc>) -> Seq<PartView> {
    ps.map_values(|p: PartDoc| p@)
}

impl View for SegmentDoc {
    type V = SegmentView;

    open spec fn view(&self) -> SegmentView {
        SegmentView {
            uri: self.uri@,
            duration: self.duration@,
            discontinuous: self.discontinuous,
            parts: parts_of(self.parts@),
            byte_range: self.byte_range,
            map: map_of(self.map),
        }
    }
}

impl View for LowLatencyDoc {
    type V = LowLatencyView;

    open spec fn view(&self) -> LowLatencyView {
        LowLatencyView {
            part_target: text_of(self.part_target),
            part_hold_back: text_of(self.part_hold_back),
            can_skip_until: text_of(self.can_skip_until),
            preload_hint: text_of(self.preload_hint),
            preload_hint_type: self.preload_hint_type,
            preload_hint_byte_range_start: self.preload_hint_byte_range_start,
            preload_hint_byte_range_length: self.preload_hint_byte_range_length,
        }
    }
}

impl View for RenditionReport {
    type V = ReportView;

    open spec fn view(&self) -> ReportView {
        ReportView { uri: self.uri@, last_msn: self.last_msn, last_part: self.last_part }
    }
}

impl View for SkipInfo {
    type V = SkipView;

    open spec fn view(&self) -> SkipView {
        SkipView {
            skipped_segments: self.skipped_segments,
            ids: self.recently_removed_daterange_ids@.map_values(|s: String| s@),
        }
    }
}

impl View for MediaPlaylistDoc {
    type V = MediaDocView;

    open spec fn view(&self) -> MediaDocView {
        MediaDocView {
            version: self.version,
            target_duration: self.target_duration,
            media_sequence: self.media_sequence,
            discontinuity_sequence: self.discontinuity_sequence,
            segments: self.segments@.map_values(|s: SegmentDoc| s@),
            open_segment: match self.open_segment {
                Some(ps) => Some(parts_of(ps@)),
                None => None,
            },
            endlist: self.endlist,
            extra_tags: self.extra_tags@.map_values(|s: String| s@),
            low_latency: match self.low_latency {
                Some(l) => Some(l@),
                None => None,
            },
            iframes_only: self.iframes_only,
            rendition_reports: self.rendition_reports@.map_values(|r: RenditionReport| r@),
            skip: match self.skip {
                Some(k) => Some(k@),
                None => None,
            },
        }
    }
}

// ---------------------------------------------------------------------------
// Rendering.
// ---------------------------------------------------------------------------

/// `name` followed by the text, or nothing.
pub open spec fn opt_text_attr(name: Seq<char>, v: Option<Seq<char>>) -> Seq<char> {
    match v {
        Some(t) => name + t,
        None => Seq::empty(),
    }
}

/// `name` followed by the decimal number, or nothing.
pub open spec fn opt_num_attr(name: Seq<char>, v: Option<u64>) -> Seq<char> {
    match v {
        Some(n) => name + dec(n as nat),
        None => Seq::empty(),
    }
}

/// `,BYTERANGE="<n>[@<o>]"`, or nothing.
pub open spec fn br_attr_text(br: Option<ByteRange>) -> Seq<char> {
    match br {
        Some(b) => ",BYTERANGE=\""@ + byte_range_text(b.length, b.offset) + "\""@,
        None => Seq::empty(),
    }
}

/// The `#EXT-X-PART` line of a part.
pub open spec fn part_line(p: PartView) -> Seq<char> {
    "#EXT-X-PART:DURATION="@ + p.duration + ",URI=\""@ + p.uri + "\""@ + br_attr_text(p.byte_range)
        + (if p.independent { ",INDEPENDENT=YES"@ } else { Seq::empty() }) + (if p.gap {
        ",GAP=YES"@
    } else {
        Seq::empty()
    }) + "\n"@
}

pub open spec fn parts_text(ps: Seq<PartView>) -> Seq<char>
    decreases ps.len(),
{
    if ps.len() == 0 {
        Seq::empty()
    } else {
        parts_text(ps.drop_last()) + part_line(ps.last())
    }
}

/// The `#EXT-X-MAP` line of a segment: written only where its map differs
/// from the one before.
pub open spec fn map_text(m: Option<MapView>, prev: Option<MapView>) -> Seq<char> {
    if m != prev {
        match m {
            Some(v) => map_line(v.uri, v.byte_range),
            None => Seq::empty(),
        }
    } else {
        Seq::empty()
    }
}

/// The lines of a closed segment before its `#EXTINF`: the discontinuity
/// marker, the map where it changes, and (in a low-latency playlist) the parts.
pub open spec fn segment_head(s: SegmentView, prev: Option<MapView>, ll: bool) -> Seq<char> {
    (if s.discontinuous { "#EXT-X-DISCONTINUITY\n"@ } else { Seq::empty() }) + map_text(s.map, prev)
        + (if ll { parts_text(s.parts) } else { Seq::empty() })
}

/// The `#EXTINF`, `#EXT-X-BYTERANGE` and URI lines of a closed segment.
pub open spec fn segment_tail(s: SegmentView) -> Seq<char> {
    "#EXTINF:"@ + s.duration + ",\n"@ + match s.byte_range {
        Some(b) => "#EXT-X-BYTERANGE:"@ + byte_range_text(b.length, b.offset) + "\n"@,
        None => Seq::empty(),
    } + s.uri + "\n"@
}

/// The lines of one closed segment, given the map of the segment before it
/// and whether the playlist is low-latency (only then are parts written).
pub open spec fn segment_text(s: SegmentView, prev: Option<MapView>, ll: bool) -> Seq<char> {
    segment_head(s, prev, ll) + segment_tail(s)
}

/// The map of the segment before the last one.
pub open spec fn prev_map(segs: Seq<SegmentView>) -> Option<MapView> {
    if segs.len() >= 2 {
        segs[segs.len() - 2].map
    } else {
        None
    }
}

pub open spec fn segments_text(segs: Seq<SegmentView>, ll: bool) -> Seq<char>
    decreases segs.len(),
{
    if segs.len() == 0 {
        Seq::empty()
    } else {
        segments_text(segs.drop_last(), ll) + segment_text(segs.last(), prev_map(segs), ll)
    }
}

/// The version written: at least 4 when `#EXT-X-I-FRAMES-ONLY` is.
pub open spec fn written_version(p: MediaDocView) -> u8 {
    if p.iframes_only && p.version < 4 {
        4
    } else {
        p.version
    }
}

pub open spec fn header_text(p: MediaDocView) -> Seq<char> {
    "#EXTM3U\n"@ + "#EXT-X-VERSION:"@ + dec(written_version(p) as nat) + "\n"@ + (if p.iframes_only {
        "#EXT-X-I-FRAMES-ONLY\n"@
    } else {
        Seq::empty()
    }) + "#EXT-X-TARGETDURATION:"@ + dec(p.target_duration as nat) + "\n"@
        + "#EXT-X-MEDIA-SEQUENCE:"@ + dec(p.media_sequence as nat) + "\n"@ + (if p.discontinuity_sequence
        > 0 {
        "#EXT-X-DISCONTINUITY-SEQUENCE:"@ + dec(p.discontinuity_sequence as nat) + "\n"@
    } else {
        Seq::empty()
    })
}

pub open spec fn server_control_line(l: LowLatencyView) -> Seq<char> {
    "#EXT-X-SERVER-CONTROL:CAN-BLOCK-RELOAD=YES"@ + opt_text_attr(",PART-HOLD-BACK="@, l.part_hold_back)
        + opt_text_attr(",CAN-SKIP-UNTIL="@, l.can_skip_until) + "\n"@
}

pub open spec fn part_inf_line(l: LowLatencyView) -> Seq<char> {
    "#EXT-X-PART-INF:"@ + opt_text_attr("PART-TARGET="@, l.part_target) + "\n"@
}

pub open spec fn ll_header_text(ll: Option<LowLatencyView>) -> Seq<char> {
    match ll {
        Some(l) => server_control_line(l) + part_inf_line(l),
        None => Seq::empty(),
    }
}

/// The daterange IDs joined by tabs.
pub open spec fn join_tabs(ids: Seq<Seq<char>>) -> Seq<char>
    decreases ids.len(),
{
    if ids.len() == 0 {
        Seq::empty()
    } else if ids.len() == 1 {
        ids[0]
    } else {
        join_tabs(ids.drop_last()) + "\t"@ + ids.last()
    }
}

pub open spec fn skip_text(k: Option<SkipView>) -> Seq<char> {
    match k {
        Some(s) => "#EXT-X-SKIP:SKIPPED-SEGMENTS="@ + dec(s.skipped_segments as nat) + (if s.ids.len()
            > 0 {
            ",RECENTLY-REMOVED-DATERANGES=\""@ + join_tabs(s.ids) + "\""@
        } else {
            Seq::empty()
        }) + "\n"@,
        None => Seq::empty(),
    }
}

pub open spec fn tags_text(tags: Seq<Seq<char>>) -> Seq<char>
    decreases tags.len(),
{
    if tags.len() == 0 {
        Seq::empty()
    } else {
        tags_text(tags.drop_last()) + tags.last() + "\n"@
    }
}

pub open spec fn hint_type_text(t: PreloadHintType) -> Seq<char> {
    match t {
        PreloadHintType::Part => "PART"@,
        PreloadHintType::InitSection => "MAP"@,
    }
}

pub open spec fn hint_text(ll: Option<LowLatencyView>) -> Seq<char> {
    match ll {
        Some(l) => match l.preload_hint {
            Some(u) => "#EXT-X-PRELOAD-HINT:TYPE="@ + hint_type_text(l.preload_hint_type) + ",URI=\""@
                + u + "\""@ + opt_num_attr(",BYTERANGE-START="@, l.preload_hint_byte_range_start)
                + opt_num_attr(",BYTERANGE-LENGTH="@, l.preload_hint_byte_range_length) + "\n"@,
            None => Seq::empty(),
        },
        None => Seq::empty(),
    }
}

pub open spec fn report_line(r: ReportView) -> Seq<char> {
    "#EXT-X-RENDITION-REPORT:URI=\""@ + r.uri + "\",LAST-MSN="@ + dec(r.last_msn as nat)
        + opt_num_attr(",LAST-PART="@, r.last_part) + "\n"@
}

pub open spec fn reports_text(rs: Seq<ReportView>) -> Seq<char>
    decreases rs.len(),
{
    if rs.len() == 0 {
        Seq::empty()
    } else {
        reports_text(rs.drop_last()) + report_line(rs.last())
    }
}

/// The open segment's parts, written only in a low-latency playlist.
pub open spec fn open_text(p: MediaDocView) -> Seq<char> {
    match (p.low_latency, p.open_segment) {
        (Some(_), Some(ps)) => parts_text(ps),
        _ => Seq::empty(),
    }
}

/// A media playlist as `#EXTM3U` text: the header; the low-latency
/// directives; `#EXT-X-SKIP`; the extra tags; each closed segment; the open
/// segment's parts; the preload hint; the rendition reports; `#EXT-X-ENDLIST`.
pub open spec fn spec_render_media(p: MediaDocView) -> Seq<char> {
    header_text(p) + ll_header_text(p.low_latency) + skip_text(p.skip) + tags_text(p.extra_tags)
        + segments_text(p.segments, p.low_latency is Some) + open_text(p) + hint_text(p.low_latency)
        + reports_text(p.rendition_reports) + (if p.endlist {
        "#EXT-X-ENDLIST\n"@
    } else {
        Seq::empty()
    })
}

fn push_dec(s: &mut String, n: u64)
    ensures
        final(s)@ == old(s)@ + dec(n as nat),
{
    let t = dec_string(n);
    s.append(t.as_str());
}

fn push_br_attr(s: &mut String, br: Option<ByteRange>)
    ensures
        final(s)@ == old(s)@ + br_attr_text(br),
{
    match br {
        Some(b) => {
            s.append(",BYTERANGE=\"");
            let t = b.render();
            s.append(t.as_str());
            s.append("\"");
        },
        None => {},
    }
}

fn push_opt_text(s: &mut String, name: &str, v: &Option<String>)
    ensures
        final(s)@ == old(s)@ + opt_text_attr(name@, text_of(*v)),
{
    match v {
        Some(t) => {
            s.append(name);
            s.append(t.as_str());
        },
        None => {},
    }
}

fn push_opt_num(s: &mut String, name: &str, v: Option<u64>)
    ensures
        final(s)@ == old(s)@ + opt_num_attr(name@, v),
{
    match v {
        Some(n) => {
            s.append(name);
            push_dec(s, n);
        },
        None => {},
    }
}

/// Append the `#EXT-X-PART` line of `part` to `s`.
pub fn push_part_line(s: &mut String, part: &PartDoc)
    ensures
        final(s)@ == old(s)@ + part_line(part@),
{
    s.append("#EXT-X-PART:DURATION=");
    s.append(part.duration.as_str());
    s.append(",URI=\"");
    s.append(part.uri.as_str());
    s.append("\"");
    push_br_attr(s, part.byte_range);
    if part.independent {
        s.append(",INDEPENDENT=YES");
    }
    if part.gap {
        s.append(",GAP=YES");
    }
    s.append("\n");
    assert(final(s)@ =~= old(s)@ + part_line(part@));
}

fn push_parts(s: &mut String, parts: &Vec<PartDoc>)
    ensures
        final(s)@ == old(s)@ + parts_text(parts_of(parts@)),
{
    let ghost head = s@;
    let ghost ps = parts_of(parts@);
    let n = parts.len();
    let mut i: usize = 0;
    while i < n
        invariant
            n == parts.len(),
            ps == parts_of(parts@),
            i <= n,
            s@ == head + parts_text(ps.take(i as int)),
        decreases n - i,
    {
        push_part_line(s, &parts[i]);
        assert(ps.take(i + 1).drop_last() =~= ps.take(i as int));
        i = i + 1;
    }
    assert(ps.take(n as int) =~= ps);
}

/// Whether two optional maps are the same map.
fn same_map(a: &Option<MapTag>, b: &Option<MapTag>) -> (r: bool)
    ensures
        r == (map_of(*a) == map_of(*b)),
{
    match (a, b) {
        (None, None) => true,
        (Some(x), Some(y)) => {
            let eq_uri = x.uri == y.uri;
            let eq_br = match (x.byte_range, y.byte_range) {
                (None, None) => true,
                (Some(p), Some(q)) => p.length == q.length && p.offset == q.offset,
                _ => false,
            };
            proof {
                if eq_uri && eq_br {
                    assert(x@ == y@);
                }
                if x@ == y@ {
                    assert(x@.uri == y@.uri);
                }
            }
            eq_uri && eq_br
        },
        _ => false,
    }
}

fn push_segment_head(s: &mut String, seg: &SegmentDoc, prev: &Option<MapTag>, ll: bool)
    ensures
        final(s)@ == old(s)@ + segment_head(seg@, map_of(*prev), ll),
{
    let ghost d = if seg.discontinuous { "#EXT-X-DISCONTINUITY\n"@ } else { Seq::<char>::empty() };
    if seg.discontinuous {
        s.append("#EXT-X-DISCONTINUITY\n");
    }
    let ghost a = s@;
    if !same_map(&seg.map, prev) {
        match &seg.map {
            Some(m) => push_map_line(s, m),
            None => {},
        }
    }
    let ghost b = s@;
    assert(b == a + map_text(map_of(seg.map), map_of(*prev)));
    if ll {
        push_parts(s, &seg.parts);
    }
    assert(final(s)@ =~= old(s)@ + segment_head(seg@, map_of(*prev), ll));
}

fn push_segment_tail(s: &mut String, seg: &SegmentDoc)
    ensures
        final(s)@ == old(s)@ + segment_tail(seg@),
{
    s.append("#EXTINF:");
    s.append(seg.duration.as_str());
    s.append(",\n");
    match seg.byte_range {
        Some(br) => {
            s.append("#EXT-X-BYTERANGE:");
            let t = br.render();
            s.append(t.as_str());
            s.append("\n");
        },
        None => {},
    }
    s.append(seg.uri.as_str());
    s.append("\n");
    assert(final(s)@ =~= old(s)@ + segment_tail(seg@));
}

fn push_segment(s: &mut String, seg: &SegmentDoc, prev: &Option<MapTag>, ll: bool)
    ensures
        final(s)@ == old(s)@ + segment_text(seg@, map_of(*prev), ll),
{
    push_segment_head(s, seg, prev, ll);
    push_segment_tail(s, seg);
    assert(final(s)@ =~= old(s)@ + segment_text(seg@, map_of(*prev), ll));
}

fn push_skip(s: &mut String, skip: &Option<SkipInfo>)
    ensures
        final(s)@ == old(s)@ + skip_text(match *skip {
            Some(k) => Some(k@),
            None => None,
        }),
{
    match skip {
        Some(k) => {
            s.append("#EXT-X-SKIP:SKIPPED-SEGMENTS=");
            push_dec(s, k.skipped_segments);
            let ghost ids = k@.ids;
            let m = k.recently_removed_daterange_ids.len();
            if m > 0 {
                s.append(",RECENTLY-REMOVED-DATERANGES=\"");
                let ghost b = s@;
                let mut i: usize = 0;
                while i < m
                    invariant
                        m == k.recently_removed_daterange_ids.len(),
                        ids == k@.ids,
                        m > 0,
                        i <= m,
                        s@ == b + join_tabs(ids.take(i as int)),
                    decreases m - i,
                {
                    if i > 0 {
                        s.append("\t");
                    }
                    s.append(k.recently_removed_daterange_ids[i].as_str());
                    proof {
                        let t = ids.take(i + 1);
                        assert(t.drop_last() =~= ids.take(i as int));
                        if i == 0 {
                            assert(join_tabs(ids.take(0)) =~= Seq::<char>::empty());
                        }
                    }
                    i = i + 1;
                }
                assert(ids.take(m as int) =~= ids);
                s.append("\"");
            }
            s.append("\n");
        },
        None => {},
    }
}

fn push_hint(s: &mut String, ll: &LowLatencyDoc)
    ensures
        final(s)@ == old(s)@ + hint_text(Some(ll@)),
{
    match &ll.preload_hint {
        Some(u) => {
            s.append("#EXT-X-PRELOAD-HINT:TYPE=");
            s.append(ll.preload_hint_type.name());
            s.append(",URI=\"");
            s.append(u.as_str());
            s.append("\"");
            push_opt_num(s, ",BYTERANGE-START=", ll.preload_hint_byte_range_start);
            push_opt_num(s, ",BYTERANGE-LENGTH=", ll.preload_hint_byte_range_length);
            s.append("\n");
        },
        None => {},
    }
}

fn push_report(s: &mut String, r: &RenditionReport)
    ensures
        final(s)@ == old(s)@ + report_line(r@),
{
    s.append("#EXT-X-RENDITION-REPORT:URI=\"");
    s.append(r.uri.as_str());
    s.append("\",LAST-MSN=");
    push_dec(s, r.last_msn);
    push_opt_num(s, ",LAST-PART=", r.last_part);
    s.append("\n");
    assert(final(s)@ =~= old(s)@ + report_line(r@));
}

#[verifier::spinoff_prover]
#[verifier::rlimit(80)]
fn push_header(s: &mut String, p: &MediaPlaylistDoc)
    ensures
        final(s)@ == old(s)@ + header_text(p@),
{
    s.append("#EXTM3U\n");
    s.append("#EXT-X-VERSION:");
    let version = if p.iframes_only && p.version < 4 {
        4
    } else {
        p.version
    };
    push_dec(s, version as u64);
    s.append("\n");
    if p.iframes_only {
        s.append("#EXT-X-I-FRAMES-ONLY\n");
    }
    s.append("#EXT-X-TARGETDURATION:");
    push_dec(s, p.target_duration as u64);
    s.append("\n");
    s.append("#EXT-X-MEDIA-SEQUENCE:");
    push_dec(s, p.media_sequence);
    s.append("\n");
    if p.discontinuity_sequence > 0 {
        s.append("#EXT-X-DISCONTINUITY-SEQUENCE:");
        push_dec(s, p.discontinuity_sequence);
        s.append("\n");
    }
    assert(final(s)@ =~= old(s)@ + header_text(p@));
}

fn push_ll_header(s: &mut String, ll: &LowLatencyDoc)
    ensures
        final(s)@ == old(s)@ + ll_header_text(Some(ll@)),
{
    s.append("#EXT-X-SERVER-CONTROL:CAN-BLOCK-RELOAD=YES");
    push_opt_text(s, ",PART-HOLD-BACK=", &ll.part_hold_back);
    push_opt_text(s, ",CAN-SKIP-UNTIL=", &ll.can_skip_until);
    s.append("\n");
    s.append("#EXT-X-PART-INF:");
    push_opt_text(s, "PART-TARGET=", &ll.part_target);
    s.append("\n");
    assert(final(s)@ =~= old(s)@ + ll_header_text(Some(ll@)));
}

fn push_tags(s: &mut String, tags: &Vec<String>)
    ensures
        final(s)@ == old(s)@ + tags_text(tags@.map_values(|t: String| t@)),
{
    let ghost head = s@;
    let ghost ts = tags@.map_values(|t: String| t@);
    let n = tags.len();
    let mut i: usize = 0;
    while i < n
        invariant
            n == tags.len(),
            ts == tags@.map_values(|t: String| t@),
            i <= n,
            s@ == head + tags_text(ts.take(i as int)),
        decreases n - i,
    {
        s.append(tags[i].as_str());
        s.append("\n");
        assert(ts.take(i + 1).drop_last() =~= ts.take(i as int));
        i = i + 1;
    }
    assert(ts.take(n as int) =~= ts);
}

#[verifier::spinoff_prover]
fn push_segments(s: &mut String, segs: &Vec<SegmentDoc>, ll: bool)
    ensures
        final(s)@ == old(s)@ + segments_text(segs@.map_values(|g: SegmentDoc| g@), ll),
{
    let ghost head = s@;
    let ghost gs = segs@.map_values(|g: SegmentDoc| g@);
    let n = segs.len();
    let none: Option<MapTag> = None;
    let mut i: usize = 0;
    while i < n
        invariant
            n == segs.len(),
            gs == segs@.map_values(|g: SegmentDoc| g@),
            none is None,
            i <= n,
            s@ == head + segments_text(gs.take(i as int), ll),
        decreases n - i,
    {
        let prev = if i == 0 {
            &none
        } else {
            &segs[i - 1].map
        };
        let ghost t1 = gs.take(i + 1);
        assert(t1.drop_last() =~= gs.take(i as int));
        assert(t1.last() == segs@[i as int]@);
        assert(map_of(*prev) == prev_map(t1));
        push_segment(s, &segs[i], prev, ll);
        i = i + 1;
    }
    assert(gs.take(n as int) =~= gs);
}

fn push_reports(s: &mut String, rs: &Vec<RenditionReport>)
    ensures
        final(s)@ == old(s)@ + reports_text(rs@.map_values(|r: RenditionReport| r@)),
{
    let ghost head = s@;
    let ghost vs = rs@.map_values(|r: RenditionReport| r@);
    let n = rs.len();
    let mut i: usize = 0;
    while i < n
        invariant
            n == rs.len(),
            vs == rs@.map_values(|r: RenditionReport| r@),
            i <= n,
            s@ == head + reports_text(vs.take(i as int)),
        decreases n - i,
    {
        push_report(s, &rs[i]);
        assert(vs.take(i + 1).drop_last() =~= vs.take(i as int));
        i = i + 1;
    }
    assert(vs.take(n as int) =~= vs);
}

/// Render a media playlist as `#EXTM3U` text.
pub fn render_media_playlist(p: &MediaPlaylistDoc) -> (r: String)
    ensures
        r@ == spec_render_media(p@),
{
    let mut s = String::new();
    push_header(&mut s, p);
    let ghost a = s@;
    match &p.low_latency {
        Some(ll) => push_ll_header(&mut s, ll),
        None => {},
    }
    assert(s@ == a + ll_header_text(p@.low_latency));
    push_skip(&mut s, &p.skip);
    push_tags(&mut s, &p.extra_tags);
    push_segments(&mut s, &p.segments, p.low_latency.is_some());
    let ghost b = s@;
    match (&p.low_latency, &p.open_segment) {
        (Some(_), Some(ps)) => push_parts(&mut s, ps),
        _ => {},
    }
    assert(s@ == b + open_text(p@));
    let ghost c = s@;
    match &p.low_latency {
        Some(ll) => push_hint(&mut s, ll),
        None => {},
    }
    assert(s@ == c + hint_text(p@.low_latency));
    push_reports(&mut s, &p.rendition_reports);
    if p.endlist {
        s.append("#EXT-X-ENDLIST\n");
    }
    assert(s@ =~= spec_render_media(p@));
    s
}


// ---------------------------------------------------------------------------
// Decimal floating-point text.
// ---------------------------------------------------------------------------

pub open spec fn is_sign(c: char) -> bool {
    c == '+' || c == '-'
}

/// `s` without one leading sign.
pub open spec fn unsigned(s: Seq<char>) -> Seq<char> {
    if s.len() > 0 && is_sign(s[0]) {
        s.drop_first()
    } else {
        s
    }
}

/// `c` is the lower-case ASCII letter `l` in either case.
pub open spec fn ci_char(c: char, l: char) -> bool {
    c == l || (c as u32) + 32 == (l as u32)
}

/// `s` spells the lower-case word `lit` in any ASCII case.
pub open spec fn ci_eq(s: Seq<char>, lit: Seq<char>) -> bool {
    s.len() == lit.len() && forall|k: int| 0 <= k < s.len() ==> ci_char(#[trigger] s[k], lit[k])
}

/// Index of the first exponent mark (`e` or `E`), or `s.len()`.
pub open spec fn find_exp(s: Seq<char>) -> nat
    decreases s.len(),
{
    if s.len() == 0 {
        0
    } else if ci_char(s[0], 'e') {
        0
    } else {
        1 + find_exp(s.drop_first())
    }
}

/// `Digit+ | Digit+ '.' Digit* | Digit* '.' Digit+`.
pub open spec fn is_mantissa(m: Seq<char>) -> bool {
    let d = find(m, '.');
    if d >= m.len() {
        m.len() > 0 && all_digits(m)
    } else {
        all_digits(m.take(d as int)) && all_digits(m.skip(d + 1int)) && m.len() >= 2
    }
}

/// `Sign? Digit+`, the part after the exponent mark.
pub open spec fn is_exponent(x: Seq<char>) -> bool {
    unsigned(x).len() > 0 && all_digits(unsigned(x))
}

/// What `str::parse::<f64>` accepts: an optional sign, then `inf`,
/// `infinity` or `nan` in any ASCII case, or a mantissa with an optional
/// exponent (`e` or `E`, an optional sign, digits). No whitespace.
pub open spec fn is_decimal_float(s: Seq<char>) -> bool {
    let t = unsigned(s);
    let e = find_exp(t);
    ||| ci_eq(t, "inf"@)
    ||| ci_eq(t, "infinity"@)
    ||| ci_eq(t, "nan"@)
    ||| (is_mantissa(t.take(e as int)) && (e >= t.len() || is_exponent(t.skip(e + 1int))))
}

#[verifier::spinoff_prover]
#[verifier::rlimit(100)]
proof fn lemma_find_exp_at(s: Seq<char>, j: int)
    requires
        0 <= j <= s.len(),
        forall|k: int| 0 <= k < j ==> !ci_char(#[trigger] s[k], 'e'),
        j == s.len() || ci_char(s[j], 'e'),
    ensures
        find_exp(s) == j,
    decreases j,
{
    if j > 0 {
        assert forall|k: int| 0 <= k < j - 1 implies !ci_char(#[trigger] s.drop_first()[k], 'e') by {
            assert(s.drop_first()[k] == s[k + 1]);
        }
        lemma_find_exp_at(s.drop_first(), j - 1);
    }
}

fn ci_eq_at(cs: &Vec<char>, a: usize, b: usize, lit: &str) -> (r: bool)
    requires
        a <= b <= cs.len(),
    ensures
        r == ci_eq(cs@.subrange(a as int, b as int), lit@),
{
    let n = lit.unicode_len();
    if n != b - a {
        return false;
    }
    let ghost t = cs@.subrange(a as int, b as int);
    let mut i: usize = 0;
    while i < n
        invariant
            n == lit@.len(),
            n == b - a,
            a <= b <= cs.len(),
            t == cs@.subrange(a as int, b as int),
            i <= n,
            forall|k: int| 0 <= k < i ==> ci_char(#[trigger] t[k], lit@[k]),
        decreases n - i,
    {
        let c = cs[a + i];
        let l = lit.get_char(i);
        assert(t[i as int] == c);
        if !(c == l || ((l as u32) >= 32 && (c as u32) == (l as u32) - 32)) {
            return false;
        }
        i = i + 1;
    }
    true
}

fn all_digits_at(cs: &Vec<char>, a: usize, b: usize) -> (r: bool)
    requires
        a <= b <= cs.len(),
    ensures
        r == all_digits(cs@.subrange(a as int, b as int)),
{
    let ghost t = cs@.subrange(a as int, b as int);
    let mut i = a;
    while i < b
        invariant
            a <= i <= b <= cs.len(),
            t == cs@.subrange(a as int, b as int),
            forall|k: int| 0 <= k < i - a ==> is_digit(#[trigger] t[k]),
        decreases b - i,
    {
        let v = cs[i] as u32;
        assert(t[i - a] == cs@[i as int]);
        if v < 48 || v > 57 {
            return false;
        }
        i = i + 1;
    }
    true
}

fn mantissa_at(cs: &Vec<char>, a: usize, b: usize) -> (r: bool)
    requires
        a <= b <= cs.len(),
    ensures
        r == is_mantissa(cs@.subrange(a as int, b as int)),
{
    let ghost m = cs@.subrange(a as int, b as int);
    let d = find_from(cs, a, b, '.');
    if d == b {
        return b > a && all_digits_at(cs, a, b);
    }
    assert(m.take(d - a) =~= cs@.subrange(a as int, d as int));
    assert(m.skip(d - a + 1) =~= cs@.subrange(d + 1, b as int));
    all_digits_at(cs, a, d) && all_digits_at(cs, d + 1, b) && b - a >= 2
}

fn exponent_at(cs: &Vec<char>, a: usize, b: usize) -> (r: bool)
    requires
        a <= b <= cs.len(),
    ensures
        r == is_exponent(cs@.subrange(a as int, b as int)),
{
    let ghost x = cs@.subrange(a as int, b as int);
    let mut c = a;
    if c < b && (cs[c] == '+' || cs[c] == '-') {
        c = c + 1;
    }
    assert(unsigned(x) =~= cs@.subrange(c as int, b as int));
    c < b && all_digits_at(cs, c, b)
}

/// `is_decimal_float` of `cs[lo..hi]`.
pub fn decimal_float_at(cs: &Vec<char>, lo: usize, hi: usize) -> (r: bool)
    requires
        lo <= hi <= cs.len(),
    ensures
        r == is_decimal_float(cs@.subrange(lo as int, hi as int)),
{
    let ghost s = cs@.subrange(lo as int, hi as int);
    let mut a = lo;
    if a < hi && (cs[a] == '+' || cs[a] == '-') {
        a = a + 1;
    }
    let ghost t = cs@.subrange(a as int, hi as int);
    assert(unsigned(s) =~= t);
    if ci_eq_at(cs, a, hi, "inf") || ci_eq_at(cs, a, hi, "infinity") || ci_eq_at(cs, a, hi, "nan") {
        return true;
    }
    let mut e = a;
    while e < hi && !(cs[e] == 'e' || (cs[e] as u32) == ('e' as u32) - 32)
        invariant
            a <= e <= hi <= cs.len(),
            t == cs@.subrange(a as int, hi as int),
            forall|k: int| 0 <= k < e - a ==> !ci_char(#[trigger] t[k], 'e'),
        decreases hi - e,
    {
        assert(t[e - a] == cs@[e as int]);
        e = e + 1;
    }
    proof {
        if e < hi {
            assert(t[e - a] == cs@[e as int]);
        }
        lemma_find_exp_at(t, e - a);
    }
    assert(t.take(e - a) =~= cs@.subrange(a as int, e as int));
    if !mantissa_at(cs, a, e) {
        return false;
    }
    if e == hi {
        return true;
    }
    assert(t.skip(e - a + 1) =~= cs@.subrange(e + 1, hi as int));
    exponent_at(cs, e + 1, hi)
}


// ---------------------------------------------------------------------------
// Parsing.
// ---------------------------------------------------------------------------

/// What the lines of a media playlist read so far have given: the playlist
/// fields, the low-latency directives, and what is pending for the next
/// segment (its discontinuity marker, byte range, parts and `#EXTINF`
/// duration, and the map in force).
pub struct MediaState {
    pub version: u8,
    pub target: Option<u32>,
    pub media_sequence: u64,
    pub discontinuity_sequence: u64,
    pub iframes_only: bool,
    pub endlist: bool,
    pub extra_tags: Seq<Seq<char>>,
    pub segments: Seq<SegmentView>,
    pub reports: Seq<ReportView>,
    pub skip: Option<SkipView>,
    pub saw_header: bool,
    pub ll: LowLatencyView,
    pub saw_ll: bool,
    pub map: Option<MapView>,
    pub disc: bool,
    pub byte_range: Option<ByteRange>,
    pub parts: Seq<PartView>,
    pub duration: Option<Seq<char>>,
}

pub open spec fn no_ll() -> LowLatencyView {
    LowLatencyView {
        part_target: None,
        part_hold_back: None,
        can_skip_until: None,
        preload_hint: None,
        preload_hint_type: PreloadHintType::Part,
        preload_hint_byte_range_start: None,
        preload_hint_byte_range_length: None,
    }
}

pub open spec fn media_init() -> MediaState {
    MediaState {
        version: 1,
        target: None,
        media_sequence: 0,
        discontinuity_sequence: 0,
        iframes_only: false,
        endlist: false,
        extra_tags: Seq::empty(),
        segments: Seq::empty(),
        reports: Seq::empty(),
        skip: None,
        saw_header: false,
        ll: no_ll(),
        saw_ll: false,
        map: None,
        disc: false,
        byte_range: None,
        parts: Seq::empty(),
        duration: None,
    }
}

/// The text of `t` after the prefix `p`.
pub open spec fn after(t: Seq<char>, p: Seq<char>) -> Seq<char> {
    t.skip(p.len() as int)
}

/// A decimal floating-point value, trimmed; `None` when malformed.
pub open spec fn float_value(v: Seq<char>) -> Option<Seq<char>> {
    if is_decimal_float(trim(v)) {
        Some(trim(v))
    } else {
        None
    }
}

/// `v` where it is given, else `old`.
pub open spec fn or_keep<T>(v: Option<T>, old: Option<T>) -> Option<T> {
    if v is Some {
        v
    } else {
        old
    }
}

/// An optional decimal floating-point attribute: `Some(None)` when absent,
/// `None` when malformed.
pub open spec fn float_attr(items: Seq<(Seq<char>, Seq<char>)>, key: Seq<char>) -> Option<
    Option<Seq<char>>,
> {
    match attr_get(items, key) {
        None => Some(None),
        Some(v) => match float_value(v) {
            Some(t) => Some(Some(t)),
            None => None,
        },
    }
}

/// An optional unsigned 64-bit attribute: `Some(None)` when absent, `None`
/// when malformed.
pub open spec fn uint_attr(items: Seq<(Seq<char>, Seq<char>)>, key: Seq<char>) -> Option<Option<u64>> {
    match attr_get(items, key) {
        None => Some(None),
        Some(v) => match parse_uint(v, u64::MAX as nat) {
            Some(n) => Some(Some(n as u64)),
            None => None,
        },
    }
}

pub open spec fn byte_range_of(v: Seq<char>) -> Option<ByteRange> {
    match parse_byte_range(v) {
        Some(p) => Some(ByteRange { length: p.0, offset: p.1 }),
        None => None,
    }
}

/// An optional `BYTERANGE` attribute: `Some(None)` when absent, `None` when
/// malformed.
pub open spec fn br_attr(items: Seq<(Seq<char>, Seq<char>)>) -> Option<Option<ByteRange>> {
    match attr_get(items, "BYTERANGE"@) {
        None => Some(None),
        Some(v) => match byte_range_of(v) {
            Some(b) => Some(Some(b)),
            None => None,
        },
    }
}

/// `#EXT-X-MAP`: `URI` is required.
pub open spec fn map_tag(items: Seq<(Seq<char>, Seq<char>)>) -> Option<MapView> {
    match (attr_get(items, "URI"@), br_attr(items)) {
        (Some(u), Some(br)) => Some(MapView { uri: u, byte_range: br }),
        _ => None,
    }
}

/// `#EXT-X-PART`: `URI` and `DURATION` are required.
pub open spec fn part_tag(items: Seq<(Seq<char>, Seq<char>)>) -> Option<PartView> {
    match (attr_get(items, "URI"@), attr_get(items, "DURATION"@), br_attr(items)) {
        (Some(u), Some(d), Some(br)) => match float_value(d) {
            Some(t) => Some(
                PartView {
                    uri: u,
                    duration: t,
                    independent: attr_get(items, "INDEPENDENT"@) == Some("YES"@),
                    byte_range: br,
                    gap: attr_get(items, "GAP"@) == Some("YES"@),
                },
            ),
            None => None,
        },
        _ => None,
    }
}

/// `#EXT-X-RENDITION-REPORT`: `URI` is required, `LAST-MSN` is 0 when absent.
pub open spec fn report_tag(items: Seq<(Seq<char>, Seq<char>)>) -> Option<ReportView> {
    match (attr_get(items, "URI"@), uint_attr(items, "LAST-MSN"@), uint_attr(items, "LAST-PART"@)) {
        (Some(u), Some(msn), Some(lp)) => Some(
            ReportView {
                uri: u,
                last_msn: match msn {
                    Some(n) => n,
                    None => 0,
                },
                last_part: lp,
            },
        ),
        _ => None,
    }
}

/// The non-empty pieces of `s` between tabs.
pub open spec fn split_tabs(s: Seq<char>) -> Seq<Seq<char>>
    decreases s.len(),
{
    let k = find(s, '\t');
    let head = s.take(k as int);
    let rest = if k < s.len() {
        proof {
            crate::text::lemma_find_bound(s, '\t');
        }
        split_tabs(s.skip(k + 1int))
    } else {
        Seq::empty()
    };
    if head.len() > 0 {
        seq![head] + rest
    } else {
        rest
    }
}

/// `#EXT-X-SKIP`: `SKIPPED-SEGMENTS` is required.
pub open spec fn skip_tag(items: Seq<(Seq<char>, Seq<char>)>) -> Option<SkipView> {
    match attr_get(items, "SKIPPED-SEGMENTS"@) {
        None => None,
        Some(v) => match parse_uint(v, u64::MAX as nat) {
            None => None,
            Some(n) => Some(
                SkipView {
                    skipped_segments: n as u64,
                    ids: match attr_get(items, "RECENTLY-REMOVED-DATERANGES"@) {
                        Some(r) => split_tabs(r),
                        None => Seq::empty(),
                    },
                },
            ),
        },
    }
}

/// The playlist-level tags: `None` when `t` is none of them, else what the
/// line gives (`None` inside when malformed).
pub open spec fn header_tag(st: MediaState, t: Seq<char>) -> Option<Option<MediaState>> {
    if t == "#EXTM3U"@ {
        Some(Some(MediaState { saw_header: true, ..st }))
    } else if has_prefix(t, "#EXT-X-VERSION:"@) {
        Some(
            match parse_uint(after(t, "#EXT-X-VERSION:"@), 255) {
                Some(v) => Some(MediaState { version: v as u8, ..st }),
                None => None,
            },
        )
    } else if has_prefix(t, "#EXT-X-TARGETDURATION:"@) {
        Some(
            match parse_uint(after(t, "#EXT-X-TARGETDURATION:"@), u32::MAX as nat) {
                Some(v) => Some(MediaState { target: Some(v as u32), ..st }),
                None => None,
            },
        )
    } else if has_prefix(t, "#EXT-X-MEDIA-SEQUENCE:"@) {
        Some(
            match parse_uint(after(t, "#EXT-X-MEDIA-SEQUENCE:"@), u64::MAX as nat) {
                Some(v) => Some(MediaState { media_sequence: v as u64, ..st }),
                None => None,
            },
        )
    } else if has_prefix(t, "#EXT-X-DISCONTINUITY-SEQUENCE:"@) {
        Some(
            match parse_uint(after(t, "#EXT-X-DISCONTINUITY-SEQUENCE:"@), u64::MAX as nat) {
                Some(v) => Some(MediaState { discontinuity_sequence: v as u64, ..st }),
                None => None,
            },
        )
    } else if t == "#EXT-X-I-FRAMES-ONLY"@ {
        Some(Some(MediaState { iframes_only: true, ..st }))
    } else if t == "#EXT-X-ENDLIST"@ {
        Some(Some(MediaState { endlist: true, ..st }))
    } else if t == "#EXT-X-DISCONTINUITY"@ {
        Some(Some(MediaState { disc: true, ..st }))
    } else {
        None
    }
}

/// The tags that apply to the next segment.
pub open spec fn segment_tag(st: MediaState, t: Seq<char>) -> Option<Option<MediaState>> {
    if has_prefix(t, "#EXT-X-BYTERANGE:"@) {
        Some(
            match byte_range_of(after(t, "#EXT-X-BYTERANGE:"@)) {
                Some(b) => Some(MediaState { byte_range: Some(b), ..st }),
                None => None,
            },
        )
    } else if has_prefix(t, "#EXT-X-MAP:"@) {
        Some(
            match map_tag(attr_items(after(t, "#EXT-X-MAP:"@))) {
                Some(m) => Some(MediaState { map: Some(m), ..st }),
                None => None,
            },
        )
    } else if has_prefix(t, "#EXTINF:"@) {
        let r = after(t, "#EXTINF:"@);
        Some(
            match float_value(r.take(find(r, ',') as int)) {
                Some(d) => Some(MediaState { duration: Some(d), ..st }),
                None => None,
            },
        )
    } else {
        None
    }
}

pub open spec fn part_inf_tag(st: MediaState, items: Seq<(Seq<char>, Seq<char>)>) -> Option<MediaState> {
    match float_attr(items, "PART-TARGET"@) {
        Some(v) => Some(
            MediaState {
                ll: LowLatencyView { part_target: or_keep(v, st.ll.part_target), ..st.ll },
                saw_ll: true,
                ..st
            },
        ),
        None => None,
    }
}

pub open spec fn server_control_tag(st: MediaState, items: Seq<(Seq<char>, Seq<char>)>) -> Option<
    MediaState,
> {
    match (float_attr(items, "PART-HOLD-BACK"@), float_attr(items, "CAN-SKIP-UNTIL"@)) {
        (Some(h), Some(c)) => Some(
            MediaState {
                ll: LowLatencyView {
                    part_hold_back: or_keep(h, st.ll.part_hold_back),
                    can_skip_until: or_keep(c, st.ll.can_skip_until),
                    ..st.ll
                },
                saw_ll: true,
                ..st
            },
        ),
        _ => None,
    }
}

pub open spec fn preload_hint_tag(st: MediaState, items: Seq<(Seq<char>, Seq<char>)>) -> Option<
    MediaState,
> {
    match (
        attr_get(items, "URI"@),
        uint_attr(items, "BYTERANGE-START"@),
        uint_attr(items, "BYTERANGE-LENGTH"@),
    ) {
        (Some(u), Some(a), Some(b)) => Some(
            MediaState {
                ll: LowLatencyView {
                    preload_hint: Some(u),
                    preload_hint_type: if attr_get(items, "TYPE"@) == Some("MAP"@) {
                        PreloadHintType::InitSection
                    } else {
                        PreloadHintType::Part
                    },
                    preload_hint_byte_range_start: or_keep(a, st.ll.preload_hint_byte_range_start),
                    preload_hint_byte_range_length: or_keep(b, st.ll.preload_hint_byte_range_length),
                    ..st.ll
                },
                saw_ll: true,
                ..st
            },
        ),
        _ => None,
    }
}

/// The low-latency tags.
pub open spec fn ll_tag(st: MediaState, t: Seq<char>) -> Option<Option<MediaState>> {
    if has_prefix(t, "#EXT-X-PART-INF:"@) {
        Some(part_inf_tag(st, attr_items(after(t, "#EXT-X-PART-INF:"@))))
    } else if has_prefix(t, "#EXT-X-SERVER-CONTROL:"@) {
        Some(server_control_tag(st, attr_items(after(t, "#EXT-X-SERVER-CONTROL:"@))))
    } else if has_prefix(t, "#EXT-X-PART:"@) {
        Some(
            match part_tag(attr_items(after(t, "#EXT-X-PART:"@))) {
                Some(pt) => Some(MediaState { parts: st.parts.push(pt), saw_ll: true, ..st }),
                None => None,
            },
        )
    } else if has_prefix(t, "#EXT-X-PRELOAD-HINT:"@) {
        Some(preload_hint_tag(st, attr_items(after(t, "#EXT-X-PRELOAD-HINT:"@))))
    } else {
        None
    }
}

/// The segment closed by a URI line.
pub open spec fn close_segment(st: MediaState, uri: Seq<char>, d: Seq<char>) -> MediaState {
    MediaState {
        segments: st.segments.push(
            SegmentView {
                uri,
                duration: d,
                discontinuous: st.disc,
                parts: st.parts,
                byte_range: st.byte_range,
                map: st.map,
            },
        ),
        disc: false,
        parts: Seq::empty(),
        byte_range: None,
        duration: None,
        ..st
    }
}

/// Rendition reports, `#EXT-X-SKIP`, unknown tags (kept), comments
/// (skipped) and URI lines (which close a segment and need its `#EXTINF`).
pub open spec fn other_line(st: MediaState, t: Seq<char>) -> Option<MediaState> {
    if has_prefix(t, "#EXT-X-RENDITION-REPORT:"@) {
        match report_tag(attr_items(after(t, "#EXT-X-RENDITION-REPORT:"@))) {
            Some(r) => Some(MediaState { reports: st.reports.push(r), ..st }),
            None => None,
        }
    } else if has_prefix(t, "#EXT-X-SKIP:"@) {
        match skip_tag(attr_items(after(t, "#EXT-X-SKIP:"@))) {
            Some(k) => Some(MediaState { skip: Some(k), ..st }),
            None => None,
        }
    } else if has_prefix(t, "#EXT"@) {
        Some(MediaState { extra_tags: st.extra_tags.push(t), ..st })
    } else if t[0] == '#' {
        Some(st)
    } else {
        match st.duration {
            Some(d) => Some(close_segment(st, t, d)),
            None => None,
        }
    }
}

/// One line of a media playlist, numbered from 1: `None` when malformed.
/// Lines are trimmed (and the first freed of a byte-order mark); blank
/// lines are skipped.
#[verifier::opaque]
pub open spec fn media_line(st: MediaState, line: Seq<char>, line_no: nat) -> Option<MediaState> {
    let t = trim(bom_stripped(line, line_no));
    if t.len() == 0 {
        Some(st)
    } else {
        match header_tag(st, t) {
            Some(r) => r,
            None => match segment_tag(st, t) {
                Some(r) => r,
                None => match ll_tag(st, t) {
                    Some(r) => r,
                    None => other_line(st, t),
                },
            },
        }
    }
}

/// The lines of `s` (split at `\n`), the first numbered `line_no`: the state
/// after the last, or the number of the first malformed line.
pub open spec fn media_lines(st: MediaState, s: Seq<char>, line_no: nat) -> Result<MediaState, nat>
    decreases s.len(),
{
    let k = find(s, '\n');
    match media_line(st, s.take(k as int), line_no) {
        None => Err(line_no),
        Some(st2) => if k >= s.len() {
            Ok(st2)
        } else {
            proof {
                crate::text::lemma_find_bound(s, '\n');
            }
            media_lines(st2, s.skip(k + 1int), line_no + 1)
        },
    }
}

/// The playlist a final state stands for: parts left pending form the open
/// segment; the low-latency directives are there when any low-latency tag was.
pub open spec fn doc_of(st: MediaState, td: u32) -> MediaDocView {
    MediaDocView {
        version: st.version,
        target_duration: td,
        media_sequence: st.media_sequence,
        discontinuity_sequence: st.discontinuity_sequence,
        segments: st.segments,
        open_segment: if st.parts.len() == 0 {
            None
        } else {
            Some(st.parts)
        },
        endlist: st.endlist,
        extra_tags: st.extra_tags,
        low_latency: if st.saw_ll {
            Some(st.ll)
        } else {
            None
        },
        iframes_only: st.iframes_only,
        rendition_reports: st.reports,
        skip: st.skip,
    }
}

/// What a media playlist text reads as: the playlist, or the number of the
/// line at fault (1 when `#EXTM3U` is missing, 0 when
/// `#EXT-X-TARGETDURATION` is).
pub open spec fn spec_parse_media(s: Seq<char>) -> Result<MediaDocView, nat> {
    match media_lines(media_init(), s, 1) {
        Err(n) => Err(n),
        Ok(st) => if !st.saw_header {
            Err(1)
        } else {
            match st.target {
                Some(td) => Ok(doc_of(st, td)),
                None => Err(0),
            }
        },
    }
}


struct MediaParse {
    version: u8,
    target: Option<u32>,
    media_sequence: u64,
    discontinuity_sequence: u64,
    iframes_only: bool,
    endlist: bool,
    extra_tags: Vec<String>,
    segments: Vec<SegmentDoc>,
    reports: Vec<RenditionReport>,
    skip: Option<SkipInfo>,
    saw_header: bool,
    ll: LowLatencyDoc,
    saw_ll: bool,
    map: Option<MapTag>,
    disc: bool,
    byte_range: Option<ByteRange>,
    parts: Vec<PartDoc>,
    duration: Option<String>,
}

impl View for MediaParse {
    type V = MediaState;

    closed spec fn view(&self) -> MediaState {
        MediaState {
            version: self.version,
            target: self.target,
            media_sequence: self.media_sequence,
            discontinuity_sequence: self.discontinuity_sequence,
            iframes_only: self.iframes_only,
            endlist: self.endlist,
            extra_tags: self.extra_tags@.map_values(|t: String| t@),
            segments: self.segments@.map_values(|g: SegmentDoc| g@),
            reports: self.reports@.map_values(|r: RenditionReport| r@),
            skip: match self.skip {
                Some(k) => Some(k@),
                None => None,
            },
            saw_header: self.saw_header,
            ll: self.ll@,
            saw_ll: self.saw_ll,
            map: map_of(self.map),
            disc: self.disc,
            byte_range: self.byte_range,
            parts: parts_of(self.parts@),
            duration: text_of(self.duration),
        }
    }
}

fn substring(input: &str, cs: &Vec<char>, a: usize, b: usize) -> (r: String)
    requires
        cs@ == input@,
        a <= b <= cs.len(),
    ensures
        r@ == cs@.subrange(a as int, b as int),
{
    input.substring_char(a, b).to_owned()
}

fn prefix_at(cs: &Vec<char>, a: usize, b: usize, p: &str) -> (r: bool)
    requires
        a <= b <= cs.len(),
    ensures
        r == has_prefix(cs@.subrange(a as int, b as int), p@),
        r ==> a + p@.len() <= b,
{
    let r = starts_with_at(cs, a, b, p);
    proof {
        let t = cs@.subrange(a as int, b as int);
        if p@.len() <= t.len() {
            assert(t.take(p@.len() as int) =~= cs@.subrange(a as int, a + p@.len()));
        }
    }
    r
}

#[verifier::spinoff_prover]
#[verifier::rlimit(100)]
proof fn lemma_after(cs: Seq<char>, a: int, b: int, p: Seq<char>)
    requires
        0 <= a,
        a + p.len() <= b <= cs.len(),
    ensures
        after(cs.subrange(a, b), p) == cs.subrange(a + p.len(), b),
{
    assert(after(cs.subrange(a, b), p) =~= cs.subrange(a + p.len(), b));
}

fn float_at(input: &str, cs: &Vec<char>, lo: usize, hi: usize) -> (r: Option<String>)
    requires
        cs@ == input@,
        lo <= hi <= cs.len(),
    ensures
        text_of(r) == float_value(cs@.subrange(lo as int, hi as int)),
{
    let (a, b) = trim_range(cs, lo, hi);
    if decimal_float_at(cs, a, b) {
        Some(substring(input, cs, a, b))
    } else {
        None
    }
}

fn float_attr_exec(input: &str, cs: &Vec<char>, items: &Vec<(usize, usize, usize, usize)>, key: &str) -> (r:
    Option<Option<String>>)
    requires
        cs@ == input@,
        crate::text::ranges_ok(items@, 0, cs@.len() as int),
    ensures
        r is Some <==> float_attr(crate::text::ranges_view(cs@, items@), key@) is Some,
        r matches Some(v) ==> text_of(v) == float_attr(crate::text::ranges_view(cs@, items@), key@)->0,
{
    match crate::text::find_attr(cs, items, key) {
        None => Some(None),
        Some((x, y)) => match float_at(input, cs, x, y) {
            Some(t) => Some(Some(t)),
            None => None,
        },
    }
}

fn uint_attr_exec(cs: &Vec<char>, items: &Vec<(usize, usize, usize, usize)>, key: &str) -> (r: Option<
    Option<u64>,
>)
    requires
        crate::text::ranges_ok(items@, 0, cs@.len() as int),
    ensures
        r == uint_attr(crate::text::ranges_view(cs@, items@), key@),
{
    match crate::text::find_attr(cs, items, key) {
        None => Some(None),
        Some((x, y)) => match parse_uint_at(cs, x, y, u64::MAX) {
            Some(n) => Some(Some(n)),
            None => None,
        },
    }
}

fn br_exec(input: &str, cs: &Vec<char>, a: usize, b: usize) -> (r: Option<ByteRange>)
    requires
        cs@ == input@,
        a <= b <= cs.len(),
    ensures
        r == byte_range_of(cs@.subrange(a as int, b as int)),
{
    let t = substring(input, cs, a, b);
    match ByteRange::parse(t.as_str(), 0) {
        Ok(br) => Some(br),
        Err(_) => None,
    }
}

fn br_attr_exec(input: &str, cs: &Vec<char>, items: &Vec<(usize, usize, usize, usize)>) -> (r: Option<
    Option<ByteRange>,
>)
    requires
        cs@ == input@,
        crate::text::ranges_ok(items@, 0, cs@.len() as int),
    ensures
        r == br_attr(crate::text::ranges_view(cs@, items@)),
{
    match crate::text::find_attr(cs, items, "BYTERANGE") {
        None => Some(None),
        Some((x, y)) => match br_exec(input, cs, x, y) {
            Some(b) => Some(Some(b)),
            None => None,
        },
    }
}

fn attr_text_exec(input: &str, cs: &Vec<char>, items: &Vec<(usize, usize, usize, usize)>, key: &str) -> (r:
    Option<String>)
    requires
        cs@ == input@,
        crate::text::ranges_ok(items@, 0, cs@.len() as int),
    ensures
        text_of(r) == attr_get(crate::text::ranges_view(cs@, items@), key@),
{
    match crate::text::find_attr(cs, items, key) {
        Some((x, y)) => Some(substring(input, cs, x, y)),
        None => None,
    }
}

fn attr_is_exec(cs: &Vec<char>, items: &Vec<(usize, usize, usize, usize)>, key: &str, val: &str) -> (r:
    bool)
    requires
        crate::text::ranges_ok(items@, 0, cs@.len() as int),
    ensures
        r == (attr_get(crate::text::ranges_view(cs@, items@), key@) == Some(val@)),
{
    match crate::text::find_attr(cs, items, key) {
        Some((x, y)) => equals_at(cs, x, y, val),
        None => false,
    }
}

fn items_at(cs: &Vec<char>, lo: usize, hi: usize) -> (items: Vec<(usize, usize, usize, usize)>)
    requires
        lo <= hi <= cs.len(),
    ensures
        crate::text::ranges_ok(items@, 0, cs@.len() as int),
        crate::text::ranges_view(cs@, items@) == attr_items(cs@.subrange(lo as int, hi as int)),
{
    let items = crate::text::attr_ranges(cs, lo, hi);
    assert(crate::text::ranges_ok(items@, 0, cs@.len() as int));
    items
}

fn map_tag_exec(input: &str, cs: &Vec<char>, lo: usize, hi: usize) -> (r: Option<MapTag>)
    requires
        cs@ == input@,
        lo <= hi <= cs.len(),
    ensures
        map_of(r) == map_tag(attr_items(cs@.subrange(lo as int, hi as int))),
{
    let items = items_at(cs, lo, hi);
    let uri = attr_text_exec(input, cs, &items, "URI");
    let br = br_attr_exec(input, cs, &items);
    match (uri, br) {
        (Some(u), Some(b)) => Some(MapTag { uri: u, byte_range: b }),
        _ => None,
    }
}

fn part_tag_exec(input: &str, cs: &Vec<char>, lo: usize, hi: usize) -> (r: Option<PartDoc>)
    requires
        cs@ == input@,
        lo <= hi <= cs.len(),
    ensures
        r is Some <==> part_tag(attr_items(cs@.subrange(lo as int, hi as int))) is Some,
        r matches Some(p) ==> p@ == part_tag(attr_items(cs@.subrange(lo as int, hi as int)))->0,
{
    let items = items_at(cs, lo, hi);
    let uri = attr_text_exec(input, cs, &items, "URI");
    let dur = crate::text::find_attr(cs, &items, "DURATION");
    let br = br_attr_exec(input, cs, &items);
    match (uri, dur, br) {
        (Some(u), Some((x, y)), Some(b)) => match float_at(input, cs, x, y) {
            Some(d) => {
                let independent = attr_is_exec(cs, &items, "INDEPENDENT", "YES");
                let gap = attr_is_exec(cs, &items, "GAP", "YES");
                Some(PartDoc { uri: u, duration: d, independent, byte_range: b, gap })
            },
            None => None,
        },
        _ => None,
    }
}

fn report_tag_exec(input: &str, cs: &Vec<char>, lo: usize, hi: usize) -> (r: Option<RenditionReport>)
    requires
        cs@ == input@,
        lo <= hi <= cs.len(),
    ensures
        r is Some <==> report_tag(attr_items(cs@.subrange(lo as int, hi as int))) is Some,
        r matches Some(p) ==> p@ == report_tag(attr_items(cs@.subrange(lo as int, hi as int)))->0,
{
    let items = items_at(cs, lo, hi);
    let uri = attr_text_exec(input, cs, &items, "URI");
    let msn = uint_attr_exec(cs, &items, "LAST-MSN");
    let lp = uint_attr_exec(cs, &items, "LAST-PART");
    match (uri, msn, lp) {
        (Some(u), Some(m), Some(l)) => Some(
            RenditionReport {
                uri: u,
                last_msn: match m {
                    Some(n) => n,
                    None => 0,
                },
                last_part: l,
            },
        ),
        _ => None,
    }
}

fn split_tabs_exec(input: &str, cs: &Vec<char>, lo: usize, hi: usize) -> (r: Vec<String>)
    requires
        cs@ == input@,
        lo <= hi <= cs.len(),
    ensures
        r@.map_values(|t: String| t@) == split_tabs(cs@.subrange(lo as int, hi as int)),
{
    let mut out: Vec<String> = Vec::new();
    let mut i = lo;
    assert(out@.map_values(|t: String| t@) =~= Seq::<Seq<char>>::empty());
    assert(Seq::<Seq<char>>::empty() + split_tabs(cs@.subrange(lo as int, hi as int)) =~= split_tabs(
        cs@.subrange(lo as int, hi as int),
    ));
    loop
        invariant_except_break
            lo <= i <= hi,
            out@.map_values(|t: String| t@) + split_tabs(cs@.subrange(i as int, hi as int))
                == split_tabs(cs@.subrange(lo as int, hi as int)),
        invariant
            cs@ == input@,
            lo <= hi <= cs.len(),
        ensures
            out@.map_values(|t: String| t@) == split_tabs(cs@.subrange(lo as int, hi as int)),
        decreases hi - i,
    {
        let ghost s = cs@.subrange(i as int, hi as int);
        let ghost before = out@.map_values(|t: String| t@);
        let k = find_from(cs, i, hi, '\t');
        assert(s.take(k - i) =~= cs@.subrange(i as int, k as int));
        let ghost rest = if k < hi {
            split_tabs(cs@.subrange(k + 1, hi as int))
        } else {
            Seq::<Seq<char>>::empty()
        };
        proof {
            if k < hi {
                assert(s.skip(k - i + 1) =~= cs@.subrange(k + 1, hi as int));
            }
        }
        assert(split_tabs(s) == (if k > i {
            seq![cs@.subrange(i as int, k as int)] + rest
        } else {
            rest
        }));
        if k > i {
            let piece = substring(input, cs, i, k);
            out.push(piece);
            assert(out@.map_values(|t: String| t@) =~= before.push(cs@.subrange(i as int, k as int)));
            assert(before.push(cs@.subrange(i as int, k as int)) + rest =~= before + (seq![
                cs@.subrange(i as int, k as int),
            ] + rest));
        }
        if k == hi {
            assert(rest =~= Seq::<Seq<char>>::empty());
            assert(out@.map_values(|t: String| t@) + rest =~= out@.map_values(|t: String| t@));
            break;
        }
        i = k + 1;
    }
    out
}

fn skip_tag_exec(input: &str, cs: &Vec<char>, lo: usize, hi: usize) -> (r: Option<SkipInfo>)
    requires
        cs@ == input@,
        lo <= hi <= cs.len(),
    ensures
        r is Some <==> skip_tag(attr_items(cs@.subrange(lo as int, hi as int))) is Some,
        r matches Some(k) ==> k@ == skip_tag(attr_items(cs@.subrange(lo as int, hi as int)))->0,
{
    let items = items_at(cs, lo, hi);
    match crate::text::find_attr(cs, &items, "SKIPPED-SEGMENTS") {
        None => None,
        Some((x, y)) => match parse_uint_at(cs, x, y, u64::MAX) {
            None => None,
            Some(n) => {
                let ids = match crate::text::find_attr(cs, &items, "RECENTLY-REMOVED-DATERANGES") {
                    Some((p, q)) => split_tabs_exec(input, cs, p, q),
                    None => {
                        let v: Vec<String> = Vec::new();
                        assert(v@.map_values(|t: String| t@) =~= Seq::<Seq<char>>::empty());
                        v
                    },
                };
                Some(SkipInfo { skipped_segments: n, recently_removed_daterange_ids: ids })
            },
        },
    }
}

fn clone_map(m: &Option<MapTag>) -> (r: Option<MapTag>)
    ensures
        map_of(r) == map_of(*m),
{
    match m {
        Some(t) => Some(MapTag { uri: t.uri.clone(), byte_range: t.byte_range }),
        None => None,
    }
}


fn header_tag_exec(input: &str, cs: &Vec<char>, a: usize, b: usize, st: &mut MediaParse) -> (r: Option<
    bool,
>)
    requires
        cs@ == input@,
        a <= b <= cs.len(),
    ensures
        r is Some <==> header_tag(old(st)@, cs@.subrange(a as int, b as int)) is Some,
        r is None ==> final(st)@ == old(st)@,
        r matches Some(ok) ==> (ok <==> header_tag(old(st)@, cs@.subrange(a as int, b as int))->0 is Some),
        r matches Some(ok) ==> ok ==> final(st)@ == header_tag(
            old(st)@,
            cs@.subrange(a as int, b as int),
        )->0->0,
{
    if equals_at(cs, a, b, "#EXTM3U") {
        st.saw_header = true;
        return Some(true);
    }
    if prefix_at(cs, a, b, "#EXT-X-VERSION:") {
        let n = "#EXT-X-VERSION:".unicode_len();
        proof {
            lemma_after(cs@, a as int, b as int, "#EXT-X-VERSION:"@);
        }
        match parse_uint_at(cs, a + n, b, 255) {
            Some(v) => {
                st.version = v as u8;
                return Some(true);
            },
            None => {
                return Some(false);
            },
        }
    }
    if prefix_at(cs, a, b, "#EXT-X-TARGETDURATION:") {
        let n = "#EXT-X-TARGETDURATION:".unicode_len();
        proof {
            lemma_after(cs@, a as int, b as int, "#EXT-X-TARGETDURATION:"@);
        }
        match parse_uint_at(cs, a + n, b, 0xFFFF_FFFF) {
            Some(v) => {
                st.target = Some(v as u32);
                return Some(true);
            },
            None => {
                return Some(false);
            },
        }
    }
    if prefix_at(cs, a, b, "#EXT-X-MEDIA-SEQUENCE:") {
        let n = "#EXT-X-MEDIA-SEQUENCE:".unicode_len();
        proof {
            lemma_after(cs@, a as int, b as int, "#EXT-X-MEDIA-SEQUENCE:"@);
        }
        match parse_uint_at(cs, a + n, b, u64::MAX) {
            Some(v) => {
                st.media_sequence = v;
                return Some(true);
            },
            None => {
                return Some(false);
            },
        }
    }
    if prefix_at(cs, a, b, "#EXT-X-DISCONTINUITY-SEQUENCE:") {
        let n = "#EXT-X-DISCONTINUITY-SEQUENCE:".unicode_len();
        proof {
            lemma_after(cs@, a as int, b as int, "#EXT-X-DISCONTINUITY-SEQUENCE:"@);
        }
        match parse_uint_at(cs, a + n, b, u64::MAX) {
            Some(v) => {
                st.discontinuity_sequence = v;
                return Some(true);
            },
            None => {
                return Some(false);
            },
        }
    }
    if equals_at(cs, a, b, "#EXT-X-I-FRAMES-ONLY") {
        st.iframes_only = true;
        return Some(true);
    }
    if equals_at(cs, a, b, "#EXT-X-ENDLIST") {
        st.endlist = true;
        return Some(true);
    }
    if equals_at(cs, a, b, "#EXT-X-DISCONTINUITY") {
        st.disc = true;
        return Some(true);
    }
    None
}

fn segment_tag_exec(input: &str, cs: &Vec<char>, a: usize, b: usize, st: &mut MediaParse) -> (r: Option<
    bool,
>)
    requires
        cs@ == input@,
        a <= b <= cs.len(),
    ensures
        r is Some <==> segment_tag(old(st)@, cs@.subrange(a as int, b as int)) is Some,
        r is None ==> final(st)@ == old(st)@,
        r matches Some(ok) ==> (ok <==> segment_tag(old(st)@, cs@.subrange(a as int, b as int))->0 is Some),
        r matches Some(ok) ==> ok ==> final(st)@ == segment_tag(
            old(st)@,
            cs@.subrange(a as int, b as int),
        )->0->0,
{
    if prefix_at(cs, a, b, "#EXT-X-BYTERANGE:") {
        let n = "#EXT-X-BYTERANGE:".unicode_len();
        proof {
            lemma_after(cs@, a as int, b as int, "#EXT-X-BYTERANGE:"@);
        }
        match br_exec(input, cs, a + n, b) {
            Some(br) => {
                st.byte_range = Some(br);
                return Some(true);
            },
            None => {
                return Some(false);
            },
        }
    }
    if prefix_at(cs, a, b, "#EXT-X-MAP:") {
        let n = "#EXT-X-MAP:".unicode_len();
        proof {
            lemma_after(cs@, a as int, b as int, "#EXT-X-MAP:"@);
        }
        match map_tag_exec(input, cs, a + n, b) {
            Some(m) => {
                st.map = Some(m);
                return Some(true);
            },
            None => {
                return Some(false);
            },
        }
    }
    if prefix_at(cs, a, b, "#EXTINF:") {
        let n = "#EXTINF:".unicode_len();
        proof {
            lemma_after(cs@, a as int, b as int, "#EXTINF:"@);
        }
        let k = find_from(cs, a + n, b, ',');
        assert(cs@.subrange(a + n, b as int).take(k - (a + n)) =~= cs@.subrange(a + n, k as int));
        match float_at(input, cs, a + n, k) {
            Some(d) => {
                st.duration = Some(d);
                return Some(true);
            },
            None => {
                return Some(false);
            },
        }
    }
    None
}

fn ll_tag_exec(input: &str, cs: &Vec<char>, a: usize, b: usize, st: &mut MediaParse) -> (r: Option<bool>)
    requires
        cs@ == input@,
        a <= b <= cs.len(),
    ensures
        r is Some <==> ll_tag(old(st)@, cs@.subrange(a as int, b as int)) is Some,
        r is None ==> final(st)@ == old(st)@,
        r matches Some(ok) ==> (ok <==> ll_tag(old(st)@, cs@.subrange(a as int, b as int))->0 is Some),
        r matches Some(ok) ==> ok ==> final(st)@ == ll_tag(
            old(st)@,
            cs@.subrange(a as int, b as int),
        )->0->0,
{
    if prefix_at(cs, a, b, "#EXT-X-PART-INF:") {
        let n = "#EXT-X-PART-INF:".unicode_len();
        proof {
            lemma_after(cs@, a as int, b as int, "#EXT-X-PART-INF:"@);
        }
        let items = items_at(cs, a + n, b);
        match float_attr_exec(input, cs, &items, "PART-TARGET") {
            Some(v) => {
                match v {
                    Some(t) => {
                        st.ll.part_target = Some(t);
                    },
                    None => {},
                }
                st.saw_ll = true;
                return Some(true);
            },
            None => {
                return Some(false);
            },
        }
    }
    if prefix_at(cs, a, b, "#EXT-X-SERVER-CONTROL:") {
        let n = "#EXT-X-SERVER-CONTROL:".unicode_len();
        proof {
            lemma_after(cs@, a as int, b as int, "#EXT-X-SERVER-CONTROL:"@);
        }
        let items = items_at(cs, a + n, b);
        let h = float_attr_exec(input, cs, &items, "PART-HOLD-BACK");
        let c = float_attr_exec(input, cs, &items, "CAN-SKIP-UNTIL");
        match (h, c) {
            (Some(h), Some(c)) => {
                match h {
                    Some(t) => {
                        st.ll.part_hold_back = Some(t);
                    },
                    None => {},
                }
                match c {
                    Some(t) => {
                        st.ll.can_skip_until = Some(t);
                    },
                    None => {},
                }
                st.saw_ll = true;
                return Some(true);
            },
            _ => {
                return Some(false);
            },
        }
    }
    if prefix_at(cs, a, b, "#EXT-X-PART:") {
        let n = "#EXT-X-PART:".unicode_len();
        proof {
            lemma_after(cs@, a as int, b as int, "#EXT-X-PART:"@);
        }
        match part_tag_exec(input, cs, a + n, b) {
            Some(p) => {
                let ghost before = parts_of(st.parts@);
                let ghost pv = p@;
                st.parts.push(p);
                assert(parts_of(st.parts@) =~= before.push(pv));
                st.saw_ll = true;
                return Some(true);
            },
            None => {
                return Some(false);
            },
        }
    }
    if prefix_at(cs, a, b, "#EXT-X-PRELOAD-HINT:") {
        let n = "#EXT-X-PRELOAD-HINT:".unicode_len();
        proof {
            lemma_after(cs@, a as int, b as int, "#EXT-X-PRELOAD-HINT:"@);
        }
        let items = items_at(cs, a + n, b);
        let uri = attr_text_exec(input, cs, &items, "URI");
        let start = uint_attr_exec(cs, &items, "BYTERANGE-START");
        let len = uint_attr_exec(cs, &items, "BYTERANGE-LENGTH");
        let is_map = attr_is_exec(cs, &items, "TYPE", "MAP");
        match (uri, start, len) {
            (Some(u), Some(x), Some(y)) => {
                st.ll.preload_hint = Some(u);
                st.ll.preload_hint_type = if is_map {
                    PreloadHintType::InitSection
                } else {
                    PreloadHintType::Part
                };
                if x.is_some() {
                    st.ll.preload_hint_byte_range_start = x;
                }
                if y.is_some() {
                    st.ll.preload_hint_byte_range_length = y;
                }
                st.saw_ll = true;
                return Some(true);
            },
            _ => {
                return Some(false);
            },
        }
    }
    None
}

fn other_line_exec(input: &str, cs: &Vec<char>, a: usize, b: usize, st: &mut MediaParse) -> (ok: bool)
    requires
        cs@ == input@,
        a < b <= cs.len(),
    ensures
        ok <==> other_line(old(st)@, cs@.subrange(a as int, b as int)) is Some,
        ok ==> final(st)@ == other_line(old(st)@, cs@.subrange(a as int, b as int))->0,
{
    let ghost t = cs@.subrange(a as int, b as int);
    if prefix_at(cs, a, b, "#EXT-X-RENDITION-REPORT:") {
        let n = "#EXT-X-RENDITION-REPORT:".unicode_len();
        proof {
            lemma_after(cs@, a as int, b as int, "#EXT-X-RENDITION-REPORT:"@);
        }
        match report_tag_exec(input, cs, a + n, b) {
            Some(r) => {
                let ghost before = st@.reports;
                let ghost rv = r@;
                st.reports.push(r);
                assert(st@.reports =~= before.push(rv));
                return true;
            },
            None => {
                return false;
            },
        }
    }
    if prefix_at(cs, a, b, "#EXT-X-SKIP:") {
        let n = "#EXT-X-SKIP:".unicode_len();
        proof {
            lemma_after(cs@, a as int, b as int, "#EXT-X-SKIP:"@);
        }
        match skip_tag_exec(input, cs, a + n, b) {
            Some(k) => {
                st.skip = Some(k);
                return true;
            },
            None => {
                return false;
            },
        }
    }
    if prefix_at(cs, a, b, "#EXT") {
        let line = substring(input, cs, a, b);
        let ghost before = st@.extra_tags;
        st.extra_tags.push(line);
        assert(st@.extra_tags =~= before.push(t));
        return true;
    }
    assert(t[0] == cs@[a as int]);
    if cs[a] == '#' {
        return true;
    }
    let mut dur: Option<String> = None;
    std::mem::swap(&mut dur, &mut st.duration);
    match dur {
        None => false,
        Some(d) => {
            let ghost old_st = old(st)@;
            let uri = substring(input, cs, a, b);
            let mut parts: Vec<PartDoc> = Vec::new();
            std::mem::swap(&mut parts, &mut st.parts);
            let map = clone_map(&st.map);
            let seg = SegmentDoc {
                uri,
                duration: d,
                discontinuous: st.disc,
                parts,
                byte_range: st.byte_range,
                map,
            };
            let ghost sv = seg@;
            let ghost before = st@.segments;
            st.segments.push(seg);
            st.disc = false;
            st.byte_range = None;
            assert(st@.segments =~= before.push(sv));
            assert(parts_of(st.parts@) =~= Seq::<PartView>::empty());
            assert(st@ == close_segment(old_st, t, d@));
            true
        },
    }
}

fn media_line_exec(
    input: &str,
    cs: &Vec<char>,
    lo: usize,
    hi: usize,
    line_no: usize,
    st: &mut MediaParse,
) -> (ok: bool)
    requires
        cs@ == input@,
        lo <= hi <= cs.len(),
    ensures
        ok == media_line(old(st)@, cs@.subrange(lo as int, hi as int), line_no as nat) is Some,
        ok ==> final(st)@ == media_line(
            old(st)@,
            cs@.subrange(lo as int, hi as int),
            line_no as nat,
        )->0,
{
    proof {
        reveal(media_line);
    }
    let ghost line = cs@.subrange(lo as int, hi as int);
    let mut lo2 = lo;
    if line_no == 1 && lo < hi && cs[lo] == '\u{feff}' {
        lo2 = lo + 1;
    }
    assert(bom_stripped(line, line_no as nat) =~= cs@.subrange(lo2 as int, hi as int));
    let (a, b) = trim_range(cs, lo2, hi);
    if a == b {
        return true;
    }
    match header_tag_exec(input, cs, a, b, st) {
        Some(ok) => {
            return ok;
        },
        None => {},
    }
    match segment_tag_exec(input, cs, a, b, st) {
        Some(ok) => {
            return ok;
        },
        None => {},
    }
    match ll_tag_exec(input, cs, a, b, st) {
        Some(ok) => {
            return ok;
        },
        None => {},
    }
    other_line_exec(input, cs, a, b, st)
}

/// Parse a media playlist: the inverse of [`render_media_playlist`]. Unknown
/// `#EXT` tags are kept, in order, as extra tags; other `#` lines are
/// comments. A malformed known tag, a URI line without a preceding
/// `#EXTINF`, or a missing `#EXTM3U` or `#EXT-X-TARGETDURATION` is an error
/// that names the line.
pub fn parse_media_playlist(input: &str) -> (r: Result<MediaPlaylistDoc, Error>)
    requires
        input@.len() < usize::MAX,
    ensures
        match spec_parse_media(input@) {
            Ok(v) => r matches Ok(p) && p@ == v,
            Err(n) => r == Err::<MediaPlaylistDoc, Error>(Error::HlsParse { line_no: n as usize }),
        },
{
    let cs = chars_of(input);
    let n = cs.len();
    let mut st = MediaParse {
        version: 1,
        target: None,
        media_sequence: 0,
        discontinuity_sequence: 0,
        iframes_only: false,
        endlist: false,
        extra_tags: Vec::new(),
        segments: Vec::new(),
        reports: Vec::new(),
        skip: None,
        saw_header: false,
        ll: LowLatencyDoc {
            part_target: None,
            part_hold_back: None,
            can_skip_until: None,
            preload_hint: None,
            preload_hint_type: PreloadHintType::Part,
            preload_hint_byte_range_start: None,
            preload_hint_byte_range_length: None,
        },
        saw_ll: false,
        map: None,
        disc: false,
        byte_range: None,
        parts: Vec::new(),
        duration: None,
    };
    assert(st@ == media_init()) by {
        assert(st@.extra_tags =~= Seq::<Seq<char>>::empty());
        assert(st@.segments =~= Seq::<SegmentView>::empty());
        assert(st@.reports =~= Seq::<ReportView>::empty());
        assert(st@.parts =~= Seq::<PartView>::empty());
    }
    assert(cs@.subrange(0, n as int) =~= input@);
    let mut pos: usize = 0;
    let mut line_no: usize = 1;
    loop
        invariant_except_break
            pos <= n,
            1 <= line_no <= pos + 1,
            media_lines(st@, cs@.subrange(pos as int, n as int), line_no as nat) == media_lines(
                media_init(),
                input@,
                1,
            ),
        invariant
            n == cs.len(),
            cs@ == input@,
            n < usize::MAX,
        ensures
            media_lines(media_init(), input@, 1) == Ok::<MediaState, nat>(st@),
        decreases n - pos,
    {
        let ghost s = cs@.subrange(pos as int, n as int);
        let k = find_from(&cs, pos, n, '\n');
        assert(s.take(k - pos) =~= cs@.subrange(pos as int, k as int));
        let ok = media_line_exec(input, &cs, pos, k, line_no, &mut st);
        if !ok {
            return Err(Error::HlsParse { line_no });
        }
        if k == n {
            break;
        }
        assert(s.skip(k - pos + 1) =~= cs@.subrange(k + 1, n as int));
        pos = k + 1;
        line_no = line_no + 1;
    }
    if !st.saw_header {
        return Err(Error::HlsParse { line_no: 1 });
    }
    let td = match st.target {
        Some(td) => td,
        None => {
            return Err(Error::HlsParse { line_no: 0 });
        },
    };
    let ghost fin = st@;
    let open_segment = if st.parts.len() == 0 {
        None
    } else {
        Some(st.parts)
    };
    let low_latency = if st.saw_ll {
        Some(st.ll)
    } else {
        None
    };
    let p = MediaPlaylistDoc {
        version: st.version,
        target_duration: td,
        media_sequence: st.media_sequence,
        discontinuity_sequence: st.discontinuity_sequence,
        segments: st.segments,
        open_segment,
        endlist: st.endlist,
        extra_tags: st.extra_tags,
        low_latency,
        iframes_only: st.iframes_only,
        rendition_reports: st.reports,
        skip: st.skip,
    };
    assert(p@ == doc_of(fin, td));
    Ok(p)
}


fn bytes_equal(a: &[u8], b: &[u8]) -> (r: bool)
    ensures
        r == (a@ == b@),
{
    if a.len() != b.len() {
        return false;
    }
    let mut i: usize = 0;
    while i < a.len()
        invariant
            a.len() == b.len(),
            i <= a.len(),
            forall|k: int| 0 <= k < i ==> a@[k] == b@[k],
        decreases a.len() - i,
    {
        if a[i] != b[i] {
            return false;
        }
        i = i + 1;
    }
    assert(a@ =~= b@);
    true
}

/// A segment marked discontinuous where its initialization section differs
/// from the one of the segment before it.
pub open spec fn marked(seg: SegmentView, changed: bool) -> SegmentView {
    SegmentView { discontinuous: seg.discontinuous || changed, ..seg }
}

/// Mark every segment whose initialization section (`inits[i]`, in playlist
/// order) differs from that of the segment before it as discontinuous; the
/// first segment has nothing before it and is left as it is.
pub fn mark_init_discontinuities(inits: &[&[u8]], segments: &mut Vec<SegmentDoc>)
    requires
        inits.len() == old(segments).len(),
    ensures
        final(segments).len() == old(segments).len(),
        forall|i: int|
            0 <= i < old(segments).len() ==> (#[trigger] final(segments)@[i])@ == marked(
                old(segments)@[i]@,
                i > 0 && inits@[i]@ != inits@[i - 1]@,
            ),
{
    let n = segments.len();
    let mut i: usize = 1;
    if n < 2 {
        return;
    }
    while i < n
        invariant
            n == segments.len(),
            n == old(segments).len(),
            inits.len() == n,
            1 <= i <= n,
            forall|k: int|
                0 <= k < i ==> (#[trigger] segments@[k])@ == marked(
                    old(segments)@[k]@,
                    k > 0 && inits@[k]@ != inits@[k - 1]@,
                ),
            forall|k: int| i <= k < n ==> (#[trigger] segments@[k]) == old(segments)@[k],
        decreases n - i,
    {
        if !bytes_equal(inits[i], inits[i - 1]) {
            let ghost before = segments@;
            let mut seg = segments.remove(i);
            seg.discontinuous = true;
            segments.insert(i, seg);
            assert forall|k: int| 0 <= k < n && k != i implies segments@[k] == before[k] by {
                assert(segments@ == before.remove(i as int).insert(i as int, seg));
            }
            assert(segments@[i as int] == seg);
        }
        i = i + 1;
    }
}


// ---------------------------------------------------------------------------
// Reading back what was written.
// ---------------------------------------------------------------------------

/// The tags the parser knows, by the test it makes of a line.
pub open spec fn known_tag(t: Seq<char>) -> bool {
    ||| t == "#EXTM3U"@
    ||| has_prefix(t, "#EXT-X-VERSION:"@)
    ||| has_prefix(t, "#EXT-X-TARGETDURATION:"@)
    ||| has_prefix(t, "#EXT-X-MEDIA-SEQUENCE:"@)
    ||| has_prefix(t, "#EXT-X-DISCONTINUITY-SEQUENCE:"@)
    ||| t == "#EXT-X-I-FRAMES-ONLY"@
    ||| t == "#EXT-X-ENDLIST"@
    ||| t == "#EXT-X-DISCONTINUITY"@
    ||| has_prefix(t, "#EXT-X-BYTERANGE:"@)
    ||| has_prefix(t, "#EXT-X-MAP:"@)
    ||| has_prefix(t, "#EXTINF:"@)
    ||| has_prefix(t, "#EXT-X-PART-INF:"@)
    ||| has_prefix(t, "#EXT-X-SERVER-CONTROL:"@)
    ||| has_prefix(t, "#EXT-X-PART:"@)
    ||| has_prefix(t, "#EXT-X-PRELOAD-HINT:"@)
    ||| has_prefix(t, "#EXT-X-RENDITION-REPORT:"@)
    ||| has_prefix(t, "#EXT-X-SKIP:"@)
}

/// An extra tag that reads back as itself: an `#EXT` line that is none of
/// the known tags, on one line, without trailing whitespace.
pub open spec fn extra_tag_ok(t: Seq<char>) -> bool {
    &&& has_prefix(t, "#EXT"@)
    &&& !known_tag(t)
    &&& lacks(t, '\n')
    &&& !is_ws(t.last())
}

pub open spec fn part_ok(p: PartView) -> bool {
    quotable(p.uri) && is_decimal_float(p.duration)
}

pub open spec fn parts_ok(ps: Seq<PartView>) -> bool {
    forall|i: int| 0 <= i < ps.len() ==> part_ok(#[trigger] ps[i])
}

pub open spec fn segment_ok(s: SegmentView, ll: bool) -> bool {
    &&& uri_line_ok(s.uri)
    &&& is_decimal_float(s.duration)
    &&& (s.map matches Some(m) ==> quotable(m.uri))
    &&& parts_ok(s.parts)
    &&& (!ll ==> s.parts.len() == 0)
}

/// Once a segment has a map, every later one has one: the text cannot
/// take a map back.
pub open spec fn maps_carry(segs: Seq<SegmentView>) -> bool {
    forall|i: int| 0 < i < segs.len() ==> ((#[trigger] segs[i]).map is None ==> segs[i - 1].map is None)
}

pub open spec fn ll_ok(l: LowLatencyView) -> bool {
    &&& (l.part_target matches Some(t) ==> is_decimal_float(t))
    &&& (l.part_hold_back matches Some(t) ==> is_decimal_float(t))
    &&& (l.can_skip_until matches Some(t) ==> is_decimal_float(t))
    &&& match l.preload_hint {
        Some(u) => quotable(u),
        None => l.preload_hint_type == PreloadHintType::Part && l.preload_hint_byte_range_start is None
            && l.preload_hint_byte_range_length is None,
    }
}

pub open spec fn skip_ok(k: SkipView) -> bool {
    forall|i: int| 0 <= i < k.ids.len() ==> (#[trigger] k.ids[i]).len() > 0 && lacks(k.ids[i], '\t') && quotable(k.ids[i])
}

/// The media playlists whose text reads back as themselves: durations that
/// are decimal floating-point text; URIs, daterange IDs and map URIs that can
/// stand where they are written; extra tags that are unknown `#EXT` lines;
/// maps that are never taken back; parts and an open segment (which has
/// parts) only in a low-latency playlist; no preload-hint details without a
/// hint; and a version of at least 4 where `#EXT-X-I-FRAMES-ONLY` raises it.
pub open spec fn media_round_trips(p: MediaDocView) -> bool {
    &&& (p.iframes_only ==> p.version >= 4)
    &&& forall|i: int| 0 <= i < p.segments.len() ==> segment_ok(#[trigger] p.segments[i], p.low_latency is Some)
    &&& maps_carry(p.segments)
    &&& match p.open_segment {
        Some(ps) => ps.len() > 0 && p.low_latency is Some && parts_ok(ps),
        None => true,
    }
    &&& (p.low_latency matches Some(l) ==> ll_ok(l))
    &&& forall|i: int| 0 <= i < p.extra_tags.len() ==> extra_tag_ok(#[trigger] p.extra_tags[i])
    &&& forall|i: int| 0 <= i < p.rendition_reports.len() ==> quotable(#[trigger] p.rendition_reports[i].uri)
    &&& (p.skip matches Some(k) ==> skip_ok(k))
}

/// What the leading characters of a known tag are.
#[verifier::spinoff_prover]
#[verifier::rlimit(100)]
proof fn lemma_tag_chars(t: Seq<char>)
    ensures
        t == "#EXTM3U"@ ==> t.len() == 7 && t[0] == '#' && t[4] == 'M',
        has_prefix(t, "#EXT-X-VERSION:"@) ==> t[0] == '#' && t[4] == '-' && t[7] == 'V',
        has_prefix(t, "#EXT-X-TARGETDURATION:"@) ==> t[0] == '#' && t[4] == '-' && t[7] == 'T',
        has_prefix(t, "#EXT-X-MEDIA-SEQUENCE:"@) ==> t[0] == '#' && t[4] == '-' && t[7] == 'M' && t[8] == 'E',
        has_prefix(t, "#EXT-X-DISCONTINUITY-SEQUENCE:"@) ==> t[0] == '#' && t[4] == '-' && t[7] == 'D' && t.len() >= 30,
        t == "#EXT-X-I-FRAMES-ONLY"@ ==> t[0] == '#' && t[4] == '-' && t[7] == 'I',
        t == "#EXT-X-ENDLIST"@ ==> t[0] == '#' && t[4] == '-' && t[7] == 'E',
        t == "#EXT-X-DISCONTINUITY"@ ==> t[0] == '#' && t[4] == '-' && t[7] == 'D' && t.len() == 20,
        has_prefix(t, "#EXT-X-BYTERANGE:"@) ==> t[0] == '#' && t[4] == '-' && t[7] == 'B',
        has_prefix(t, "#EXT-X-MAP:"@) ==> t[0] == '#' && t[4] == '-' && t[7] == 'M' && t[8] == 'A',
        has_prefix(t, "#EXTINF:"@) ==> t[0] == '#' && t[4] == 'I',
        has_prefix(t, "#EXT-X-PART-INF:"@) ==> t[0] == '#' && t[4] == '-' && t[7] == 'P' && t[8] == 'A' && t[11] == '-',
        has_prefix(t, "#EXT-X-SERVER-CONTROL:"@) ==> t[0] == '#' && t[4] == '-' && t[7] == 'S' && t[8] == 'E',
        has_prefix(t, "#EXT-X-PART:"@) ==> t[0] == '#' && t[4] == '-' && t[7] == 'P' && t[8] == 'A' && t[11] == ':',
        has_prefix(t, "#EXT-X-PRELOAD-HINT:"@) ==> t[0] == '#' && t[4] == '-' && t[7] == 'P' && t[8] == 'R',
        has_prefix(t, "#EXT-X-RENDITION-REPORT:"@) ==> t[0] == '#' && t[4] == '-' && t[7] == 'R',
        has_prefix(t, "#EXT-X-SKIP:"@) ==> t[0] == '#' && t[4] == '-' && t[7] == 'S' && t[8] == 'K',
        has_prefix(t, "#EXT"@) ==> t[0] == '#',
{
    reveal_strlit("#EXTM3U");
    reveal_strlit("#EXT-X-VERSION:");
    reveal_strlit("#EXT-X-TARGETDURATION:");
    reveal_strlit("#EXT-X-MEDIA-SEQUENCE:");
    reveal_strlit("#EXT-X-DISCONTINUITY-SEQUENCE:");
    reveal_strlit("#EXT-X-I-FRAMES-ONLY");
    reveal_strlit("#EXT-X-ENDLIST");
    reveal_strlit("#EXT-X-DISCONTINUITY");
    reveal_strlit("#EXT-X-BYTERANGE:");
    reveal_strlit("#EXT-X-MAP:");
    reveal_strlit("#EXTINF:");
    reveal_strlit("#EXT-X-PART-INF:");
    reveal_strlit("#EXT-X-SERVER-CONTROL:");
    reveal_strlit("#EXT-X-PART:");
    reveal_strlit("#EXT-X-PRELOAD-HINT:");
    reveal_strlit("#EXT-X-RENDITION-REPORT:");
    reveal_strlit("#EXT-X-SKIP:");
    reveal_strlit("#EXT");
    if has_prefix(t, "#EXT-X-VERSION:"@) {
        lemma_prefix_chars(t, "#EXT-X-VERSION:"@);
    }
    if has_prefix(t, "#EXT-X-TARGETDURATION:"@) {
        lemma_prefix_chars(t, "#EXT-X-TARGETDURATION:"@);
    }
    if has_prefix(t, "#EXT-X-MEDIA-SEQUENCE:"@) {
        lemma_prefix_chars(t, "#EXT-X-MEDIA-SEQUENCE:"@);
    }
    if has_prefix(t, "#EXT-X-DISCONTINUITY-SEQUENCE:"@) {
        lemma_prefix_chars(t, "#EXT-X-DISCONTINUITY-SEQUENCE:"@);
    }
    if has_prefix(t, "#EXT-X-BYTERANGE:"@) {
        lemma_prefix_chars(t, "#EXT-X-BYTERANGE:"@);
    }
    if has_prefix(t, "#EXT-X-MAP:"@) {
        lemma_prefix_chars(t, "#EXT-X-MAP:"@);
    }
    if has_prefix(t, "#EXTINF:"@) {
        lemma_prefix_chars(t, "#EXTINF:"@);
    }
    if has_prefix(t, "#EXT-X-PART-INF:"@) {
        lemma_prefix_chars(t, "#EXT-X-PART-INF:"@);
    }
    if has_prefix(t, "#EXT-X-SERVER-CONTROL:"@) {
        lemma_prefix_chars(t, "#EXT-X-SERVER-CONTROL:"@);
    }
    if has_prefix(t, "#EXT-X-PART:"@) {
        lemma_prefix_chars(t, "#EXT-X-PART:"@);
    }
    if has_prefix(t, "#EXT-X-PRELOAD-HINT:"@) {
        lemma_prefix_chars(t, "#EXT-X-PRELOAD-HINT:"@);
    }
    if has_prefix(t, "#EXT-X-RENDITION-REPORT:"@) {
        lemma_prefix_chars(t, "#EXT-X-RENDITION-REPORT:"@);
    }
    if has_prefix(t, "#EXT-X-SKIP:"@) {
        lemma_prefix_chars(t, "#EXT-X-SKIP:"@);
    }
    if has_prefix(t, "#EXT"@) {
        lemma_prefix_chars(t, "#EXT"@);
    }
}

#[verifier::spinoff_prover]
#[verifier::rlimit(100)]
proof fn lemma_prefix_chars(t: Seq<char>, p: Seq<char>)
    requires
        has_prefix(t, p),
    ensures
        forall|i: int| 0 <= i < p.len() ==> #[trigger] t[i] == p[i],
{
    assert forall|i: int| 0 <= i < p.len() implies #[trigger] t[i] == p[i] by {
        assert(t.take(p.len() as int)[i] == t[i]);
    }
}

/// A line followed by `\n` is read on its own, the rest from the next line.
#[verifier::spinoff_prover]
#[verifier::rlimit(100)]
proof fn lemma_step(st: MediaState, l: Seq<char>, rest: Seq<char>, n: nat, st2: MediaState)
    requires
        lacks(l, '\n'),
        media_line(st, l, n) == Some(st2),
    ensures
        media_lines(st, l + "\n"@ + rest, n) == media_lines(st2, rest, n + 1),
{
    reveal_strlit("\n");
    let s = l + "\n"@ + rest;
    crate::text::lemma_find_at(s, '\n', l.len() as int);
    assert(s.take(l.len() as int) =~= l);
    assert(s.skip(l.len() + 1int) =~= rest);
}

#[verifier::spinoff_prover]
#[verifier::rlimit(100)]
proof fn lemma_end(st: MediaState, n: nat)
    ensures
        media_lines(st, Seq::empty(), n) == Ok::<MediaState, nat>(st),
{
    reveal(media_line);
    assert(Seq::<char>::empty().take(0) =~= Seq::<char>::empty());
}

/// The characters decimal floating-point text is made of.
pub open spec fn plain_char(c: char) -> bool {
    ||| is_sign(c)
    ||| is_digit(c)
    ||| c == '.'
    ||| 65 <= (c as u32) <= 90
    ||| 97 <= (c as u32) <= 122
}

pub open spec fn all_plain(s: Seq<char>) -> bool {
    forall|k: int| 0 <= k < s.len() ==> plain_char(#[trigger] s[k])
}

pub open spec fn all_lower(s: Seq<char>) -> bool {
    forall|k: int| 0 <= k < s.len() ==> 97 <= (#[trigger] s[k] as u32) <= 122
}

#[verifier::spinoff_prover]
#[verifier::rlimit(100)]
proof fn lemma_words_lower()
    ensures
        all_lower("inf"@),
        all_lower("infinity"@),
        all_lower("nan"@),
{
    reveal_strlit("inf");
    reveal_strlit("infinity");
    reveal_strlit("nan");
    assert forall|k: int| 0 <= k < "infinity"@.len() implies 97 <= (#[trigger] "infinity"@[k] as u32) <= 122 by {
        if k == 0 {} else if k == 1 {} else if k == 2 {} else if k == 3 {} else if k == 4 {} else if k == 5 {} else if k == 6 {} else {}
    }
    assert forall|k: int| 0 <= k < "inf"@.len() implies 97 <= (#[trigger] "inf"@[k] as u32) <= 122 by {
        if k == 0 {} else if k == 1 {} else {}
    }
    assert forall|k: int| 0 <= k < "nan"@.len() implies 97 <= (#[trigger] "nan"@[k] as u32) <= 122 by {
        if k == 0 {} else if k == 1 {} else {}
    }
}

#[verifier::spinoff_prover]
#[verifier::rlimit(100)]
proof fn lemma_ci_plain(t: Seq<char>, lit: Seq<char>)
    requires
        ci_eq(t, lit),
        all_lower(lit),
    ensures
        all_plain(t),
{
    assert forall|k: int| 0 <= k < t.len() implies plain_char(#[trigger] t[k]) by {
        assert(ci_char(t[k], lit[k]));
        assert(97 <= (lit[k] as u32) <= 122);
    }
}

#[verifier::spinoff_prover]
#[verifier::rlimit(100)]
proof fn lemma_find_exp_bound(s: Seq<char>)
    ensures
        find_exp(s) <= s.len(),
        find_exp(s) < s.len() ==> ci_char(s[find_exp(s) as int], 'e'),
    decreases s.len(),
{
    if s.len() > 0 && !ci_char(s[0], 'e') {
        lemma_find_exp_bound(s.drop_first());
    }
}

/// Decimal floating-point text is plain: signs, digits, points and ASCII
/// letters, so no whitespace, comma, quote, tab or line break.
#[verifier::spinoff_prover]
#[verifier::rlimit(100)]
proof fn lemma_float_plain(d: Seq<char>)
    requires
        is_decimal_float(d),
    ensures
        d.len() > 0,
        all_plain(d),
        trim(d) == d,
        lacks(d, ','),
        lacks(d, '"'),
        lacks(d, '\n'),
        lacks(d, '\t'),
        d[0] != '"',
{
    let t = unsigned(d);
    let e = find_exp(t);
    lemma_find_exp_bound(t);
    lemma_words_lower();
    reveal_strlit("inf");
    reveal_strlit("infinity");
    reveal_strlit("nan");
    if ci_eq(t, "inf"@) {
        lemma_ci_plain(t, "inf"@);
    } else if ci_eq(t, "infinity"@) {
        lemma_ci_plain(t, "infinity"@);
    } else if ci_eq(t, "nan"@) {
        lemma_ci_plain(t, "nan"@);
    } else {
        let m = t.take(e as int);
        let dp = find(m, '.');
        crate::text::lemma_find_bound(m, '.');
        assert forall|k: int| 0 <= k < t.len() implies plain_char(#[trigger] t[k]) by {
            if k < e {
                assert(t[k] == m[k]);
                if dp >= m.len() {
                    assert(is_digit(m[k]));
                } else if k < dp {
                    assert(m.take(dp as int)[k] == m[k]);
                    assert(is_digit(m.take(dp as int)[k]));
                } else if k > dp {
                    assert(m.skip(dp + 1int)[k - dp - 1] == m[k]);
                    assert(is_digit(m.skip(dp + 1int)[k - dp - 1]));
                }
            } else if k > e {
                let x = t.skip(e + 1int);
                assert(x[k - e - 1] == t[k]);
                if x.len() > 0 && is_sign(x[0]) {
                    if k - e - 1 > 0 {
                        assert(unsigned(x)[k - e - 2] == x[k - e - 1]);
                        assert(is_digit(unsigned(x)[k - e - 2]));
                    }
                } else {
                    assert(is_digit(unsigned(x)[k - e - 1]));
                }
            } else {
                assert(ci_char(t[k], 'e'));
            }
        }
        assert(t.len() > 0) by {
            if t.len() == 0 {
                assert(m.len() == 0);
            }
        }
    }
    assert(all_plain(t));
    assert forall|k: int| 0 <= k < d.len() implies plain_char(#[trigger] d[k]) by {
        if d.len() > 0 && is_sign(d[0]) {
            if k > 0 {
                assert(d[k] == t[k - 1]);
            }
        } else {
            assert(d[k] == t[k]);
        }
    }
    assert(d.len() > 0);
    assert(plain_char(d[0]));
    assert(plain_char(d[d.len() - 1]));
    crate::text::lemma_trim_id(d);
}


pub open spec fn avoid(ys: Seq<(Seq<char>, Seq<char>)>, key: Seq<char>) -> bool {
    forall|k: int| 0 <= k < ys.len() ==> (#[trigger] ys[k]).0 != key
}

pub open spec fn opt_item(c: bool, key: Seq<char>, val: Seq<char>) -> Seq<(Seq<char>, Seq<char>)> {
    if c {
        seq![(key, val)]
    } else {
        Seq::empty()
    }
}

pub open spec fn key_ok(k: Seq<char>) -> bool {
    k.len() > 0 && !is_attr_sep(k[0]) && lacks(k, '=')
}

#[verifier::spinoff_prover]
#[verifier::rlimit(100)]
proof fn lemma_get_at(xs: Seq<(Seq<char>, Seq<char>)>, key: Seq<char>, v: Seq<char>, ys: Seq<(Seq<char>, Seq<char>)>)
    requires
        avoid(ys, key),
    ensures
        attr_get(xs + seq![(key, v)] + ys, key) == Some(v),
{
    crate::text::lemma_attr_get_tail(xs + seq![(key, v)], ys, key);
    assert((xs + seq![(key, v)]).last() == (key, v));
}

#[verifier::spinoff_prover]
#[verifier::rlimit(100)]
proof fn lemma_get_none(ys: Seq<(Seq<char>, Seq<char>)>, key: Seq<char>)
    requires
        avoid(ys, key),
    ensures
        attr_get(ys, key) is None,
{
    crate::text::lemma_attr_get_tail(Seq::empty(), ys, key);
    assert(Seq::<(Seq<char>, Seq<char>)>::empty() + ys =~= ys);
}

#[verifier::spinoff_prover]
#[verifier::rlimit(100)]
proof fn lemma_avoid_add(a: Seq<(Seq<char>, Seq<char>)>, b: Seq<(Seq<char>, Seq<char>)>, key: Seq<char>)
    requires
        avoid(a, key),
        avoid(b, key),
    ensures
        avoid(a + b, key),
{
    assert forall|k: int| 0 <= k < (a + b).len() implies (#[trigger] (a + b)[k]).0 != key by {
        if k >= a.len() {
            assert((a + b)[k] == b[k - a.len()]);
        }
    }
}

/// An optional unquoted `,KEY=VALUE` entry.
#[verifier::spinoff_prover]
#[verifier::rlimit(100)]
proof fn lemma_opt_unquoted(c: bool, key: Seq<char>, val: Seq<char>, rest: Seq<char>)
    requires
        key_ok(key),
        lacks(val, ','),
        val.len() == 0 || val[0] != '"',
        rest.len() == 0 || rest[0] == ',',
    ensures
        attr_items((if c { seq![','] + key + seq!['='] + val } else { Seq::empty() }) + rest)
            == opt_item(c, key, val) + attr_items(rest),
{
    if c {
        let body = key + seq!['='] + val + rest;
        assert((seq![','] + key + seq!['='] + val) + rest =~= seq![','] + body);
        crate::text::lemma_attr_comma(body);
        crate::text::lemma_attr_unquoted(key, val, rest);
    } else {
        assert(Seq::<char>::empty() + rest =~= rest);
        assert(opt_item(c, key, val) + attr_items(rest) =~= attr_items(rest));
    }
}

/// An optional quoted `,KEY="VALUE"` entry.
#[verifier::spinoff_prover]
#[verifier::rlimit(100)]
proof fn lemma_opt_quoted(c: bool, key: Seq<char>, val: Seq<char>, rest: Seq<char>)
    requires
        key_ok(key),
        lacks(val, '"'),
    ensures
        attr_items((if c { seq![','] + key + seq!['=', '"'] + val + seq!['"'] } else { Seq::empty() }) + rest)
            == opt_item(c, key, val) + attr_items(rest),
{
    if c {
        let body = key + seq!['=', '"'] + val + seq!['"'] + rest;
        assert((seq![','] + key + seq!['=', '"'] + val + seq!['"']) + rest =~= seq![','] + body);
        crate::text::lemma_attr_comma(body);
        crate::text::lemma_attr_quoted(key, val, rest);
    } else {
        assert(Seq::<char>::empty() + rest =~= rest);
        assert(opt_item(c, key, val) + attr_items(rest) =~= attr_items(rest));
    }
}

/// The digits of a number: plain, and free of what separates attributes.
#[verifier::spinoff_prover]
#[verifier::rlimit(100)]
proof fn lemma_num(n: nat)
    ensures
        dec(n).len() > 0,
        all_digits(dec(n)),
        lacks(dec(n), ','),
        lacks(dec(n), '"'),
        lacks(dec(n), '\n'),
        dec(n)[0] != '"',
        !is_ws(dec(n).last()),
        parse_uint(dec(n), n) == Some(n),
{
    crate::text::lemma_dec_digits(n);
    crate::text::lemma_digits_lack(dec(n));
    crate::text::lemma_parse_dec(n, n);
    assert(is_digit(dec(n)[0]));
    assert(is_digit(dec(n)[dec(n).len() - 1]));
}

#[verifier::spinoff_prover]
#[verifier::rlimit(100)]
proof fn lemma_parse_num(n: nat, max: nat)
    requires
        n <= max,
    ensures
        parse_uint(dec(n), max) == Some(n),
{
    crate::text::lemma_parse_dec(n, max);
}

/// A line `lit + v` read as a tag line: it trims to itself, holds no line
/// break, has the prefix `lit`, and what follows it is `v`.
#[verifier::spinoff_prover]
#[verifier::rlimit(100)]
proof fn lemma_tag_text(lit: Seq<char>, v: Seq<char>)
    requires
        lit.len() > 0,
        lit[0] == '#',
        lacks(lit, '\n'),
        lacks(v, '\n'),
        v.len() > 0 ==> !is_ws(v.last()),
        v.len() == 0 ==> !is_ws(lit.last()),
    ensures
        trim(lit + v) == lit + v,
        lacks(lit + v, '\n'),
        has_prefix(lit + v, lit),
        after(lit + v, lit) == v,
        forall|i: int| 0 <= i < lit.len() ==> #[trigger] (lit + v)[i] == lit[i],
{
    let t = lit + v;
    assert(t[0] == '#');
    if v.len() > 0 {
        assert(t.last() == v.last());
    } else {
        assert(t.last() == lit.last());
    }
    crate::text::lemma_trim_id(t);
    crate::text::lemma_lacks_add(lit, v, '\n');
    assert(t.take(lit.len() as int) =~= lit);
    assert(t.skip(lit.len() as int) =~= v);
}

pub open spec fn header_state(p: MediaDocView) -> MediaState {
    MediaState {
        version: p.version,
        target: Some(p.target_duration),
        media_sequence: p.media_sequence,
        discontinuity_sequence: p.discontinuity_sequence,
        iframes_only: p.iframes_only,
        saw_header: true,
        ..media_init()
    }
}

/// A numeric header line `lit + dec(v)`.
#[verifier::spinoff_prover]
#[verifier::rlimit(100)]
proof fn lemma_num_line(lit: Seq<char>, v: nat)
    requires
        lit.len() > 0,
        lit[0] == '#',
        lacks(lit, '\n'),
    ensures
        trim(lit + dec(v)) == lit + dec(v),
        lacks(lit + dec(v), '\n'),
        has_prefix(lit + dec(v), lit),
        after(lit + dec(v), lit) == dec(v),
        forall|i: int| 0 <= i < lit.len() ==> #[trigger] (lit + dec(v))[i] == lit[i],
{
    lemma_num(v);
    lemma_tag_text(lit, dec(v));
}

#[verifier::spinoff_prover]
#[verifier::rlimit(100)]
proof fn lemma_extm3u_line(st: MediaState)
    ensures
        media_line(st, "#EXTM3U"@, 1) == Some(MediaState { saw_header: true, ..st }),
        lacks("#EXTM3U"@, '\n'),
{
    reveal(media_line);
    reveal_strlit("#EXTM3U");
    crate::text::lemma_trim_id("#EXTM3U"@);
}

#[verifier::spinoff_prover]
#[verifier::rlimit(100)]
proof fn lemma_version_line(st: MediaState, v: u8, n: nat)
    requires
        n >= 2,
    ensures
        media_line(st, "#EXT-X-VERSION:"@ + dec(v as nat), n) == Some(MediaState { version: v, ..st }),
        lacks("#EXT-X-VERSION:"@ + dec(v as nat), '\n'),
{
    reveal(media_line);
    reveal_strlit("#EXT-X-VERSION:");
    let l = "#EXT-X-VERSION:"@ + dec(v as nat);
    lemma_num_line("#EXT-X-VERSION:"@, v as nat);
    lemma_tag_chars(l);
    assert(l[4] == '-' && l[7] == 'V');
    lemma_parse_num(v as nat, 255);
}

#[verifier::spinoff_prover]
#[verifier::rlimit(100)]
proof fn lemma_target_line(st: MediaState, v: u32, n: nat)
    requires
        n >= 2,
    ensures
        media_line(st, "#EXT-X-TARGETDURATION:"@ + dec(v as nat), n) == Some(MediaState { target: Some(v), ..st }),
        lacks("#EXT-X-TARGETDURATION:"@ + dec(v as nat), '\n'),
{
    reveal(media_line);
    reveal_strlit("#EXT-X-TARGETDURATION:");
    let l = "#EXT-X-TARGETDURATION:"@ + dec(v as nat);
    lemma_num_line("#EXT-X-TARGETDURATION:"@, v as nat);
    lemma_tag_chars(l);
    assert(l[4] == '-' && l[7] == 'T');
    lemma_parse_num(v as nat, u32::MAX as nat);
}

#[verifier::spinoff_prover]
#[verifier::rlimit(100)]
proof fn lemma_media_seq_line(st: MediaState, v: u64, n: nat)
    requires
        n >= 2,
    ensures
        media_line(st, "#EXT-X-MEDIA-SEQUENCE:"@ + dec(v as nat), n) == Some(MediaState { media_sequence: v, ..st }),
        lacks("#EXT-X-MEDIA-SEQUENCE:"@ + dec(v as nat), '\n'),
{
    reveal(media_line);
    reveal_strlit("#EXT-X-MEDIA-SEQUENCE:");
    let l = "#EXT-X-MEDIA-SEQUENCE:"@ + dec(v as nat);
    lemma_num_line("#EXT-X-MEDIA-SEQUENCE:"@, v as nat);
    lemma_tag_chars(l);
    assert(l[4] == '-' && l[7] == 'M' && l[8] == 'E');
    lemma_parse_num(v as nat, u64::MAX as nat);
}

#[verifier::spinoff_prover]
#[verifier::rlimit(100)]
proof fn lemma_disc_seq_line(st: MediaState, v: u64, n: nat)
    requires
        n >= 2,
    ensures
        media_line(st, "#EXT-X-DISCONTINUITY-SEQUENCE:"@ + dec(v as nat), n) == Some(
            MediaState { discontinuity_sequence: v, ..st },
        ),
        lacks("#EXT-X-DISCONTINUITY-SEQUENCE:"@ + dec(v as nat), '\n'),
{
    reveal(media_line);
    reveal_strlit("#EXT-X-DISCONTINUITY-SEQUENCE:");
    let l = "#EXT-X-DISCONTINUITY-SEQUENCE:"@ + dec(v as nat);
    lemma_num_line("#EXT-X-DISCONTINUITY-SEQUENCE:"@, v as nat);
    lemma_tag_chars(l);
    assert(l[4] == '-' && l[7] == 'D');
    lemma_parse_num(v as nat, u64::MAX as nat);
}

/// A line that is exactly one of the flag tags.
#[verifier::spinoff_prover]
#[verifier::rlimit(100)]
proof fn lemma_flag_line(st: MediaState, n: nat)
    requires
        n >= 2,
    ensures
        media_line(st, "#EXT-X-I-FRAMES-ONLY"@, n) == Some(MediaState { iframes_only: true, ..st }),
        media_line(st, "#EXT-X-ENDLIST"@, n) == Some(MediaState { endlist: true, ..st }),
        media_line(st, "#EXT-X-DISCONTINUITY"@, n) == Some(MediaState { disc: true, ..st }),
        lacks("#EXT-X-I-FRAMES-ONLY"@, '\n'),
        lacks("#EXT-X-ENDLIST"@, '\n'),
        lacks("#EXT-X-DISCONTINUITY"@, '\n'),
{
    reveal(media_line);
    reveal_strlit("#EXT-X-I-FRAMES-ONLY");
    reveal_strlit("#EXT-X-ENDLIST");
    reveal_strlit("#EXT-X-DISCONTINUITY");
    crate::text::lemma_trim_id("#EXT-X-I-FRAMES-ONLY"@);
    crate::text::lemma_trim_id("#EXT-X-ENDLIST"@);
    crate::text::lemma_trim_id("#EXT-X-DISCONTINUITY"@);
    lemma_tag_chars("#EXT-X-I-FRAMES-ONLY"@);
    lemma_tag_chars("#EXT-X-ENDLIST"@);
    lemma_tag_chars("#EXT-X-DISCONTINUITY"@);
}

#[verifier::spinoff_prover]
#[verifier::rlimit(100)]
proof fn lemma_header_lines(p: MediaDocView, rest: Seq<char>) -> (n: nat)
    requires
        p.iframes_only ==> p.version >= 4,
    ensures
        n >= 2,
        media_lines(media_init(), header_text(p) + rest, 1) == media_lines(header_state(p), rest, n),
{
    reveal_strlit("#EXTM3U\n");
    reveal_strlit("#EXTM3U");
    reveal_strlit("\n");
    reveal_strlit("#EXT-X-I-FRAMES-ONLY\n");
    reveal_strlit("#EXT-X-I-FRAMES-ONLY");
    let nl = "\n"@;
    let s0 = media_init();
    let l1 = "#EXTM3U"@;
    let l2 = "#EXT-X-VERSION:"@ + dec(p.version as nat);
    let lif = "#EXT-X-I-FRAMES-ONLY"@;
    let l4 = "#EXT-X-TARGETDURATION:"@ + dec(p.target_duration as nat);
    let l5 = "#EXT-X-MEDIA-SEQUENCE:"@ + dec(p.media_sequence as nat);
    let l6 = "#EXT-X-DISCONTINUITY-SEQUENCE:"@ + dec(p.discontinuity_sequence as nat);
    let ds = if p.discontinuity_sequence > 0 { l6 + nl } else { Seq::<char>::empty() };
    let r5 = ds + rest;
    let r4 = l5 + nl + r5;
    let r3 = l4 + nl + r4;
    let r2 = (if p.iframes_only { lif + nl } else { Seq::<char>::empty() }) + r3;
    let r1 = l2 + nl + r2;
    assert(written_version(p) == p.version);
    assert(header_text(p) + rest =~= l1 + nl + r1);
    lemma_extm3u_line(s0);
    let s1 = MediaState { saw_header: true, ..s0 };
    lemma_step(s0, l1, r1, 1, s1);
    lemma_version_line(s1, p.version, 2);
    let s2 = MediaState { version: p.version, ..s1 };
    lemma_step(s1, l2, r2, 2, s2);
    let s3 = MediaState { iframes_only: p.iframes_only, ..s2 };
    let n3: nat = if p.iframes_only { 4 } else { 3 };
    if p.iframes_only {
        lemma_flag_line(s2, 3);
        assert(r2 =~= lif + nl + r3);
        lemma_step(s2, lif, r3, 3, s3);
    } else {
        assert(r2 =~= r3);
        assert(s3 == s2);
    }
    lemma_target_line(s3, p.target_duration, n3);
    let s4 = MediaState { target: Some(p.target_duration), ..s3 };
    lemma_step(s3, l4, r4, n3, s4);
    lemma_media_seq_line(s4, p.media_sequence, n3 + 1);
    let s5 = MediaState { media_sequence: p.media_sequence, ..s4 };
    lemma_step(s4, l5, r5, n3 + 1, s5);
    if p.discontinuity_sequence > 0 {
        lemma_disc_seq_line(s5, p.discontinuity_sequence, n3 + 2);
        let s6 = MediaState { discontinuity_sequence: p.discontinuity_sequence, ..s5 };
        lemma_step(s5, l6, rest, n3 + 2, s6);
        assert(s6 == header_state(p));
        n3 + 3
    } else {
        assert(r5 =~= rest);
        assert(s5 == header_state(p));
        n3 + 2
    }
}


pub open spec fn val_of(v: Option<Seq<char>>) -> Seq<char> {
    match v {
        Some(t) => t,
        None => Seq::empty(),
    }
}

pub open spec fn num_of(v: Option<u64>) -> Seq<char> {
    match v {
        Some(n) => dec(n as nat),
        None => Seq::empty(),
    }
}

#[verifier::spinoff_prover]
#[verifier::rlimit(100)]
proof fn lemma_keys()
    ensures
        key_ok("CAN-BLOCK-RELOAD"@),
        key_ok("PART-HOLD-BACK"@),
        key_ok("CAN-SKIP-UNTIL"@),
        key_ok("PART-TARGET"@),
        key_ok("DURATION"@),
        key_ok("URI"@),
        key_ok("BYTERANGE"@),
        key_ok("INDEPENDENT"@),
        key_ok("GAP"@),
        key_ok("TYPE"@),
        key_ok("BYTERANGE-START"@),
        key_ok("BYTERANGE-LENGTH"@),
        key_ok("LAST-MSN"@),
        key_ok("LAST-PART"@),
        key_ok("SKIPPED-SEGMENTS"@),
        key_ok("RECENTLY-REMOVED-DATERANGES"@),
        "CAN-BLOCK-RELOAD"@ != "PART-HOLD-BACK"@,
        "CAN-BLOCK-RELOAD"@ != "CAN-SKIP-UNTIL"@,
        "PART-HOLD-BACK"@ != "CAN-SKIP-UNTIL"@,
        "DURATION"@ != "URI"@,
        "DURATION"@ != "BYTERANGE"@,
        "DURATION"@ != "INDEPENDENT"@,
        "DURATION"@ != "GAP"@,
        "URI"@ != "BYTERANGE"@,
        "URI"@ != "INDEPENDENT"@,
        "URI"@ != "GAP"@,
        "BYTERANGE"@ != "INDEPENDENT"@,
        "BYTERANGE"@ != "GAP"@,
        "INDEPENDENT"@ != "GAP"@,
        "TYPE"@ != "URI"@,
        "TYPE"@ != "BYTERANGE-START"@,
        "TYPE"@ != "BYTERANGE-LENGTH"@,
        "URI"@ != "BYTERANGE-START"@,
        "URI"@ != "BYTERANGE-LENGTH"@,
        "BYTERANGE-START"@ != "BYTERANGE-LENGTH"@,
        "URI"@ != "LAST-MSN"@,
        "URI"@ != "LAST-PART"@,
        "LAST-MSN"@ != "LAST-PART"@,
        "SKIPPED-SEGMENTS"@ != "RECENTLY-REMOVED-DATERANGES"@,
        "YES"@.len() == 3,
        "YES"@[0] != '"',
        lacks("YES"@, ','),
        lacks("PART"@, ','),
        lacks("MAP"@, ','),
        "PART"@.len() > 0 && "PART"@[0] != '"',
        "MAP"@.len() > 0 && "MAP"@[0] != '"',
        "PART"@ != "MAP"@,
        !is_ws("YES"@.last()),
{
    reveal_strlit("CAN-BLOCK-RELOAD");
    reveal_strlit("PART-HOLD-BACK");
    reveal_strlit("CAN-SKIP-UNTIL");
    reveal_strlit("PART-TARGET");
    reveal_strlit("DURATION");
    reveal_strlit("URI");
    reveal_strlit("BYTERANGE");
    reveal_strlit("INDEPENDENT");
    reveal_strlit("GAP");
    reveal_strlit("TYPE");
    reveal_strlit("BYTERANGE-START");
    reveal_strlit("BYTERANGE-LENGTH");
    reveal_strlit("LAST-MSN");
    reveal_strlit("LAST-PART");
    reveal_strlit("SKIPPED-SEGMENTS");
    reveal_strlit("RECENTLY-REMOVED-DATERANGES");
    reveal_strlit("YES");
    reveal_strlit("PART");
    reveal_strlit("MAP");
    assert("CAN-BLOCK-RELOAD"@.len() != "PART-HOLD-BACK"@.len());
    assert("CAN-BLOCK-RELOAD"@.len() != "CAN-SKIP-UNTIL"@.len());
    assert("DURATION"@.len() != "URI"@.len());
    assert("DURATION"@.len() != "BYTERANGE"@.len());
    assert("DURATION"@.len() != "INDEPENDENT"@.len());
    assert("DURATION"@.len() != "GAP"@.len());
    assert("URI"@.len() != "BYTERANGE"@.len());
    assert("URI"@.len() != "INDEPENDENT"@.len());
    assert("BYTERANGE"@.len() != "INDEPENDENT"@.len());
    assert("BYTERANGE"@.len() != "GAP"@.len());
    assert("INDEPENDENT"@.len() != "GAP"@.len());
    assert("TYPE"@.len() != "URI"@.len());
    assert("TYPE"@.len() != "BYTERANGE-START"@.len());
    assert("TYPE"@.len() != "BYTERANGE-LENGTH"@.len());
    assert("URI"@.len() != "BYTERANGE-START"@.len());
    assert("URI"@.len() != "BYTERANGE-LENGTH"@.len());
    assert("URI"@.len() != "LAST-MSN"@.len());
    assert("URI"@.len() != "LAST-PART"@.len());
    assert("LAST-MSN"@.len() != "LAST-PART"@.len());
    assert("SKIPPED-SEGMENTS"@.len() != "RECENTLY-REMOVED-DATERANGES"@.len());
    assert("PART"@.len() != "MAP"@.len());
    assert("PART-HOLD-BACK"@[0] != "CAN-SKIP-UNTIL"@[0]);
    assert("URI"@[0] != "GAP"@[0]);
    assert("BYTERANGE-START"@[10] != "BYTERANGE-LENGTH"@[10]);
}

#[verifier::spinoff_prover]
#[verifier::rlimit(100)]
proof fn lemma_avoid_opt(c: bool, k2: Seq<char>, v: Seq<char>, key: Seq<char>)
    requires
        k2 != key,
    ensures
        avoid(opt_item(c, k2, v), key),
{
}

#[verifier::spinoff_prover]
#[verifier::rlimit(100)]
proof fn lemma_avoid_one(k2: Seq<char>, v: Seq<char>, key: Seq<char>)
    requires
        k2 != key,
    ensures
        avoid(seq![(k2, v)], key),
{
}

#[verifier::spinoff_prover]
#[verifier::rlimit(100)]
proof fn lemma_float_get(
    pre: Seq<(Seq<char>, Seq<char>)>,
    key: Seq<char>,
    v: Option<Seq<char>>,
    post: Seq<(Seq<char>, Seq<char>)>,
)
    requires
        avoid(pre, key),
        avoid(post, key),
        v matches Some(t) ==> is_decimal_float(t),
    ensures
        float_attr(pre + opt_item(v is Some, key, val_of(v)) + post, key) == Some(v),
{
    match v {
        Some(t) => {
            lemma_get_at(pre, key, t, post);
            lemma_float_plain(t);
        },
        None => {
            assert(pre + opt_item(v is Some, key, val_of(v)) + post =~= pre + post);
            lemma_avoid_add(pre, post, key);
            lemma_get_none(pre + post, key);
        },
    }
}

#[verifier::spinoff_prover]
#[verifier::rlimit(100)]
proof fn lemma_uint_get(
    pre: Seq<(Seq<char>, Seq<char>)>,
    key: Seq<char>,
    v: Option<u64>,
    post: Seq<(Seq<char>, Seq<char>)>,
)
    requires
        avoid(pre, key),
        avoid(post, key),
    ensures
        uint_attr(pre + opt_item(v is Some, key, num_of(v)) + post, key) == Some(v),
{
    match v {
        Some(n) => {
            lemma_get_at(pre, key, dec(n as nat), post);
            lemma_parse_num(n as nat, u64::MAX as nat);
        },
        None => {
            assert(pre + opt_item(v is Some, key, num_of(v)) + post =~= pre + post);
            lemma_avoid_add(pre, post, key);
            lemma_get_none(pre + post, key);
        },
    }
}

/// The text of an optional `,KEY=value` attribute with a decimal float value.
#[verifier::spinoff_prover]
#[verifier::rlimit(100)]
proof fn lemma_opt_float_text(name: Seq<char>, key: Seq<char>, v: Option<Seq<char>>, rest: Seq<char>)
    requires
        name == seq![','] + key + seq!['='],
        key_ok(key),
        lacks(key, '\n'),
        v matches Some(t) ==> is_decimal_float(t),
        rest.len() == 0 || rest[0] == ',',
    ensures
        opt_text_attr(name, v) == (if v is Some { seq![','] + key + seq!['='] + val_of(v) } else { Seq::empty() }),
        attr_items(opt_text_attr(name, v) + rest) == opt_item(v is Some, key, val_of(v)) + attr_items(rest),
        lacks(opt_text_attr(name, v), '\n'),
        v is Some ==> opt_text_attr(name, v)[0] == ',' && !is_ws(opt_text_attr(name, v).last()),
{
    match v {
        Some(t) => {
            lemma_float_plain(t);
            assert(opt_text_attr(name, v) =~= seq![','] + key + seq!['='] + t);
            assert(lacks(seq![','] + key + seq!['='], '\n'));
            crate::text::lemma_lacks_add(seq![','] + key + seq!['='], t, '\n');
            assert(opt_text_attr(name, v).last() == t.last());
            assert(all_plain(t));
            assert(plain_char(t[t.len() - 1]));
        },
        None => {},
    }
    lemma_opt_unquoted(v is Some, key, val_of(v), rest);
}

/// The text of an optional `,KEY=number` attribute.
#[verifier::spinoff_prover]
#[verifier::rlimit(100)]
proof fn lemma_opt_num_text(name: Seq<char>, key: Seq<char>, v: Option<u64>, rest: Seq<char>)
    requires
        name == seq![','] + key + seq!['='],
        key_ok(key),
        lacks(key, '\n'),
        rest.len() == 0 || rest[0] == ',',
    ensures
        opt_num_attr(name, v) == (if v is Some { seq![','] + key + seq!['='] + num_of(v) } else { Seq::empty() }),
        attr_items(opt_num_attr(name, v) + rest) == opt_item(v is Some, key, num_of(v)) + attr_items(rest),
        lacks(opt_num_attr(name, v), '\n'),
        v is Some ==> opt_num_attr(name, v)[0] == ',' && !is_ws(opt_num_attr(name, v).last()),
{
    match v {
        Some(n) => {
            lemma_num(n as nat);
            assert(opt_num_attr(name, v) =~= seq![','] + key + seq!['='] + dec(n as nat));
            assert(lacks(seq![','] + key + seq!['='], '\n'));
            crate::text::lemma_lacks_add(seq![','] + key + seq!['='], dec(n as nat), '\n');
            assert(opt_num_attr(name, v).last() == dec(n as nat).last());
        },
        None => {},
    }
    lemma_opt_unquoted(v is Some, key, num_of(v), rest);
}


pub open spec fn sc_attrs(l: LowLatencyView) -> Seq<char> {
    "CAN-BLOCK-RELOAD=YES"@ + opt_text_attr(",PART-HOLD-BACK="@, l.part_hold_back) + opt_text_attr(
        ",CAN-SKIP-UNTIL="@,
        l.can_skip_until,
    )
}

#[verifier::spinoff_prover]
#[verifier::rlimit(100)]
proof fn lemma_sc_attrs(l: LowLatencyView)
    requires
        ll_ok(l),
    ensures
        float_attr(attr_items(sc_attrs(l)), "PART-HOLD-BACK"@) == Some(l.part_hold_back),
        float_attr(attr_items(sc_attrs(l)), "CAN-SKIP-UNTIL"@) == Some(l.can_skip_until),
        lacks(sc_attrs(l), '\n'),
        sc_attrs(l).len() > 0,
        !is_ws(sc_attrs(l).last()),
{
    reveal_strlit("CAN-BLOCK-RELOAD=YES");
    reveal_strlit("CAN-BLOCK-RELOAD");
    reveal_strlit("YES");
    reveal_strlit(",PART-HOLD-BACK=");
    reveal_strlit("PART-HOLD-BACK");
    reveal_strlit(",CAN-SKIP-UNTIL=");
    reveal_strlit("CAN-SKIP-UNTIL");
    lemma_keys();
    let h = opt_text_attr(",PART-HOLD-BACK="@, l.part_hold_back);
    let c = opt_text_attr(",CAN-SKIP-UNTIL="@, l.can_skip_until);
    assert(",PART-HOLD-BACK="@ =~= seq![','] + "PART-HOLD-BACK"@ + seq!['=']);
    assert(",CAN-SKIP-UNTIL="@ =~= seq![','] + "CAN-SKIP-UNTIL"@ + seq!['=']);
    lemma_opt_float_text(",CAN-SKIP-UNTIL="@, "CAN-SKIP-UNTIL"@, l.can_skip_until, Seq::empty());
    assert(c + Seq::<char>::empty() =~= c);
    lemma_opt_float_text(",PART-HOLD-BACK="@, "PART-HOLD-BACK"@, l.part_hold_back, c);
    let a = sc_attrs(l);
    assert(a =~= "CAN-BLOCK-RELOAD"@ + seq!['='] + "YES"@ + (h + c));
    assert((h + c).len() == 0 || (h + c)[0] == ',') by {
        if h.len() > 0 {
            assert((h + c)[0] == h[0]);
        } else {
            assert(h + c =~= c);
        }
    }
    crate::text::lemma_attr_unquoted("CAN-BLOCK-RELOAD"@, "YES"@, h + c);
    let oh = opt_item(l.part_hold_back is Some, "PART-HOLD-BACK"@, val_of(l.part_hold_back));
    let oc = opt_item(l.can_skip_until is Some, "CAN-SKIP-UNTIL"@, val_of(l.can_skip_until));
    let cbr = seq![("CAN-BLOCK-RELOAD"@, "YES"@)];
    let items = attr_items(a);
    assert(attr_items(Seq::<char>::empty()) =~= Seq::<(Seq<char>, Seq<char>)>::empty());
    assert(items =~= cbr + oh + oc);
    lemma_avoid_one("CAN-BLOCK-RELOAD"@, "YES"@, "PART-HOLD-BACK"@);
    lemma_avoid_one("CAN-BLOCK-RELOAD"@, "YES"@, "CAN-SKIP-UNTIL"@);
    lemma_avoid_opt(l.can_skip_until is Some, "CAN-SKIP-UNTIL"@, val_of(l.can_skip_until), "PART-HOLD-BACK"@);
    lemma_avoid_opt(l.part_hold_back is Some, "PART-HOLD-BACK"@, val_of(l.part_hold_back), "CAN-SKIP-UNTIL"@);
    lemma_float_get(cbr, "PART-HOLD-BACK"@, l.part_hold_back, oc);
    lemma_avoid_add(cbr, oh, "CAN-SKIP-UNTIL"@);
    lemma_float_get(cbr + oh, "CAN-SKIP-UNTIL"@, l.can_skip_until, Seq::empty());
    assert(cbr + oh + oc + Seq::<(Seq<char>, Seq<char>)>::empty() =~= items);
    assert(!is_ws(a.last())) by {
        if c.len() > 0 {
            assert(a.last() == c.last());
        } else if h.len() > 0 {
            assert(a =~= "CAN-BLOCK-RELOAD=YES"@ + h);
            assert(a.last() == h.last());
        } else {
            assert(a =~= "CAN-BLOCK-RELOAD=YES"@);
        }
    }
    assert(lacks(a, '\n')) by {
        crate::text::lemma_lacks_add("CAN-BLOCK-RELOAD=YES"@, h, '\n');
        crate::text::lemma_lacks_add("CAN-BLOCK-RELOAD=YES"@ + h, c, '\n');
    }
}

#[verifier::spinoff_prover]
#[verifier::rlimit(100)]
proof fn lemma_sc_line(st: MediaState, l: LowLatencyView, n: nat)
    requires
        n >= 2,
        ll_ok(l),
    ensures
        server_control_line(l) == "#EXT-X-SERVER-CONTROL:"@ + sc_attrs(l) + "\n"@,
        lacks("#EXT-X-SERVER-CONTROL:"@ + sc_attrs(l), '\n'),
        media_line(st, "#EXT-X-SERVER-CONTROL:"@ + sc_attrs(l), n) == Some(
            MediaState {
                ll: LowLatencyView {
                    part_hold_back: or_keep(l.part_hold_back, st.ll.part_hold_back),
                    can_skip_until: or_keep(l.can_skip_until, st.ll.can_skip_until),
                    ..st.ll
                },
                saw_ll: true,
                ..st
            },
        ),
{
    reveal(media_line);
    reveal_strlit("#EXT-X-SERVER-CONTROL:");
    reveal_strlit("#EXT-X-SERVER-CONTROL:CAN-BLOCK-RELOAD=YES");
    reveal_strlit("CAN-BLOCK-RELOAD=YES");
    let lit = "#EXT-X-SERVER-CONTROL:"@;
    let a = sc_attrs(l);
    lemma_sc_attrs(l);
    lemma_tag_text(lit, a);
    let t = lit + a;
    lemma_tag_chars(t);
    assert(t[4] == '-' && t[7] == 'S' && t[8] == 'E');
    assert(server_control_line(l) =~= t + "\n"@);
}

#[verifier::spinoff_prover]
#[verifier::rlimit(100)]
proof fn lemma_pi_line(st: MediaState, l: LowLatencyView, n: nat)
    requires
        n >= 2,
        ll_ok(l),
        st.saw_ll,
    ensures
        part_inf_line(l) == "#EXT-X-PART-INF:"@ + opt_text_attr("PART-TARGET="@, l.part_target) + "\n"@,
        lacks("#EXT-X-PART-INF:"@ + opt_text_attr("PART-TARGET="@, l.part_target), '\n'),
        media_line(st, "#EXT-X-PART-INF:"@ + opt_text_attr("PART-TARGET="@, l.part_target), n) == Some(
            MediaState {
                ll: LowLatencyView { part_target: or_keep(l.part_target, st.ll.part_target), ..st.ll },
                ..st
            },
        ),
{
    reveal(media_line);
    reveal_strlit("#EXT-X-PART-INF:");
    reveal_strlit("PART-TARGET=");
    reveal_strlit("PART-TARGET");
    lemma_keys();
    let lit = "#EXT-X-PART-INF:"@;
    let a = opt_text_attr("PART-TARGET="@, l.part_target);
    let items = attr_items(a);
    match l.part_target {
        Some(v) => {
            lemma_float_plain(v);
            assert(a =~= "PART-TARGET"@ + seq!['='] + v + Seq::<char>::empty());
            crate::text::lemma_attr_unquoted("PART-TARGET"@, v, Seq::empty());
            assert(attr_items(Seq::<char>::empty()) =~= Seq::<(Seq<char>, Seq<char>)>::empty());
            assert(items =~= Seq::<(Seq<char>, Seq<char>)>::empty() + seq![("PART-TARGET"@, v)] + Seq::<(Seq<char>, Seq<char>)>::empty());
            lemma_get_at(Seq::empty(), "PART-TARGET"@, v, Seq::empty());
            assert(a.last() == v.last());
            assert(plain_char(v[v.len() - 1]));
            crate::text::lemma_lacks_add("PART-TARGET="@, v, '\n');
        },
        None => {
            assert(a =~= Seq::<char>::empty());
            assert(items =~= Seq::<(Seq<char>, Seq<char>)>::empty());
        },
    }
    lemma_tag_text(lit, a);
    let t = lit + a;
    lemma_tag_chars(t);
    assert(t[4] == '-' && t[7] == 'P' && t[8] == 'A' && t[11] == '-');
    assert(part_inf_line(l) =~= t + "\n"@);
}

pub open spec fn ll_state(st: MediaState, ll: Option<LowLatencyView>) -> MediaState {
    match ll {
        Some(l) => MediaState {
            ll: LowLatencyView {
                part_target: l.part_target,
                part_hold_back: l.part_hold_back,
                can_skip_until: l.can_skip_until,
                ..no_ll()
            },
            saw_ll: true,
            ..st
        },
        None => st,
    }
}

#[verifier::spinoff_prover]
#[verifier::rlimit(100)]
proof fn lemma_ll_header_lines(st: MediaState, ll: Option<LowLatencyView>, rest: Seq<char>, n: nat) -> (m: nat)
    requires
        n >= 2,
        st.ll == no_ll(),
        ll matches Some(l) ==> ll_ok(l),
    ensures
        m >= n,
        media_lines(st, ll_header_text(ll) + rest, n) == media_lines(ll_state(st, ll), rest, m),
{
    match ll {
        Some(l) => {
            let sa = sc_attrs(l);
            let pa = opt_text_attr("PART-TARGET="@, l.part_target);
            let l1 = "#EXT-X-SERVER-CONTROL:"@ + sa;
            let l2 = "#EXT-X-PART-INF:"@ + pa;
            lemma_sc_line(st, l, n);
            let s1 = MediaState {
                ll: LowLatencyView {
                    part_hold_back: or_keep(l.part_hold_back, st.ll.part_hold_back),
                    can_skip_until: or_keep(l.can_skip_until, st.ll.can_skip_until),
                    ..st.ll
                },
                saw_ll: true,
                ..st
            };
            lemma_pi_line(s1, l, n + 1);
            let s2 = MediaState {
                ll: LowLatencyView { part_target: or_keep(l.part_target, s1.ll.part_target), ..s1.ll },
                ..s1
            };
            assert(ll_header_text(ll) + rest =~= l1 + "\n"@ + (l2 + "\n"@ + rest));
            lemma_step(st, l1, l2 + "\n"@ + rest, n, s1);
            lemma_step(s1, l2, rest, n + 1, s2);
            assert(s2 == ll_state(st, ll));
            n + 2
        },
        None => {
            assert(ll_header_text(ll) + rest =~= rest);
            n
        },
    }
}


#[verifier::spinoff_prover]
#[verifier::rlimit(100)]
proof fn lemma_join_front(ids: Seq<Seq<char>>)
    requires
        ids.len() >= 2,
    ensures
        join_tabs(ids) == ids[0] + "\t"@ + join_tabs(ids.drop_first()),
    decreases ids.len(),
{
    let dl = ids.drop_last();
    let df = ids.drop_first();
    assert(join_tabs(ids) == join_tabs(dl) + "\t"@ + ids.last());
    if ids.len() == 2 {
        assert(dl.len() == 1);
        assert(join_tabs(dl) == dl[0]);
        assert(df.len() == 1);
        assert(join_tabs(df) == df[0]);
        assert(dl[0] == ids[0]);
        assert(df[0] == ids.last());
    } else {
        lemma_join_front(dl);
        assert(dl.drop_first() =~= df.drop_last());
        assert(df.last() == ids.last());
        assert(dl[0] == ids[0]);
        assert(join_tabs(df) == join_tabs(df.drop_last()) + "\t"@ + df.last());
        assert(join_tabs(ids) =~= ids[0] + "\t"@ + join_tabs(df));
    }
}

pub open spec fn ids_ok(ids: Seq<Seq<char>>) -> bool {
    forall|i: int| 0 <= i < ids.len() ==> (#[trigger] ids[i]).len() > 0 && lacks(ids[i], '\t') && quotable(ids[i])
}

#[verifier::spinoff_prover]
#[verifier::rlimit(100)]
proof fn lemma_split_join(ids: Seq<Seq<char>>)
    requires
        ids_ok(ids),
    ensures
        split_tabs(join_tabs(ids)) == ids,
        quotable(join_tabs(ids)),
        ids.len() > 0 ==> join_tabs(ids).len() > 0,
    decreases ids.len(),
{
    reveal_strlit("\t");
    if ids.len() == 0 {
        let s = join_tabs(ids);
        assert(s =~= Seq::<char>::empty());
        assert(s.take(0) =~= Seq::<char>::empty());
        assert(split_tabs(s) =~= Seq::<Seq<char>>::empty());
    } else if ids.len() == 1 {
        let s = ids[0];
        assert(join_tabs(ids) == s);
        crate::text::lemma_find_at(s, '\t', s.len() as int);
        assert(s.take(s.len() as int) =~= s);
        assert(split_tabs(s) =~= seq![s]);
        assert(ids =~= seq![s]);
    } else {
        let tail = ids.drop_first();
        assert forall|i: int| 0 <= i < tail.len() implies (#[trigger] tail[i]).len() > 0 && lacks(tail[i], '\t') && quotable(tail[i]) by {
            assert(tail[i] == ids[i + 1]);
        }
        lemma_split_join(tail);
        lemma_join_front(ids);
        let a = ids[0];
        let j = join_tabs(tail);
        let s = a + "\t"@ + j;
        assert("\t"@ =~= seq!['\t']);
        crate::text::lemma_find_at(s, '\t', a.len() as int);
        assert(s.take(a.len() as int) =~= a);
        assert(s.skip(a.len() + 1int) =~= j);
        assert(split_tabs(s) =~= seq![a] + tail);
        assert(seq![a] + tail =~= ids);
        crate::text::lemma_lacks_add(a, "\t"@, '"');
        crate::text::lemma_lacks_add(a + "\t"@, j, '"');
        crate::text::lemma_lacks_add(a, "\t"@, '\n');
        crate::text::lemma_lacks_add(a + "\t"@, j, '\n');
    }
}

#[verifier::spinoff_prover]
#[verifier::rlimit(100)]
proof fn lemma_skip_line(st: MediaState, k: SkipView, n: nat)
    requires
        n >= 2,
        ids_ok(k.ids),
    ensures
        skip_text(Some(k)) == "#EXT-X-SKIP:"@ + skip_attrs(k) + "\n"@,
        lacks("#EXT-X-SKIP:"@ + skip_attrs(k), '\n'),
        media_line(st, "#EXT-X-SKIP:"@ + skip_attrs(k), n) == Some(MediaState { skip: Some(k), ..st }),
{
    reveal(media_line);
    reveal_strlit("#EXT-X-SKIP:");
    reveal_strlit("#EXT-X-SKIP:SKIPPED-SEGMENTS=");
    reveal_strlit("SKIPPED-SEGMENTS=");
    reveal_strlit(",RECENTLY-REMOVED-DATERANGES=\"");
    reveal_strlit("\"");
    lemma_skip_attrs(k);
    let lit = "#EXT-X-SKIP:"@;
    let a = skip_attrs(k);
    lemma_tag_text(lit, a);
    let t = lit + a;
    lemma_tag_chars(t);
    assert(t[4] == '-' && t[7] == 'S' && t[8] == 'K');
    assert(skip_text(Some(k)) =~= t + "\n"@);
}

pub open spec fn skip_attrs(k: SkipView) -> Seq<char> {
    "SKIPPED-SEGMENTS="@ + dec(k.skipped_segments as nat) + (if k.ids.len() > 0 {
        ",RECENTLY-REMOVED-DATERANGES=\""@ + join_tabs(k.ids) + "\""@
    } else {
        Seq::empty()
    })
}

#[verifier::spinoff_prover]
#[verifier::rlimit(100)]
proof fn lemma_skip_attrs(k: SkipView)
    requires
        ids_ok(k.ids),
    ensures
        skip_tag(attr_items(skip_attrs(k))) == Some(k),
        lacks(skip_attrs(k), '\n'),
        !is_ws(skip_attrs(k).last()),
        skip_attrs(k).len() > 0,
{
    reveal_strlit("SKIPPED-SEGMENTS=");
    reveal_strlit("SKIPPED-SEGMENTS");
    reveal_strlit(",RECENTLY-REMOVED-DATERANGES=\"");
    reveal_strlit("RECENTLY-REMOVED-DATERANGES");
    reveal_strlit("\"");
    lemma_keys();
    lemma_split_join(k.ids);
    lemma_num(k.skipped_segments as nat);
    let c = k.ids.len() > 0;
    let j = join_tabs(k.ids);
    let d = dec(k.skipped_segments as nat);
    let r = if c { seq![','] + "RECENTLY-REMOVED-DATERANGES"@ + seq!['=', '"'] + j + seq!['"'] } else { Seq::<char>::empty() };
    assert((if c { ",RECENTLY-REMOVED-DATERANGES=\""@ + j + "\""@ } else { Seq::<char>::empty() }) =~= r);
    lemma_opt_quoted(c, "RECENTLY-REMOVED-DATERANGES"@, j, Seq::empty());
    assert(r + Seq::<char>::empty() =~= r);
    let a = skip_attrs(k);
    assert(a =~= "SKIPPED-SEGMENTS"@ + seq!['='] + d + r);
    crate::text::lemma_attr_unquoted("SKIPPED-SEGMENTS"@, d, r);
    let o = opt_item(c, "RECENTLY-REMOVED-DATERANGES"@, j);
    let items = attr_items(a);
    assert(attr_items(Seq::<char>::empty()) =~= Seq::<(Seq<char>, Seq<char>)>::empty());
    assert(items =~= Seq::<(Seq<char>, Seq<char>)>::empty() + seq![("SKIPPED-SEGMENTS"@, d)] + o);
    lemma_avoid_opt(c, "RECENTLY-REMOVED-DATERANGES"@, j, "SKIPPED-SEGMENTS"@);
    lemma_get_at(Seq::empty(), "SKIPPED-SEGMENTS"@, d, o);
    lemma_parse_num(k.skipped_segments as nat, u64::MAX as nat);
    if c {
        assert(items =~= seq![("SKIPPED-SEGMENTS"@, d)] + seq![("RECENTLY-REMOVED-DATERANGES"@, j)] + Seq::<(Seq<char>, Seq<char>)>::empty());
        lemma_get_at(seq![("SKIPPED-SEGMENTS"@, d)], "RECENTLY-REMOVED-DATERANGES"@, j, Seq::empty());
        assert(a.last() == '"');
        crate::text::lemma_lacks_add("SKIPPED-SEGMENTS="@ + d, r, '\n');
    } else {
        assert(items =~= seq![("SKIPPED-SEGMENTS"@, d)]);
        lemma_avoid_one("SKIPPED-SEGMENTS"@, d, "RECENTLY-REMOVED-DATERANGES"@);
        lemma_get_none(items, "RECENTLY-REMOVED-DATERANGES"@);
        assert(k.ids =~= Seq::<Seq<char>>::empty());
        assert(a.last() == d.last());
    }
    crate::text::lemma_lacks_add("SKIPPED-SEGMENTS="@, d, '\n');
    crate::text::lemma_lacks_add("SKIPPED-SEGMENTS="@ + d, r, '\n');
}

#[verifier::spinoff_prover]
#[verifier::rlimit(100)]
proof fn lemma_skip_lines(st: MediaState, k: Option<SkipView>, rest: Seq<char>, n: nat) -> (m: nat)
    requires
        n >= 2,
        st.skip is None,
        k matches Some(v) ==> skip_ok(v),
    ensures
        m >= n,
        media_lines(st, skip_text(k) + rest, n) == media_lines(MediaState { skip: k, ..st }, rest, m),
{
    match k {
        Some(v) => {
            assert(ids_ok(v.ids));
            lemma_skip_line(st, v, n);
            let l = "#EXT-X-SKIP:"@ + skip_attrs(v);
            assert(skip_text(k) + rest =~= l + "\n"@ + rest);
            lemma_step(st, l, rest, n, MediaState { skip: k, ..st });
            n + 1
        },
        None => {
            assert(skip_text(k) + rest =~= rest);
            assert(st.skip is None ==> MediaState { skip: k, ..st } == st);
            n
        },
    }
}


#[verifier::spinoff_prover]
#[verifier::rlimit(100)]
proof fn lemma_tag_line(st: MediaState, t: Seq<char>, n: nat)
    requires
        n >= 2,
        extra_tag_ok(t),
    ensures
        media_line(st, t, n) == Some(MediaState { extra_tags: st.extra_tags.push(t), ..st }),
{
    reveal(media_line);
    reveal_strlit("#EXT");
    lemma_tag_chars(t);
    assert(t.len() >= 4);
    crate::text::lemma_trim_id(t);
}

#[verifier::spinoff_prover]
#[verifier::rlimit(100)]
proof fn lemma_tags_lines(st: MediaState, tags: Seq<Seq<char>>, rest: Seq<char>, n: nat)
    requires
        n >= 2,
        forall|i: int| 0 <= i < tags.len() ==> extra_tag_ok(#[trigger] tags[i]),
    ensures
        media_lines(st, tags_text(tags) + rest, n) == media_lines(
            MediaState { extra_tags: st.extra_tags + tags, ..st },
            rest,
            n + tags.len(),
        ),
    decreases tags.len(),
{
    if tags.len() == 0 {
        assert(tags_text(tags) + rest =~= rest);
        assert(st.extra_tags + tags =~= st.extra_tags);
    } else {
        let init = tags.drop_last();
        let t = tags.last();
        assert(extra_tag_ok(tags[tags.len() - 1]));
        assert forall|i: int| 0 <= i < init.len() implies extra_tag_ok(#[trigger] init[i]) by {
            assert(init[i] == tags[i]);
        }
        assert(tags_text(tags) + rest =~= tags_text(init) + (t + "\n"@ + rest));
        lemma_tags_lines(st, init, t + "\n"@ + rest, n);
        let s1 = MediaState { extra_tags: st.extra_tags + init, ..st };
        lemma_tag_line(s1, t, n + init.len());
        lemma_step(s1, t, rest, n + init.len(), MediaState { extra_tags: s1.extra_tags.push(t), ..s1 });
        assert(s1.extra_tags.push(t) =~= st.extra_tags + tags);
    }
}

pub open spec fn report_attrs(r: ReportView) -> Seq<char> {
    "URI=\""@ + r.uri + "\",LAST-MSN="@ + dec(r.last_msn as nat) + opt_num_attr(",LAST-PART="@, r.last_part)
}

#[verifier::spinoff_prover]
#[verifier::rlimit(100)]
proof fn lemma_report_attrs(r: ReportView)
    requires
        quotable(r.uri),
    ensures
        report_tag(attr_items(report_attrs(r))) == Some(r),
        lacks(report_attrs(r), '\n'),
        !is_ws(report_attrs(r).last()),
        report_attrs(r).len() > 0,
{
    reveal_strlit("URI=\"");
    reveal_strlit("URI");
    reveal_strlit("\",LAST-MSN=");
    reveal_strlit("LAST-MSN");
    reveal_strlit(",LAST-PART=");
    reveal_strlit("LAST-PART");
    lemma_keys();
    let d = dec(r.last_msn as nat);
    lemma_num(r.last_msn as nat);
    let lp = opt_num_attr(",LAST-PART="@, r.last_part);
    assert(",LAST-PART="@ =~= seq![','] + "LAST-PART"@ + seq!['=']);
    lemma_opt_num_text(",LAST-PART="@, "LAST-PART"@, r.last_part, Seq::empty());
    assert(lp + Seq::<char>::empty() =~= lp);
    let body = "LAST-MSN"@ + seq!['='] + d + lp;
    crate::text::lemma_attr_unquoted("LAST-MSN"@, d, lp);
    crate::text::lemma_attr_comma(body);
    let a = report_attrs(r);
    assert(a =~= "URI"@ + seq!['=', '"'] + r.uri + seq!['"'] + (seq![','] + body));
    crate::text::lemma_attr_quoted("URI"@, r.uri, seq![','] + body);
    let o = opt_item(r.last_part is Some, "LAST-PART"@, num_of(r.last_part));
    let items = attr_items(a);
    assert(attr_items(Seq::<char>::empty()) =~= Seq::<(Seq<char>, Seq<char>)>::empty());
    let um = seq![("URI"@, r.uri)];
    let mm = seq![("LAST-MSN"@, d)];
    assert(items =~= um + mm + o);
    lemma_avoid_one("LAST-MSN"@, d, "URI"@);
    lemma_avoid_opt(r.last_part is Some, "LAST-PART"@, num_of(r.last_part), "URI"@);
    lemma_avoid_add(mm, o, "URI"@);
    assert(items =~= Seq::<(Seq<char>, Seq<char>)>::empty() + um + (mm + o));
    lemma_get_at(Seq::empty(), "URI"@, r.uri, mm + o);
    lemma_avoid_one("URI"@, r.uri, "LAST-MSN"@);
    lemma_avoid_opt(r.last_part is Some, "LAST-PART"@, num_of(r.last_part), "LAST-MSN"@);
    assert(items =~= Seq::<(Seq<char>, Seq<char>)>::empty() + um + Seq::<(Seq<char>, Seq<char>)>::empty() + mm + o);
    assert(items =~= um + seq![("LAST-MSN"@, d)] + o);
    lemma_get_at(um, "LAST-MSN"@, d, o);
    lemma_uint_get(um, "LAST-MSN"@, Some(r.last_msn), o);
    assert(opt_item(true, "LAST-MSN"@, num_of(Some(r.last_msn))) == mm);
    lemma_avoid_one("URI"@, r.uri, "LAST-PART"@);
    lemma_avoid_one("LAST-MSN"@, d, "LAST-PART"@);
    lemma_avoid_add(um, mm, "LAST-PART"@);
    lemma_uint_get(um + mm, "LAST-PART"@, r.last_part, Seq::empty());
    assert(um + mm + o + Seq::<(Seq<char>, Seq<char>)>::empty() =~= items);
    assert(!is_ws(a.last())) by {
        if lp.len() > 0 {
            assert(a.last() == lp.last());
        } else {
            assert(a.last() == d.last());
        }
    }
    assert(lacks(a, '\n')) by {
        crate::text::lemma_lacks_add("URI=\""@, r.uri, '\n');
        crate::text::lemma_lacks_add("URI=\""@ + r.uri, "\",LAST-MSN="@, '\n');
        crate::text::lemma_lacks_add("URI=\""@ + r.uri + "\",LAST-MSN="@, d, '\n');
        crate::text::lemma_lacks_add("URI=\""@ + r.uri + "\",LAST-MSN="@ + d, lp, '\n');
    }
}

#[verifier::spinoff_prover]
#[verifier::rlimit(100)]
proof fn lemma_report_line(st: MediaState, r: ReportView, n: nat)
    requires
        n >= 2,
        quotable(r.uri),
    ensures
        report_line(r) == "#EXT-X-RENDITION-REPORT:"@ + report_attrs(r) + "\n"@,
        lacks("#EXT-X-RENDITION-REPORT:"@ + report_attrs(r), '\n'),
        media_line(st, "#EXT-X-RENDITION-REPORT:"@ + report_attrs(r), n) == Some(
            MediaState { reports: st.reports.push(r), ..st },
        ),
{
    reveal(media_line);
    reveal_strlit("#EXT-X-RENDITION-REPORT:");
    reveal_strlit("#EXT-X-RENDITION-REPORT:URI=\"");
    reveal_strlit("URI=\"");
    lemma_report_attrs(r);
    let lit = "#EXT-X-RENDITION-REPORT:"@;
    let a = report_attrs(r);
    lemma_tag_text(lit, a);
    let t = lit + a;
    lemma_tag_chars(t);
    assert(t[4] == '-' && t[7] == 'R');
    assert(report_line(r) =~= t + "\n"@);
}

#[verifier::spinoff_prover]
#[verifier::rlimit(100)]
proof fn lemma_reports_lines(st: MediaState, rs: Seq<ReportView>, rest: Seq<char>, n: nat)
    requires
        n >= 2,
        forall|i: int| 0 <= i < rs.len() ==> quotable(#[trigger] rs[i].uri),
    ensures
        media_lines(st, reports_text(rs) + rest, n) == media_lines(
            MediaState { reports: st.reports + rs, ..st },
            rest,
            n + rs.len(),
        ),
    decreases rs.len(),
{
    if rs.len() == 0 {
        assert(reports_text(rs) + rest =~= rest);
        assert(st.reports + rs =~= st.reports);
    } else {
        let init = rs.drop_last();
        let r = rs.last();
        assert(quotable(rs[rs.len() - 1].uri));
        assert forall|i: int| 0 <= i < init.len() implies quotable(#[trigger] init[i].uri) by {
            assert(init[i] == rs[i]);
        }
        lemma_report_line(st, r, n);
        let l = "#EXT-X-RENDITION-REPORT:"@ + report_attrs(r);
        assert(reports_text(rs) + rest =~= reports_text(init) + (l + "\n"@ + rest));
        lemma_reports_lines(st, init, l + "\n"@ + rest, n);
        let s1 = MediaState { reports: st.reports + init, ..st };
        lemma_report_line(s1, r, n + init.len());
        lemma_step(s1, l, rest, n + init.len(), MediaState { reports: s1.reports.push(r), ..s1 });
        assert(s1.reports.push(r) =~= st.reports + rs);
    }
}


pub open spec fn hint_attrs(l: LowLatencyView, u: Seq<char>) -> Seq<char> {
    "TYPE="@ + hint_type_text(l.preload_hint_type) + ",URI=\""@ + u + "\""@ + opt_num_attr(
        ",BYTERANGE-START="@,
        l.preload_hint_byte_range_start,
    ) + opt_num_attr(",BYTERANGE-LENGTH="@, l.preload_hint_byte_range_length)
}

pub open spec fn hint_items(l: LowLatencyView, u: Seq<char>) -> Seq<(Seq<char>, Seq<char>)> {
    seq![("TYPE"@, hint_type_text(l.preload_hint_type)), ("URI"@, u)] + opt_item(
        l.preload_hint_byte_range_start is Some,
        "BYTERANGE-START"@,
        num_of(l.preload_hint_byte_range_start),
    ) + opt_item(
        l.preload_hint_byte_range_length is Some,
        "BYTERANGE-LENGTH"@,
        num_of(l.preload_hint_byte_range_length),
    )
}

#[verifier::spinoff_prover]
#[verifier::rlimit(100)]
proof fn lemma_hint_keys()
    ensures
        key_ok("TYPE"@),
        key_ok("URI"@),
        key_ok("BYTERANGE-START"@),
        key_ok("BYTERANGE-LENGTH"@),
        "TYPE"@ != "URI"@,
        "TYPE"@ != "BYTERANGE-START"@,
        "TYPE"@ != "BYTERANGE-LENGTH"@,
        "URI"@ != "BYTERANGE-START"@,
        "URI"@ != "BYTERANGE-LENGTH"@,
        "BYTERANGE-START"@ != "BYTERANGE-LENGTH"@,
        lacks("PART"@, ','),
        lacks("MAP"@, ','),
        lacks("PART"@, '\n'),
        lacks("MAP"@, '\n'),
        "PART"@.len() > 0 && "PART"@[0] != '"',
        "MAP"@.len() > 0 && "MAP"@[0] != '"',
        "PART"@ != "MAP"@,
{
    lemma_keys();
    reveal_strlit("PART");
    reveal_strlit("MAP");
}

#[verifier::spinoff_prover]
#[verifier::rlimit(100)]
proof fn lemma_hint_items(l: LowLatencyView, u: Seq<char>)
    requires
        quotable(u),
    ensures
        attr_items(hint_attrs(l, u)) == hint_items(l, u),
        lacks(hint_attrs(l, u), '\n'),
        !is_ws(hint_attrs(l, u).last()),
        hint_attrs(l, u).len() > 0,
{
    reveal_strlit("TYPE=");
    reveal_strlit("TYPE");
    reveal_strlit(",URI=\"");
    reveal_strlit("URI");
    reveal_strlit("\"");
    reveal_strlit(",BYTERANGE-START=");
    reveal_strlit("BYTERANGE-START");
    reveal_strlit(",BYTERANGE-LENGTH=");
    reveal_strlit("BYTERANGE-LENGTH");
    lemma_hint_keys();
    let ty = hint_type_text(l.preload_hint_type);
    let sa = opt_num_attr(",BYTERANGE-START="@, l.preload_hint_byte_range_start);
    let la = opt_num_attr(",BYTERANGE-LENGTH="@, l.preload_hint_byte_range_length);
    assert(",BYTERANGE-START="@ =~= seq![','] + "BYTERANGE-START"@ + seq!['=']);
    assert(",BYTERANGE-LENGTH="@ =~= seq![','] + "BYTERANGE-LENGTH"@ + seq!['=']);
    lemma_opt_num_text(",BYTERANGE-LENGTH="@, "BYTERANGE-LENGTH"@, l.preload_hint_byte_range_length, Seq::empty());
    assert(la + Seq::<char>::empty() =~= la);
    lemma_opt_num_text(",BYTERANGE-START="@, "BYTERANGE-START"@, l.preload_hint_byte_range_start, la);
    crate::text::lemma_attr_quoted("URI"@, u, sa + la);
    let ub = "URI"@ + seq!['=', '"'] + u + seq!['"'] + (sa + la);
    crate::text::lemma_attr_comma(ub);
    assert(lacks(ty, ',') && ty.len() > 0 && ty[0] != '"');
    crate::text::lemma_attr_unquoted("TYPE"@, ty, seq![','] + ub);
    let a = hint_attrs(l, u);
    assert(a =~= "TYPE"@ + seq!['='] + ty + (seq![','] + ub));
    assert(attr_items(Seq::<char>::empty()) =~= Seq::<(Seq<char>, Seq<char>)>::empty());
    assert(attr_items(a) =~= hint_items(l, u));
    assert(!is_ws(a.last())) by {
        if la.len() > 0 {
            assert(a.last() == la.last());
        } else if sa.len() > 0 {
            assert(a =~= "TYPE="@ + ty + ",URI=\""@ + u + "\""@ + sa);
            assert(a.last() == sa.last());
        } else {
            assert(a =~= "TYPE="@ + ty + ",URI=\""@ + u + "\""@);
        }
    }
    assert(lacks(a, '\n')) by {
        crate::text::lemma_lacks_add("TYPE="@, ty, '\n');
        crate::text::lemma_lacks_add("TYPE="@ + ty, ",URI=\""@, '\n');
        crate::text::lemma_lacks_add("TYPE="@ + ty + ",URI=\""@, u, '\n');
        crate::text::lemma_lacks_add("TYPE="@ + ty + ",URI=\""@ + u, "\""@, '\n');
        crate::text::lemma_lacks_add("TYPE="@ + ty + ",URI=\""@ + u + "\""@, sa, '\n');
        crate::text::lemma_lacks_add("TYPE="@ + ty + ",URI=\""@ + u + "\""@ + sa, la, '\n');
    }
}

#[verifier::spinoff_prover]
#[verifier::rlimit(100)]
proof fn lemma_hint_gets(st: MediaState, l: LowLatencyView, u: Seq<char>)
    ensures
        preload_hint_tag(st, hint_items(l, u)) == Some(
            MediaState {
                ll: LowLatencyView {
                    preload_hint: Some(u),
                    preload_hint_type: l.preload_hint_type,
                    preload_hint_byte_range_start: or_keep(
                        l.preload_hint_byte_range_start,
                        st.ll.preload_hint_byte_range_start,
                    ),
                    preload_hint_byte_range_length: or_keep(
                        l.preload_hint_byte_range_length,
                        st.ll.preload_hint_byte_range_length,
                    ),
                    ..st.ll
                },
                saw_ll: true,
                ..st
            },
        ),
{
    lemma_hint_keys();
    let ty = hint_type_text(l.preload_hint_type);
    let os = opt_item(l.preload_hint_byte_range_start is Some, "BYTERANGE-START"@, num_of(l.preload_hint_byte_range_start));
    let ol = opt_item(l.preload_hint_byte_range_length is Some, "BYTERANGE-LENGTH"@, num_of(l.preload_hint_byte_range_length));
    let tt = seq![("TYPE"@, ty)];
    let uu = seq![("URI"@, u)];
    let items = hint_items(l, u);
    assert(items =~= tt + uu + os + ol);
    lemma_avoid_opt(l.preload_hint_byte_range_start is Some, "BYTERANGE-START"@, num_of(l.preload_hint_byte_range_start), "URI"@);
    lemma_avoid_opt(l.preload_hint_byte_range_length is Some, "BYTERANGE-LENGTH"@, num_of(l.preload_hint_byte_range_length), "URI"@);
    lemma_avoid_add(os, ol, "URI"@);
    assert(items =~= tt + seq![("URI"@, u)] + (os + ol));
    lemma_get_at(tt, "URI"@, u, os + ol);
    lemma_avoid_one("URI"@, u, "TYPE"@);
    lemma_avoid_opt(l.preload_hint_byte_range_start is Some, "BYTERANGE-START"@, num_of(l.preload_hint_byte_range_start), "TYPE"@);
    lemma_avoid_opt(l.preload_hint_byte_range_length is Some, "BYTERANGE-LENGTH"@, num_of(l.preload_hint_byte_range_length), "TYPE"@);
    lemma_avoid_add(uu, os, "TYPE"@);
    lemma_avoid_add(uu + os, ol, "TYPE"@);
    assert(items =~= Seq::<(Seq<char>, Seq<char>)>::empty() + seq![("TYPE"@, ty)] + (uu + os + ol));
    lemma_get_at(Seq::empty(), "TYPE"@, ty, uu + os + ol);
    lemma_avoid_one("TYPE"@, ty, "BYTERANGE-START"@);
    lemma_avoid_one("URI"@, u, "BYTERANGE-START"@);
    lemma_avoid_add(tt, uu, "BYTERANGE-START"@);
    lemma_avoid_opt(l.preload_hint_byte_range_length is Some, "BYTERANGE-LENGTH"@, num_of(l.preload_hint_byte_range_length), "BYTERANGE-START"@);
    lemma_uint_get(tt + uu, "BYTERANGE-START"@, l.preload_hint_byte_range_start, ol);
    lemma_avoid_one("TYPE"@, ty, "BYTERANGE-LENGTH"@);
    lemma_avoid_one("URI"@, u, "BYTERANGE-LENGTH"@);
    lemma_avoid_add(tt, uu, "BYTERANGE-LENGTH"@);
    lemma_avoid_opt(l.preload_hint_byte_range_start is Some, "BYTERANGE-START"@, num_of(l.preload_hint_byte_range_start), "BYTERANGE-LENGTH"@);
    lemma_avoid_add(tt + uu, os, "BYTERANGE-LENGTH"@);
    lemma_uint_get(tt + uu + os, "BYTERANGE-LENGTH"@, l.preload_hint_byte_range_length, Seq::empty());
    assert(tt + uu + os + ol + Seq::<(Seq<char>, Seq<char>)>::empty() =~= items);
    assert((ty == "MAP"@) == (l.preload_hint_type == PreloadHintType::InitSection));
}

pub open spec fn hint_state(st: MediaState, ll: Option<LowLatencyView>) -> MediaState {
    match ll {
        Some(l) => match l.preload_hint {
            Some(u) => MediaState {
                ll: LowLatencyView {
                    preload_hint: Some(u),
                    preload_hint_type: l.preload_hint_type,
                    preload_hint_byte_range_start: or_keep(
                        l.preload_hint_byte_range_start,
                        st.ll.preload_hint_byte_range_start,
                    ),
                    preload_hint_byte_range_length: or_keep(
                        l.preload_hint_byte_range_length,
                        st.ll.preload_hint_byte_range_length,
                    ),
                    ..st.ll
                },
                saw_ll: true,
                ..st
            },
            None => st,
        },
        None => st,
    }
}

#[verifier::spinoff_prover]
#[verifier::rlimit(100)]
proof fn lemma_hint_lines(st: MediaState, ll: Option<LowLatencyView>, rest: Seq<char>, n: nat) -> (m: nat)
    requires
        n >= 2,
        ll matches Some(l) ==> ll_ok(l),
    ensures
        m >= n,
        media_lines(st, hint_text(ll) + rest, n) == media_lines(hint_state(st, ll), rest, m),
{
    reveal(media_line);
    match ll {
        Some(l) => match l.preload_hint {
            Some(u) => {
                reveal_strlit("#EXT-X-PRELOAD-HINT:");
                reveal_strlit("#EXT-X-PRELOAD-HINT:TYPE=");
                reveal_strlit("TYPE=");
                lemma_hint_items(l, u);
                lemma_hint_gets(st, l, u);
                let lit = "#EXT-X-PRELOAD-HINT:"@;
                let a = hint_attrs(l, u);
                lemma_tag_text(lit, a);
                let t = lit + a;
                lemma_tag_chars(t);
                assert(t[4] == '-' && t[7] == 'P' && t[8] == 'R');
                assert(hint_text(ll) + rest =~= t + "\n"@ + rest);
                lemma_step(st, t, rest, n, hint_state(st, ll));
                n + 1
            },
            None => {
                assert(hint_text(ll) + rest =~= rest);
                n
            },
        },
        None => {
            assert(hint_text(ll) + rest =~= rest);
            n
        },
    }
}


pub open spec fn brt_of(br: Option<ByteRange>) -> Seq<char> {
    match br {
        Some(b) => byte_range_text(b.length, b.offset),
        None => Seq::empty(),
    }
}

#[verifier::spinoff_prover]
#[verifier::rlimit(100)]
proof fn lemma_br_text(b: ByteRange)
    ensures
        byte_range_of(byte_range_text(b.length, b.offset)) == Some(b),
        lacks(byte_range_text(b.length, b.offset), '"'),
        lacks(byte_range_text(b.length, b.offset), '\n'),
        byte_range_text(b.length, b.offset).len() > 0,
        byte_range_text(b.length, b.offset)[0] != '"',
        !is_ws(byte_range_text(b.length, b.offset).last()),
{
    reveal_strlit("@");
    crate::hls::lemma_byte_range_round_trip(b.length, b.offset);
    lemma_num(b.length as nat);
    let t = byte_range_text(b.length, b.offset);
    match b.offset {
        Some(o) => {
            lemma_num(o as nat);
            crate::text::lemma_lacks_add(dec(b.length as nat), "@"@, '"');
            crate::text::lemma_lacks_add(dec(b.length as nat) + "@"@, dec(o as nat), '"');
            crate::text::lemma_lacks_add(dec(b.length as nat), "@"@, '\n');
            crate::text::lemma_lacks_add(dec(b.length as nat) + "@"@, dec(o as nat), '\n');
            assert(t.last() == dec(o as nat).last());
            assert(t[0] == dec(b.length as nat)[0]);
        },
        None => {},
    }
}

pub open spec fn part_attrs(p: PartView) -> Seq<char> {
    "DURATION="@ + p.duration + ",URI=\""@ + p.uri + "\""@ + br_attr_text(p.byte_range) + (if p.independent {
        ",INDEPENDENT=YES"@
    } else {
        Seq::empty()
    }) + (if p.gap { ",GAP=YES"@ } else { Seq::empty() })
}

pub open spec fn part_items(p: PartView) -> Seq<(Seq<char>, Seq<char>)> {
    seq![("DURATION"@, p.duration), ("URI"@, p.uri)] + opt_item(p.byte_range is Some, "BYTERANGE"@, brt_of(p.byte_range))
        + opt_item(p.independent, "INDEPENDENT"@, "YES"@) + opt_item(p.gap, "GAP"@, "YES"@)
}

#[verifier::spinoff_prover]
#[verifier::rlimit(100)]
proof fn lemma_part_keys()
    ensures
        key_ok("DURATION"@),
        key_ok("URI"@),
        key_ok("BYTERANGE"@),
        key_ok("INDEPENDENT"@),
        key_ok("GAP"@),
        "DURATION"@ != "URI"@,
        "DURATION"@ != "BYTERANGE"@,
        "DURATION"@ != "INDEPENDENT"@,
        "DURATION"@ != "GAP"@,
        "URI"@ != "BYTERANGE"@,
        "URI"@ != "INDEPENDENT"@,
        "URI"@ != "GAP"@,
        "BYTERANGE"@ != "INDEPENDENT"@,
        "BYTERANGE"@ != "GAP"@,
        "INDEPENDENT"@ != "GAP"@,
        "YES"@.len() == 3,
        "YES"@[0] != '"',
        lacks("YES"@, ','),
        !is_ws("YES"@.last()),
{
    lemma_keys();
}

#[verifier::spinoff_prover]
#[verifier::rlimit(100)]
proof fn lemma_part_items(p: PartView)
    requires
        part_ok(p),
    ensures
        attr_items(part_attrs(p)) == part_items(p),
        lacks(part_attrs(p), '\n'),
        !is_ws(part_attrs(p).last()),
        part_attrs(p).len() > 0,
{
    reveal_strlit("DURATION=");
    reveal_strlit("DURATION");
    reveal_strlit(",URI=\"");
    reveal_strlit("URI");
    reveal_strlit("\"");
    reveal_strlit(",BYTERANGE=\"");
    reveal_strlit("BYTERANGE");
    reveal_strlit(",INDEPENDENT=YES");
    reveal_strlit("INDEPENDENT");
    reveal_strlit(",GAP=YES");
    reveal_strlit("GAP");
    reveal_strlit("YES");
    lemma_part_keys();
    lemma_float_plain(p.duration);
    let d = p.duration;
    let u = p.uri;
    let brt = brt_of(p.byte_range);
    let ba = br_attr_text(p.byte_range);
    let ia = if p.independent { ",INDEPENDENT=YES"@ } else { Seq::<char>::empty() };
    let ga = if p.gap { ",GAP=YES"@ } else { Seq::<char>::empty() };
    match p.byte_range {
        Some(b) => {
            lemma_br_text(b);
        },
        None => {},
    }
    assert(ga =~= (if p.gap { seq![','] + "GAP"@ + seq!['='] + "YES"@ } else { Seq::<char>::empty() }));
    lemma_opt_unquoted(p.gap, "GAP"@, "YES"@, Seq::empty());
    assert(ga + Seq::<char>::empty() =~= ga);
    assert(ia =~= (if p.independent { seq![','] + "INDEPENDENT"@ + seq!['='] + "YES"@ } else { Seq::<char>::empty() }));
    lemma_opt_unquoted(p.independent, "INDEPENDENT"@, "YES"@, ga);
    assert(ba =~= (if p.byte_range is Some { seq![','] + "BYTERANGE"@ + seq!['=', '"'] + brt + seq!['"'] } else { Seq::<char>::empty() }));
    lemma_opt_quoted(p.byte_range is Some, "BYTERANGE"@, brt, ia + ga);
    let tail = ba + (ia + ga);
    crate::text::lemma_attr_quoted("URI"@, u, tail);
    let ub = "URI"@ + seq!['=', '"'] + u + seq!['"'] + tail;
    crate::text::lemma_attr_comma(ub);
    crate::text::lemma_attr_unquoted("DURATION"@, d, seq![','] + ub);
    let a = part_attrs(p);
    assert(a =~= "DURATION"@ + seq!['='] + d + (seq![','] + ub));
    assert(attr_items(Seq::<char>::empty()) =~= Seq::<(Seq<char>, Seq<char>)>::empty());
    assert(attr_items(a) =~= part_items(p));
    assert(!is_ws(a.last())) by {
        if p.gap {
            assert(a.last() == ga.last());
        } else if p.independent {
            assert(a =~= "DURATION="@ + d + ",URI=\""@ + u + "\""@ + ba + ia);
            assert(a.last() == ia.last());
        } else if p.byte_range is Some {
            assert(a =~= "DURATION="@ + d + ",URI=\""@ + u + "\""@ + ba);
            assert(a.last() == ba.last());
        } else {
            assert(a =~= "DURATION="@ + d + ",URI=\""@ + u + "\""@);
        }
    }
    assert(lacks(a, '\n')) by {
        crate::text::lemma_lacks_add("DURATION="@, d, '\n');
        crate::text::lemma_lacks_add("DURATION="@ + d, ",URI=\""@, '\n');
        crate::text::lemma_lacks_add("DURATION="@ + d + ",URI=\""@, u, '\n');
        crate::text::lemma_lacks_add("DURATION="@ + d + ",URI=\""@ + u, "\""@, '\n');
        if p.byte_range is Some {
            crate::text::lemma_lacks_add(",BYTERANGE=\""@, brt, '\n');
            crate::text::lemma_lacks_add(",BYTERANGE=\""@ + brt, "\""@, '\n');
        }
        crate::text::lemma_lacks_add("DURATION="@ + d + ",URI=\""@ + u + "\""@, ba, '\n');
        crate::text::lemma_lacks_add("DURATION="@ + d + ",URI=\""@ + u + "\""@ + ba, ia, '\n');
        crate::text::lemma_lacks_add("DURATION="@ + d + ",URI=\""@ + u + "\""@ + ba + ia, ga, '\n');
    }
}

#[verifier::spinoff_prover]
#[verifier::rlimit(100)]
proof fn lemma_part_gets(p: PartView)
    requires
        part_ok(p),
    ensures
        part_tag(part_items(p)) == Some(p),
{
    lemma_part_keys();
    lemma_float_plain(p.duration);
    let d = p.duration;
    let u = p.uri;
    let brt = brt_of(p.byte_range);
    match p.byte_range {
        Some(b) => {
            lemma_br_text(b);
        },
        None => {},
    }
    let ob = opt_item(p.byte_range is Some, "BYTERANGE"@, brt);
    let oi = opt_item(p.independent, "INDEPENDENT"@, "YES"@);
    let og = opt_item(p.gap, "GAP"@, "YES"@);
    let dd = seq![("DURATION"@, d)];
    let uu = seq![("URI"@, u)];
    let items = part_items(p);
    assert(items =~= dd + uu + ob + oi + og);
    lemma_avoid_opt(p.byte_range is Some, "BYTERANGE"@, brt, "URI"@);
    lemma_avoid_opt(p.independent, "INDEPENDENT"@, "YES"@, "URI"@);
    lemma_avoid_opt(p.gap, "GAP"@, "YES"@, "URI"@);
    lemma_avoid_add(ob, oi, "URI"@);
    lemma_avoid_add(ob + oi, og, "URI"@);
    assert(items =~= dd + seq![("URI"@, u)] + (ob + oi + og));
    lemma_get_at(dd, "URI"@, u, ob + oi + og);
    lemma_avoid_one("URI"@, u, "DURATION"@);
    lemma_avoid_opt(p.byte_range is Some, "BYTERANGE"@, brt, "DURATION"@);
    lemma_avoid_opt(p.independent, "INDEPENDENT"@, "YES"@, "DURATION"@);
    lemma_avoid_opt(p.gap, "GAP"@, "YES"@, "DURATION"@);
    lemma_avoid_add(uu, ob, "DURATION"@);
    lemma_avoid_add(uu + ob, oi, "DURATION"@);
    lemma_avoid_add(uu + ob + oi, og, "DURATION"@);
    assert(items =~= Seq::<(Seq<char>, Seq<char>)>::empty() + seq![("DURATION"@, d)] + (uu + ob + oi + og));
    lemma_get_at(Seq::empty(), "DURATION"@, d, uu + ob + oi + og);
    lemma_part_gets_flags(p);
}

#[verifier::spinoff_prover]
#[verifier::rlimit(100)]
proof fn lemma_part_gets_flags(p: PartView)
    requires
        part_ok(p),
    ensures
        br_attr(part_items(p)) == Some(p.byte_range),
        (attr_get(part_items(p), "INDEPENDENT"@) == Some("YES"@)) == p.independent,
        (attr_get(part_items(p), "GAP"@) == Some("YES"@)) == p.gap,
{
    lemma_part_keys();
    let d = p.duration;
    let u = p.uri;
    let brt = brt_of(p.byte_range);
    match p.byte_range {
        Some(b) => {
            lemma_br_text(b);
        },
        None => {},
    }
    let ob = opt_item(p.byte_range is Some, "BYTERANGE"@, brt);
    let oi = opt_item(p.independent, "INDEPENDENT"@, "YES"@);
    let og = opt_item(p.gap, "GAP"@, "YES"@);
    let dd = seq![("DURATION"@, d)];
    let uu = seq![("URI"@, u)];
    let items = part_items(p);
    lemma_avoid_opt(p.independent, "INDEPENDENT"@, "YES"@, "BYTERANGE"@);
    lemma_avoid_opt(p.gap, "GAP"@, "YES"@, "BYTERANGE"@);
    lemma_avoid_add(oi, og, "BYTERANGE"@);
    lemma_avoid_one("DURATION"@, d, "BYTERANGE"@);
    lemma_avoid_one("URI"@, u, "BYTERANGE"@);
    lemma_avoid_add(dd, uu, "BYTERANGE"@);
    match p.byte_range {
        Some(b) => {
            assert(items =~= (dd + uu) + seq![("BYTERANGE"@, brt)] + (oi + og));
            lemma_get_at(dd + uu, "BYTERANGE"@, brt, oi + og);
        },
        None => {
            assert(items =~= (dd + uu) + (oi + og));
            lemma_avoid_add(dd + uu, oi + og, "BYTERANGE"@);
            lemma_get_none(items, "BYTERANGE"@);
        },
    }
    lemma_avoid_one("DURATION"@, d, "INDEPENDENT"@);
    lemma_avoid_one("URI"@, u, "INDEPENDENT"@);
    lemma_avoid_opt(p.byte_range is Some, "BYTERANGE"@, brt, "INDEPENDENT"@);
    lemma_avoid_opt(p.gap, "GAP"@, "YES"@, "INDEPENDENT"@);
    lemma_avoid_add(dd, uu, "INDEPENDENT"@);
    lemma_avoid_add(dd + uu, ob, "INDEPENDENT"@);
    if p.independent {
        assert(items =~= (dd + uu + ob) + seq![("INDEPENDENT"@, "YES"@)] + og);
        lemma_get_at(dd + uu + ob, "INDEPENDENT"@, "YES"@, og);
    } else {
        assert(items =~= (dd + uu + ob) + og);
        lemma_avoid_add(dd + uu + ob, og, "INDEPENDENT"@);
        lemma_get_none(items, "INDEPENDENT"@);
    }
    lemma_avoid_one("DURATION"@, d, "GAP"@);
    lemma_avoid_one("URI"@, u, "GAP"@);
    lemma_avoid_opt(p.byte_range is Some, "BYTERANGE"@, brt, "GAP"@);
    lemma_avoid_opt(p.independent, "INDEPENDENT"@, "YES"@, "GAP"@);
    lemma_avoid_add(dd, uu, "GAP"@);
    lemma_avoid_add(dd + uu, ob, "GAP"@);
    lemma_avoid_add(dd + uu + ob, oi, "GAP"@);
    if p.gap {
        assert(items =~= (dd + uu + ob + oi) + seq![("GAP"@, "YES"@)] + Seq::<(Seq<char>, Seq<char>)>::empty());
        lemma_get_at(dd + uu + ob + oi, "GAP"@, "YES"@, Seq::empty());
    } else {
        assert(items =~= dd + uu + ob + oi);
        lemma_get_none(items, "GAP"@);
    }
}

#[verifier::spinoff_prover]
#[verifier::rlimit(100)]
proof fn lemma_part_line(st: MediaState, p: PartView, n: nat)
    requires
        n >= 2,
        part_ok(p),
        st.saw_ll,
    ensures
        part_line(p) == "#EXT-X-PART:"@ + part_attrs(p) + "\n"@,
        lacks("#EXT-X-PART:"@ + part_attrs(p), '\n'),
        media_line(st, "#EXT-X-PART:"@ + part_attrs(p), n) == Some(MediaState { parts: st.parts.push(p), ..st }),
{
    reveal(media_line);
    reveal_strlit("#EXT-X-PART:");
    reveal_strlit("#EXT-X-PART:DURATION=");
    reveal_strlit("DURATION=");
    lemma_part_items(p);
    lemma_part_gets(p);
    let lit = "#EXT-X-PART:"@;
    let a = part_attrs(p);
    lemma_tag_text(lit, a);
    let t = lit + a;
    lemma_tag_chars(t);
    assert(t[4] == '-' && t[7] == 'P' && t[8] == 'A' && t[11] == ':');
    assert(part_line(p) =~= t + "\n"@);
}

#[verifier::spinoff_prover]
#[verifier::rlimit(100)]
proof fn lemma_parts_lines(st: MediaState, ps: Seq<PartView>, rest: Seq<char>, n: nat)
    requires
        n >= 2,
        st.saw_ll,
        parts_ok(ps),
    ensures
        media_lines(st, parts_text(ps) + rest, n) == media_lines(
            MediaState { parts: st.parts + ps, ..st },
            rest,
            n + ps.len(),
        ),
    decreases ps.len(),
{
    if ps.len() == 0 {
        assert(parts_text(ps) + rest =~= rest);
        assert(st.parts + ps =~= st.parts);
    } else {
        let init = ps.drop_last();
        let p = ps.last();
        assert(part_ok(ps[ps.len() - 1]));
        assert forall|i: int| 0 <= i < init.len() implies part_ok(#[trigger] init[i]) by {
            assert(init[i] == ps[i]);
        }
        lemma_part_line(st, p, n);
        let l = "#EXT-X-PART:"@ + part_attrs(p);
        assert(parts_text(ps) + rest =~= parts_text(init) + (l + "\n"@ + rest));
        lemma_parts_lines(st, init, l + "\n"@ + rest, n);
        let s1 = MediaState { parts: st.parts + init, ..st };
        lemma_part_line(s1, p, n + init.len());
        lemma_step(s1, l, rest, n + init.len(), MediaState { parts: s1.parts.push(p), ..s1 });
        assert(s1.parts.push(p) =~= st.parts + ps);
    }
}


pub open spec fn map_attrs(m: MapView) -> Seq<char> {
    "URI=\""@ + m.uri + "\""@ + br_attr_text(m.byte_range)
}

#[verifier::spinoff_prover]
#[verifier::rlimit(100)]
proof fn lemma_map_attrs(m: MapView)
    requires
        quotable(m.uri),
    ensures
        map_tag(attr_items(map_attrs(m))) == Some(m),
        lacks(map_attrs(m), '\n'),
        !is_ws(map_attrs(m).last()),
        map_attrs(m).len() > 0,
{
    reveal_strlit("URI=\"");
    reveal_strlit("URI");
    reveal_strlit("\"");
    reveal_strlit(",BYTERANGE=\"");
    reveal_strlit("BYTERANGE");
    lemma_part_keys();
    let brt = brt_of(m.byte_range);
    let ba = br_attr_text(m.byte_range);
    match m.byte_range {
        Some(b) => {
            lemma_br_text(b);
        },
        None => {},
    }
    assert(ba =~= (if m.byte_range is Some { seq![','] + "BYTERANGE"@ + seq!['=', '"'] + brt + seq!['"'] } else { Seq::<char>::empty() }));
    lemma_opt_quoted(m.byte_range is Some, "BYTERANGE"@, brt, Seq::empty());
    assert(ba + Seq::<char>::empty() =~= ba);
    let a = map_attrs(m);
    assert(a =~= "URI"@ + seq!['=', '"'] + m.uri + seq!['"'] + ba);
    crate::text::lemma_attr_quoted("URI"@, m.uri, ba);
    let ob = opt_item(m.byte_range is Some, "BYTERANGE"@, brt);
    let uu = seq![("URI"@, m.uri)];
    let items = attr_items(a);
    assert(attr_items(Seq::<char>::empty()) =~= Seq::<(Seq<char>, Seq<char>)>::empty());
    assert(items =~= uu + ob);
    lemma_avoid_opt(m.byte_range is Some, "BYTERANGE"@, brt, "URI"@);
    assert(items =~= Seq::<(Seq<char>, Seq<char>)>::empty() + seq![("URI"@, m.uri)] + ob);
    lemma_get_at(Seq::empty(), "URI"@, m.uri, ob);
    lemma_avoid_one("URI"@, m.uri, "BYTERANGE"@);
    match m.byte_range {
        Some(b) => {
            assert(items =~= uu + seq![("BYTERANGE"@, brt)] + Seq::<(Seq<char>, Seq<char>)>::empty());
            lemma_get_at(uu, "BYTERANGE"@, brt, Seq::empty());
        },
        None => {
            assert(items =~= uu);
            lemma_get_none(items, "BYTERANGE"@);
        },
    }
    assert(!is_ws(a.last())) by {
        if m.byte_range is Some {
            assert(a.last() == ba.last());
        } else {
            assert(a =~= "URI=\""@ + m.uri + "\""@);
        }
    }
    assert(lacks(a, '\n')) by {
        crate::text::lemma_lacks_add("URI=\""@, m.uri, '\n');
        crate::text::lemma_lacks_add("URI=\""@ + m.uri, "\""@, '\n');
        if m.byte_range is Some {
            crate::text::lemma_lacks_add(",BYTERANGE=\""@, brt, '\n');
            crate::text::lemma_lacks_add(",BYTERANGE=\""@ + brt, "\""@, '\n');
        }
        crate::text::lemma_lacks_add("URI=\""@ + m.uri + "\""@, ba, '\n');
    }
}

#[verifier::spinoff_prover]
#[verifier::rlimit(100)]
proof fn lemma_map_line(st: MediaState, m: MapView, n: nat)
    requires
        n >= 2,
        quotable(m.uri),
    ensures
        map_line(m.uri, m.byte_range) == "#EXT-X-MAP:"@ + map_attrs(m) + "\n"@,
        lacks("#EXT-X-MAP:"@ + map_attrs(m), '\n'),
        media_line(st, "#EXT-X-MAP:"@ + map_attrs(m), n) == Some(MediaState { map: Some(m), ..st }),
{
    reveal(media_line);
    reveal_strlit("#EXT-X-MAP:");
    reveal_strlit("#EXT-X-MAP:URI=\"");
    reveal_strlit("URI=\"");
    lemma_map_attrs(m);
    let lit = "#EXT-X-MAP:"@;
    let a = map_attrs(m);
    lemma_tag_text(lit, a);
    let t = lit + a;
    lemma_tag_chars(t);
    assert(t[4] == '-' && t[7] == 'M' && t[8] == 'A');
    assert(map_line(m.uri, m.byte_range) =~= t + "\n"@);
}

#[verifier::spinoff_prover]
#[verifier::rlimit(100)]
proof fn lemma_extinf_line(st: MediaState, d: Seq<char>, n: nat)
    requires
        n >= 2,
        is_decimal_float(d),
    ensures
        lacks("#EXTINF:"@ + d + ","@, '\n'),
        media_line(st, "#EXTINF:"@ + d + ","@, n) == Some(MediaState { duration: Some(d), ..st }),
{
    reveal(media_line);
    reveal_strlit("#EXTINF:");
    reveal_strlit(",");
    lemma_float_plain(d);
    let lit = "#EXTINF:"@;
    let v = d + ","@;
    assert(","@ =~= seq![',']);
    crate::text::lemma_lacks_add(d, ","@, '\n');
    assert(v.last() == ',');
    lemma_tag_text(lit, v);
    let t = lit + v;
    assert(t =~= "#EXTINF:"@ + d + ","@);
    lemma_tag_chars(t);
    assert(t[4] == 'I');
    crate::text::lemma_find_at(v, ',', d.len() as int);
    assert(v.take(d.len() as int) =~= d);
}

#[verifier::spinoff_prover]
#[verifier::rlimit(100)]
proof fn lemma_br_line(st: MediaState, b: ByteRange, n: nat)
    requires
        n >= 2,
    ensures
        lacks("#EXT-X-BYTERANGE:"@ + byte_range_text(b.length, b.offset), '\n'),
        media_line(st, "#EXT-X-BYTERANGE:"@ + byte_range_text(b.length, b.offset), n) == Some(
            MediaState { byte_range: Some(b), ..st },
        ),
{
    reveal(media_line);
    reveal_strlit("#EXT-X-BYTERANGE:");
    lemma_br_text(b);
    let lit = "#EXT-X-BYTERANGE:"@;
    let v = byte_range_text(b.length, b.offset);
    lemma_tag_text(lit, v);
    let t = lit + v;
    lemma_tag_chars(t);
    assert(t[4] == '-' && t[7] == 'B');
}

#[verifier::spinoff_prover]
#[verifier::rlimit(100)]
proof fn lemma_uri_line(st: MediaState, u: Seq<char>, d: Seq<char>, n: nat)
    requires
        n >= 2,
        uri_line_ok(u),
        st.duration == Some(d),
    ensures
        media_line(st, u, n) == Some(close_segment(st, u, d)),
{
    reveal(media_line);
    crate::text::lemma_trim_id(u);
    lemma_tag_chars(u);
}

pub open spec fn last_map(segs: Seq<SegmentView>) -> Option<MapView> {
    if segs.len() > 0 {
        segs.last().map
    } else {
        None
    }
}

#[verifier::spinoff_prover]
#[verifier::rlimit(100)]
proof fn lemma_segment_lines(st: MediaState, s: SegmentView, ll: bool, rest: Seq<char>, n: nat) -> (m: nat)
    requires
        n >= 2,
        segment_ok(s, ll),
        st.saw_ll == ll,
        !st.disc,
        st.byte_range is None,
        st.parts.len() == 0,
        st.duration is None,
        s.map is None ==> st.map is None,
    ensures
        m >= n,
        media_lines(st, segment_text(s, st.map, ll) + rest, n) == media_lines(
            MediaState { segments: st.segments.push(s), map: s.map, ..st },
            rest,
            m,
        ),
{
    reveal_strlit("#EXT-X-DISCONTINUITY\n");
    reveal_strlit("#EXT-X-DISCONTINUITY");
    reveal_strlit("\n");
    reveal_strlit("#EXTINF:");
    reveal_strlit(",\n");
    reveal_strlit(",");
    reveal_strlit("#EXT-X-BYTERANGE:");
    assert(st.parts =~= Seq::<PartView>::empty());
    let nl = "\n"@;
    let el = "#EXTINF:"@ + s.duration + ","@;
    let bl = match s.byte_range {
        Some(b) => "#EXT-X-BYTERANGE:"@ + byte_range_text(b.length, b.offset) + nl,
        None => Seq::<char>::empty(),
    };
    let r5 = bl + (s.uri + nl + rest);
    let r4 = el + nl + r5;
    let pt = if ll { parts_text(s.parts) } else { Seq::<char>::empty() };
    let r3 = pt + r4;
    let mt = map_text(s.map, st.map);
    let r2 = mt + r3;
    let dt = if s.discontinuous { "#EXT-X-DISCONTINUITY\n"@ } else { Seq::<char>::empty() };
    assert(segment_text(s, st.map, ll) + rest =~= dt + r2);
    // discontinuity
    let s1 = MediaState { disc: s.discontinuous, ..st };
    let n1: nat = if s.discontinuous { n + 1 } else { n };
    if s.discontinuous {
        lemma_flag_line(st, n);
        assert(dt + r2 =~= "#EXT-X-DISCONTINUITY"@ + nl + r2);
        lemma_step(st, "#EXT-X-DISCONTINUITY"@, r2, n, s1);
    } else {
        assert(dt + r2 =~= r2);
        assert(s1 == st);
    }
    // map
    let s2 = MediaState { map: s.map, ..s1 };
    let n2: nat = if mt.len() > 0 { n1 + 1 } else { n1 };
    if s.map != st.map {
        assert(s.map is Some);
        let mv = s.map->0;
        lemma_map_line(s1, mv, n1);
        let l = "#EXT-X-MAP:"@ + map_attrs(mv);
        assert(mt == l + nl);
        assert(r2 =~= l + nl + r3);
        lemma_step(s1, l, r3, n1, s2);
        assert(mt.len() > 0);
    } else {
        assert(mt =~= Seq::<char>::empty());
        assert(r2 =~= r3);
        assert(s2 == s1);
    }
    // parts
    let s3 = MediaState { parts: s.parts, ..s2 };
    let n3: nat = if ll { n2 + s.parts.len() } else { n2 };
    if ll {
        lemma_parts_lines(s2, s.parts, r4, n2);
        assert(s2.parts + s.parts =~= s.parts);
    } else {
        assert(pt =~= Seq::<char>::empty());
        assert(r3 =~= r4);
        assert(s.parts =~= Seq::<PartView>::empty());
        assert(s2.parts =~= s.parts);
        assert(s3 == s2);
    }
    // EXTINF
    lemma_extinf_line(s3, s.duration, n3);
    let s4 = MediaState { duration: Some(s.duration), ..s3 };
    lemma_step(s3, el, r5, n3, s4);
    // BYTERANGE
    let s5 = MediaState { byte_range: s.byte_range, ..s4 };
    let n5: nat = if s.byte_range is Some { n3 + 2 } else { n3 + 1 };
    match s.byte_range {
        Some(b) => {
            lemma_br_line(s4, b, n3 + 1);
            let l = "#EXT-X-BYTERANGE:"@ + byte_range_text(b.length, b.offset);
            assert(r5 =~= l + nl + (s.uri + nl + rest));
            lemma_step(s4, l, s.uri + nl + rest, n3 + 1, s5);
        },
        None => {
            assert(r5 =~= s.uri + nl + rest);
            assert(s5 == s4);
        },
    }
    // URI
    lemma_uri_line(s5, s.uri, s.duration, n5);
    let s6 = close_segment(s5, s.uri, s.duration);
    lemma_step(s5, s.uri, rest, n5, s6);
    assert(SegmentView {
        uri: s.uri,
        duration: s.duration,
        discontinuous: s5.disc,
        parts: s5.parts,
        byte_range: s5.byte_range,
        map: s5.map,
    } == s);
    assert(s6.segments == st.segments.push(s));
    assert(s6.parts =~= st.parts);
    assert(s6 == MediaState { segments: st.segments.push(s), map: s.map, ..st });
    n5 + 1
}

#[verifier::spinoff_prover]
#[verifier::rlimit(100)]
proof fn lemma_segments_lines(st: MediaState, segs: Seq<SegmentView>, ll: bool, rest: Seq<char>, n: nat) -> (m: nat)
    requires
        n >= 2,
        forall|i: int| 0 <= i < segs.len() ==> segment_ok(#[trigger] segs[i], ll),
        maps_carry(segs),
        st.saw_ll == ll,
        !st.disc,
        st.byte_range is None,
        st.parts.len() == 0,
        st.duration is None,
        st.map is None,
    ensures
        m >= n,
        media_lines(st, segments_text(segs, ll) + rest, n) == media_lines(
            MediaState { segments: st.segments + segs, map: last_map(segs), ..st },
            rest,
            m,
        ),
    decreases segs.len(),
{
    if segs.len() == 0 {
        assert(segments_text(segs, ll) + rest =~= rest);
        assert(st.segments + segs =~= st.segments);
        n
    } else {
        let init = segs.drop_last();
        let s = segs.last();
        assert(segment_ok(segs[segs.len() - 1], ll));
        assert forall|i: int| 0 <= i < init.len() implies segment_ok(#[trigger] init[i], ll) by {
            assert(init[i] == segs[i]);
        }
        assert forall|i: int| 0 < i < init.len() implies ((#[trigger] init[i]).map is None ==> init[i - 1].map is None) by {
            assert(init[i] == segs[i]);
            assert(init[i - 1] == segs[i - 1]);
        }
        assert(segments_text(segs, ll) + rest =~= segments_text(init, ll) + (segment_text(s, prev_map(segs), ll) + rest));
        let m1 = lemma_segments_lines(st, init, ll, segment_text(s, prev_map(segs), ll) + rest, n);
        let s1 = MediaState { segments: st.segments + init, map: last_map(init), ..st };
        assert(last_map(init) == prev_map(segs)) by {
            if init.len() > 0 {
                assert(init.last() == segs[segs.len() - 2]);
            }
        }
        assert(s.map is None ==> s1.map is None) by {
            if segs.len() >= 2 {
                assert(segs[segs.len() - 1] == s);
            }
        }
        let m2 = lemma_segment_lines(s1, s, ll, rest, m1);
        assert(s1.segments.push(s) =~= st.segments + segs);
        m2
    }
}

/// The text before the segments.
pub open spec fn front_text(p: MediaDocView) -> Seq<char> {
    header_text(p) + ll_header_text(p.low_latency) + skip_text(p.skip) + tags_text(p.extra_tags)
}

/// The text after the segments.
pub open spec fn back_text(p: MediaDocView) -> Seq<char> {
    open_text(p) + hint_text(p.low_latency) + reports_text(p.rendition_reports) + (if p.endlist {
        "#EXT-X-ENDLIST\n"@
    } else {
        Seq::empty()
    })
}

#[verifier::spinoff_prover]
#[verifier::rlimit(100)]
proof fn lemma_assoc(x: Seq<char>, y: Seq<char>, z: Seq<char>)
    ensures
        (x + y) + z == x + (y + z),
{
    assert((x + y) + z =~= x + (y + z));
}

#[verifier::spinoff_prover]
#[verifier::rlimit(100)]
proof fn lemma_render_parts(p: MediaDocView)
    ensures
        spec_render_media(p) == front_text(p) + (segments_text(p.segments, p.low_latency is Some) + back_text(p)),
{
    let l4 = front_text(p);
    let e = segments_text(p.segments, p.low_latency is Some);
    let f = open_text(p);
    let g = hint_text(p.low_latency);
    let h = reports_text(p.rendition_reports);
    let i = if p.endlist { "#EXT-X-ENDLIST\n"@ } else { Seq::<char>::empty() };
    let t1 = l4 + e;
    assert(spec_render_media(p) == (((t1 + f) + g) + h) + i);
    lemma_assoc(t1, f, g);
    lemma_assoc(t1, f + g, h);
    lemma_assoc(t1, (f + g) + h, i);
    assert(back_text(p) == ((f + g) + h) + i);
    lemma_assoc(l4, e, back_text(p));
}

pub open spec fn front_state(p: MediaDocView) -> MediaState {
    MediaState { skip: p.skip, extra_tags: p.extra_tags, ..ll_state(header_state(p), p.low_latency) }
}

pub open spec fn mid_state(p: MediaDocView) -> MediaState {
    MediaState { segments: p.segments, map: last_map(p.segments), ..front_state(p) }
}

pub open spec fn open_state(p: MediaDocView) -> MediaState {
    match (p.low_latency, p.open_segment) {
        (Some(_), Some(ps)) => MediaState { parts: ps, ..mid_state(p) },
        _ => mid_state(p),
    }
}

pub open spec fn end_state(p: MediaDocView) -> MediaState {
    MediaState {
        reports: p.rendition_reports,
        endlist: p.endlist,
        ..hint_state(open_state(p), p.low_latency)
    }
}

#[verifier::spinoff_prover]
#[verifier::rlimit(100)]
proof fn lemma_rt_front(p: MediaDocView, rest: Seq<char>) -> (n: nat)
    requires
        media_round_trips(p),
    ensures
        n >= 2,
        media_lines(media_init(), front_text(p) + rest, 1) == media_lines(front_state(p), rest, n),
{
    let r4 = tags_text(p.extra_tags) + rest;
    let r3 = skip_text(p.skip) + r4;
    let r2 = ll_header_text(p.low_latency) + r3;
    assert(front_text(p) + rest =~= header_text(p) + r2);
    let n1 = lemma_header_lines(p, r2);
    let s1 = header_state(p);
    let n2 = lemma_ll_header_lines(s1, p.low_latency, r3, n1);
    let s2 = ll_state(s1, p.low_latency);
    let n3 = lemma_skip_lines(s2, p.skip, r4, n2);
    let s3 = MediaState { skip: p.skip, ..s2 };
    lemma_tags_lines(s3, p.extra_tags, rest, n3);
    assert(s3.extra_tags + p.extra_tags =~= p.extra_tags);
    assert(MediaState { extra_tags: s3.extra_tags + p.extra_tags, ..s3 } == front_state(p));
    n3 + p.extra_tags.len()
}

#[verifier::spinoff_prover]
#[verifier::rlimit(100)]
proof fn lemma_rt_back(p: MediaDocView, n: nat)
    requires
        media_round_trips(p),
        n >= 2,
    ensures
        media_lines(mid_state(p), back_text(p), n) == Ok::<MediaState, nat>(end_state(p)),
{
    reveal_strlit("#EXT-X-ENDLIST\n");
    reveal_strlit("#EXT-X-ENDLIST");
    reveal_strlit("\n");
    let s5 = mid_state(p);
    let te = if p.endlist { "#EXT-X-ENDLIST\n"@ } else { Seq::<char>::empty() };
    let r8 = reports_text(p.rendition_reports) + te;
    let r7 = hint_text(p.low_latency) + r8;
    assert(back_text(p) =~= open_text(p) + r7);
    let s6 = open_state(p);
    let n6: nat = match (p.low_latency, p.open_segment) {
        (Some(_), Some(ps)) => n + ps.len(),
        _ => n,
    };
    match (p.low_latency, p.open_segment) {
        (Some(_), Some(ps)) => {
            lemma_parts_lines(s5, ps, r7, n);
            assert(s5.parts + ps =~= ps);
        },
        _ => {
            assert(open_text(p) + r7 =~= r7);
        },
    }
    let n7 = lemma_hint_lines(s6, p.low_latency, r8, n6);
    let s7 = hint_state(s6, p.low_latency);
    lemma_reports_lines(s7, p.rendition_reports, te, n7);
    let s8 = MediaState { reports: s7.reports + p.rendition_reports, ..s7 };
    assert(s7.reports + p.rendition_reports =~= p.rendition_reports);
    let n8 = n7 + p.rendition_reports.len();
    let s9 = MediaState { endlist: p.endlist, ..s8 };
    if p.endlist {
        lemma_flag_line(s8, n8);
        assert(te =~= "#EXT-X-ENDLIST"@ + "\n"@ + Seq::<char>::empty());
        lemma_step(s8, "#EXT-X-ENDLIST"@, Seq::empty(), n8, s9);
        lemma_end(s9, n8 + 1);
    } else {
        assert(te =~= Seq::<char>::empty());
        lemma_end(s8, n8);
        assert(s9 == s8);
    }
    assert(s9 == end_state(p));
}

#[verifier::spinoff_prover]
#[verifier::rlimit(100)]
proof fn lemma_rt_doc(p: MediaDocView)
    requires
        media_round_trips(p),
    ensures
        doc_of(end_state(p), p.target_duration) == p,
        end_state(p).saw_header,
        end_state(p).target == Some(p.target_duration),
{
    let e = end_state(p);
    match p.open_segment {
        Some(ps) => {
            assert(e.parts =~= ps);
        },
        None => {
            assert(e.parts =~= Seq::<PartView>::empty());
        },
    }
    match p.low_latency {
        Some(l) => {
            assert(e.ll == l);
        },
        None => {},
    }
    assert(written_version(p) == p.version);
}

/// Parsing is the inverse of rendering: the text of a media playlist reads
/// back as the same playlist, for every playlist that `media_round_trips`
/// admits.
#[verifier::spinoff_prover]
#[verifier::rlimit(100)]
pub proof fn lemma_media_round_trip(p: MediaDocView)
    requires
        media_round_trips(p),
    ensures
        spec_parse_media(spec_render_media(p)) == Ok::<MediaDocView, nat>(p),
{
    let llb = p.low_latency is Some;
    let back = back_text(p);
    let r5 = segments_text(p.segments, llb) + back;
    lemma_render_parts(p);
    let n4 = lemma_rt_front(p, r5);
    let s4 = front_state(p);
    let n5 = lemma_segments_lines(s4, p.segments, llb, back, n4);
    assert(s4.segments + p.segments =~= p.segments);
    assert(MediaState { segments: s4.segments + p.segments, map: last_map(p.segments), ..s4 } == mid_state(p));
    lemma_rt_back(p, n5);
    lemma_rt_doc(p);
}

} // verus!
