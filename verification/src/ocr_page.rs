//! Turning raw OCR output into cleaned page text, overlay boxes and text spans.

use vstd::prelude::*;
use crate::markers::{
    collect_segments, collect_segments_exec, det_close, det_open, ref_close, ref_open, segs_view,
    BoxPoints, Segment, SegmentAt, det_close_exec, det_open_exec, ref_close_exec, ref_open_exec,
};
use crate::text::{
    append_range, append_str, chars_of, copy_range, decimal, is_ws, is_ws_exec, lemma_first_kept_bounds,
    lemma_utf8_len_concat, lemma_utf8_len_prefix_mono, occurs_at, occurs_at_exec, push_char,
    push_decimal, trim, trim_range, trim_start_by, utf8_len, utf8_len_range, first_kept,
};

verus! {

/// Where a page's OCR text came from.
pub struct ParseContext {
    pub file_hash: String,
    pub page_no: u32,
    pub engine_id: String,
    pub profile_id: String,
}

pub struct ParseContextView {
    pub file_hash: Seq<char>,
    pub page_no: u32,
    pub engine_id: Seq<char>,
    pub profile_id: Seq<char>,
}

impl View for ParseContext {
    type V = ParseContextView;

    open spec fn view(&self) -> ParseContextView {
        ParseContextView {
            file_hash: self.file_hash@,
            page_no: self.page_no,
            engine_id: self.engine_id@,
            profile_id: self.profile_id@,
        }
    }
}

/// A span of cleaned page text that belongs to one region; `start` and `end`
/// are byte offsets into the cleaned text.
pub struct TextRegionSpan {
    pub annotation_id: String,
    pub region_id: String,
    pub source_region_key: String,
    pub page_no: u32,
    pub start: u64,
    pub end: u64,
}

pub struct TextRegionSpanView {
    pub annotation_id: Seq<char>,
    pub region_id: Seq<char>,
    pub source_region_key: Seq<char>,
    pub page_no: u32,
    pub start: u64,
    pub end: u64,
}

impl View for TextRegionSpan {
    type V = TextRegionSpanView;

    open spec fn view(&self) -> TextRegionSpanView {
        TextRegionSpanView {
            annotation_id: self.annotation_id@,
            region_id: self.region_id@,
            source_region_key: self.source_region_key@,
            page_no: self.page_no,
            start: self.start,
            end: self.end,
        }
    }
}

/// A detected region on a page. Its box is on the 0..=999 grid in thousandths
/// (see [`BoxPoints`]); the page-percent geometry is `coordinate / 999_000 * 100`.
pub struct OverlayBox {
    pub annotation_id: String,
    pub region_id: String,
    pub source_region_key: String,
    pub label: String,
    pub category: String,
    pub content_markdown: String,
    pub content_html: Option<String>,
    pub page_no: u32,
    pub bbox: BoxPoints,
    pub hidden: bool,
    /// The raw text of the geometry sidecar of a marker with this one box.
    pub geometry_json: Option<String>,
}

pub struct OverlayBoxView {
    pub annotation_id: Seq<char>,
    pub region_id: Seq<char>,
    pub source_region_key: Seq<char>,
    pub label: Seq<char>,
    pub category: Seq<char>,
    pub content_markdown: Seq<char>,
    pub content_html: Option<Seq<char>>,
    pub page_no: u32,
    pub bbox: BoxPoints,
    pub hidden: bool,
    pub geometry_json: Option<Seq<char>>,
}

pub open spec fn opt_string_view(o: Option<String>) -> Option<Seq<char>> {
    match o {
        Some(s) => Some(s@),
        None => None,
    }
}

impl View for OverlayBox {
    type V = OverlayBoxView;

    open spec fn view(&self) -> OverlayBoxView {
        OverlayBoxView {
            annotation_id: self.annotation_id@,
            region_id: self.region_id@,
            source_region_key: self.source_region_key@,
            label: self.label@,
            category: self.category@,
            content_markdown: self.content_markdown@,
            content_html: opt_string_view(self.content_html),
            page_no: self.page_no,
            bbox: self.bbox,
            hidden: self.hidden,
            geometry_json: opt_string_view(self.geometry_json),
        }
    }
}

/// The parse of one page of OCR output.
pub struct ParsedOcrPage {
    pub raw_text: String,
    pub cleaned_text: String,
    pub boxes: Vec<OverlayBox>,
    pub spans: Vec<TextRegionSpan>,
}

pub struct ParsedOcrPageView {
    pub raw_text: Seq<char>,
    pub cleaned_text: Seq<char>,
    pub boxes: Seq<OverlayBoxView>,
    pub spans: Seq<TextRegionSpanView>,
}

pub open spec fn boxes_view(v: Seq<OverlayBox>) -> Seq<OverlayBoxView> {
    v.map_values(|b: OverlayBox| b@)
}

pub open spec fn spans_view(v: Seq<TextRegionSpan>) -> Seq<TextRegionSpanView> {
    v.map_values(|s: TextRegionSpan| s@)
}

impl View for ParsedOcrPage {
    type V = ParsedOcrPageView;

    open spec fn view(&self) -> ParsedOcrPageView {
        ParsedOcrPageView {
            raw_text: self.raw_text@,
            cleaned_text: self.cleaned_text@,
            boxes: boxes_view(self.boxes@),
            spans: spans_view(self.spans@),
        }
    }
}

// ---------------------------------------------------------------------------
// Marker removal and fragment joining

/// `s` from `i` on with every marker token removed.
pub open spec fn strip_markers_from(s: Seq<char>, i: int) -> Seq<char>
    decreases s.len() - i,
{
    if i < 0 || i >= s.len() {
        seq![]
    } else if occurs_at(s, i, ref_open()) {
        strip_markers_from(s, i + 7)
    } else if occurs_at(s, i, ref_close()) {
        strip_markers_from(s, i + 8)
    } else if occurs_at(s, i, det_open()) {
        strip_markers_from(s, i + 7)
    } else if occurs_at(s, i, det_close()) {
        strip_markers_from(s, i + 8)
    } else {
        seq![s[i]] + strip_markers_from(s, i + 1)
    }
}

/// `s` with every `<|ref|>`, `<|/ref|>`, `<|det|>` and `<|/det|>` removed.
pub open spec fn strip_markers(s: Seq<char>) -> Seq<char> {
    strip_markers_from(s, 0)
}

/// What joining `frag` onto `buf` appends: the fragment without markers, and
/// without leading whitespace when `buf` already ends in whitespace.
pub open spec fn cleaned_fragment(buf: Seq<char>, frag: Seq<char>) -> Seq<char> {
    let cleaned = strip_markers(frag);
    if buf.len() > 0 && is_ws(buf.last()) {
        trim_start_by(cleaned, false)
    } else {
        cleaned
    }
}

pub open spec fn push_fragment(buf: Seq<char>, frag: Seq<char>) -> Seq<char> {
    buf + cleaned_fragment(buf, frag)
}

pub proof fn lemma_strip_markers_len(s: Seq<char>, i: int)
    requires
        0 <= i <= s.len(),
    ensures
        utf8_len(strip_markers_from(s, i)) <= utf8_len(s.subrange(i, s.len() as int)),
    decreases s.len() - i,
{
    if i < s.len() {
        let n = s.len() as int;
        let sub = s.subrange(i, n);
        assert(sub.subrange(0, n - i) =~= sub);
        if occurs_at(s, i, ref_open()) {
            lemma_strip_markers_len(s, i + 7);
            lemma_utf8_len_prefix_mono(sub, 7, n - i);
            assert(sub.subrange(7, n - i) =~= s.subrange(i + 7, n));
        } else if occurs_at(s, i, ref_close()) {
            lemma_strip_markers_len(s, i + 8);
            lemma_utf8_len_prefix_mono(sub, 8, n - i);
            assert(sub.subrange(8, n - i) =~= s.subrange(i + 8, n));
        } else if occurs_at(s, i, det_open()) {
            lemma_strip_markers_len(s, i + 7);
            lemma_utf8_len_prefix_mono(sub, 7, n - i);
            assert(sub.subrange(7, n - i) =~= s.subrange(i + 7, n));
        } else if occurs_at(s, i, det_close()) {
            lemma_strip_markers_len(s, i + 8);
            lemma_utf8_len_prefix_mono(sub, 8, n - i);
            assert(sub.subrange(8, n - i) =~= s.subrange(i + 8, n));
        } else {
            lemma_strip_markers_len(s, i + 1);
            lemma_utf8_len_concat(seq![s[i]], strip_markers_from(s, i + 1));
            lemma_utf8_len_concat(seq![s[i]], s.subrange(i + 1, n));
            assert(seq![s[i]] + s.subrange(i + 1, n) =~= s.subrange(i, n));
            assert(seq![s[i]].drop_last() =~= Seq::<char>::empty());
        }
    }
}

pub proof fn lemma_cleaned_fragment_len(buf: Seq<char>, frag: Seq<char>)
    ensures
        utf8_len(cleaned_fragment(buf, frag)) <= utf8_len(frag),
{
    let c = strip_markers(frag);
    lemma_strip_markers_len(frag, 0);
    assert(frag.subrange(0, frag.len() as int) =~= frag);
    lemma_first_kept_bounds(c, 0, false);
    lemma_utf8_len_prefix_mono(c, first_kept(c, 0, false), c.len() as int);
    lemma_utf8_len_prefix_mono(c, 0, first_kept(c, 0, false));
    assert(c.subrange(0, c.len() as int) =~= c);
}

/// Removes marker tokens from `v`.
fn strip_markers_exec(v: &[char]) -> (r: Vec<char>)
    ensures
        r@ == strip_markers(v@),
{
    let ro = ref_open_exec();
    let rc = ref_close_exec();
    let dopen = det_open_exec();
    let dc = det_close_exec();
    let mut out: Vec<char> = Vec::new();
    let mut i: usize = 0;
    while i < v.len()
        invariant
            ro@ == ref_open(),
            rc@ == ref_close(),
            dopen@ == det_open(),
            dc@ == det_close(),
            out@ + strip_markers_from(v@, i as int) == strip_markers(v@),
        decreases v@.len() - i,
    {
        if occurs_at_exec(v, i, &ro) || occurs_at_exec(v, i, &dopen) {
            i = i + 7;
        } else if occurs_at_exec(v, i, &rc) || occurs_at_exec(v, i, &dc) {
            i = i + 8;
        } else {
            out.push(v[i]);
            i = i + 1;
            assert(out@ + strip_markers_from(v@, i as int) =~= strip_markers(v@));
        }
    }
    assert(out@ + strip_markers_from(v@, i as int) =~= out@);
    out
}

// ---------------------------------------------------------------------------
// Region keys

/// `src_FILE|PAGE|ENGINE|PROFILE|`
pub open spec fn key_head(ctx: ParseContextView) -> Seq<char> {
    seq!['s', 'r', 'c', '_'] + ctx.file_hash + seq!['|'] + decimal(ctx.page_no as nat) + seq!['|']
        + ctx.engine_id + seq!['|'] + ctx.profile_id + seq!['|']
}

/// `START:END|`
pub open spec fn key_span(byte_start: nat, byte_end: nat) -> Seq<char> {
    decimal(byte_start) + seq![':'] + decimal(byte_end) + seq!['|']
}

/// A coordinate given in thousandths, written as Rust writes the number it
/// stands for: the whole part, then, when there is a fraction, a point and its
/// digits without trailing zeros (`12`, `12.5`, `12.05`, `12.345`).
pub open spec fn milli_text(m: nat) -> Seq<char> {
    let f = m % 1000;
    decimal(m / 1000) + if f == 0 {
        seq![]
    } else if f % 100 == 0 {
        seq!['.', crate::text::digit_char(f / 100)]
    } else if f % 10 == 0 {
        seq!['.', crate::text::digit_char(f / 100), crate::text::digit_char((f / 10) % 10)]
    } else {
        seq!['.', crate::text::digit_char(f / 100), crate::text::digit_char((f / 10) % 10), crate::text::digit_char(f % 10)]
    }
}

/// `X1,Y1,X2,Y2`
pub open spec fn key_coords(b: BoxPoints) -> Seq<char> {
    milli_text(b.x1 as nat) + seq![','] + milli_text(b.y1 as nat) + seq![','] + milli_text(b.x2 as nat) + seq![',']
        + milli_text(b.y2 as nat)
}

fn push_milli(k: &mut String, m: u32)
    ensures
        final(k)@ == old(k)@ + milli_text(m as nat),
{
    push_decimal(k, (m / 1000) as u64);
    let f = m % 1000;
    let ghost mid = k@;
    if f != 0 {
        push_char(k, '.');
        push_char(k, crate::text::digit_char_exec((f / 100) as u64));
        if f % 100 != 0 {
            push_char(k, crate::text::digit_char_exec(((f / 10) % 10) as u64));
            if f % 10 != 0 {
                push_char(k, crate::text::digit_char_exec((f % 10) as u64));
            }
        }
    }
    assert(k@ =~= old(k)@ + milli_text(m as nat));
}

/// The key of one box: `src_` and then the file, page, engine, profile, the
/// marker's byte span and label, and the box coordinates, joined by
/// separators as the workbench writes them before hashing.
pub open spec fn region_key(ctx: ParseContextView, byte_start: nat, byte_end: nat, label: Seq<char>, b: BoxPoints) -> Seq<char> {
    key_head(ctx) + key_span(byte_start, byte_end) + label + seq!['|'] + key_coords(b)
}

fn push_key_head(k: &mut String, ctx: &ParseContext)
    ensures
        final(k)@ == old(k)@ + key_head(ctx@),
{
    push_char(k, 's');
    push_char(k, 'r');
    push_char(k, 'c');
    push_char(k, '_');
    append_str(k, ctx.file_hash.as_str());
    push_char(k, '|');
    push_decimal(k, ctx.page_no as u64);
    push_char(k, '|');
    append_str(k, ctx.engine_id.as_str());
    push_char(k, '|');
    append_str(k, ctx.profile_id.as_str());
    push_char(k, '|');
    assert(k@ =~= old(k)@ + key_head(ctx@));
}

fn push_key_span(k: &mut String, byte_start: usize, byte_end: usize)
    ensures
        final(k)@ == old(k)@ + key_span(byte_start as nat, byte_end as nat),
{
    push_decimal(k, byte_start as u64);
    push_char(k, ':');
    push_decimal(k, byte_end as u64);
    push_char(k, '|');
    assert(k@ =~= old(k)@ + key_span(byte_start as nat, byte_end as nat));
}

fn push_key_coords(k: &mut String, b: BoxPoints)
    ensures
        final(k)@ == old(k)@ + key_coords(b),
{
    push_milli(k, b.x1);
    push_char(k, ',');
    push_milli(k, b.y1);
    push_char(k, ',');
    push_milli(k, b.x2);
    push_char(k, ',');
    push_milli(k, b.y2);
    assert(k@ =~= old(k)@ + key_coords(b));
}

fn region_key_exec(ctx: &ParseContext, byte_start: usize, byte_end: usize, label: &[char], b: BoxPoints) -> (k: String)
    ensures
        k@ == region_key(ctx@, byte_start as nat, byte_end as nat, label@, b),
{
    let mut k = String::new();
    push_key_head(&mut k, ctx);
    push_key_span(&mut k, byte_start, byte_end);
    append_range(&mut k, label, 0, label.len());
    push_char(&mut k, '|');
    push_key_coords(&mut k, b);
    assert(label@.subrange(0, label@.len() as int) =~= label@);
    assert(k@ =~= region_key(ctx@, byte_start as nat, byte_end as nat, label@, b));
    k
}

// ---------------------------------------------------------------------------
// The page parse

/// The boxes one segment contributes.
pub open spec fn segment_boxes(ctx: ParseContextView, sg: Segment, byte_start: nat, byte_end: nat) -> Seq<OverlayBoxView> {
    Seq::new(sg.boxes.len(), |i: int| {
        let key = region_key(ctx, byte_start, byte_end, sg.label, sg.boxes[i]);
        OverlayBoxView {
            annotation_id: key,
            region_id: key,
            source_region_key: key,
            label: sg.label,
            category: sg.label,
            content_markdown: seq![],
            content_html: None,
            page_no: ctx.page_no,
            bbox: sg.boxes[i],
            hidden: false,
            geometry_json: if i == 0 && sg.boxes.len() == 1 { sg.geometry } else { None },
        }
    })
}

/// The spans one segment contributes: empty spans at `clean_start`.
pub open spec fn segment_spans(ctx: ParseContextView, sg: Segment, byte_start: nat, byte_end: nat, clean_start: nat) -> Seq<TextRegionSpanView> {
    Seq::new(sg.boxes.len(), |i: int| {
        let key = region_key(ctx, byte_start, byte_end, sg.label, sg.boxes[i]);
        TextRegionSpanView {
            annotation_id: key,
            region_id: key,
            source_region_key: key,
            page_no: ctx.page_no,
            start: clean_start as u64,
            end: clean_start as u64,
        }
    })
}

pub struct ParseState {
    pub clean: Seq<char>,
    pub cursor: int,
    pub boxes: Seq<OverlayBoxView>,
    pub spans: Seq<TextRegionSpanView>,
}

/// The state after the first `k` segments: text before each segment is
/// cleaned and joined, and each box gets an empty span where the segment stood.
pub open spec fn parse_state(raw: Seq<char>, ctx: ParseContextView, segs: Seq<Segment>, k: int) -> ParseState
    decreases k,
{
    if k <= 0 {
        ParseState { clean: seq![], cursor: 0, boxes: seq![], spans: seq![] }
    } else {
        let st = parse_state(raw, ctx, segs, k - 1);
        let sg = segs[k - 1];
        let clean = if sg.start > st.cursor {
            push_fragment(st.clean, raw.subrange(st.cursor, sg.start))
        } else {
            st.clean
        };
        let bs = utf8_len(raw.subrange(0, sg.start));
        let be = utf8_len(raw.subrange(0, sg.end));
        ParseState {
            clean: clean,
            cursor: if st.cursor >= sg.end { st.cursor } else { sg.end },
            boxes: st.boxes + segment_boxes(ctx, sg, bs, be),
            spans: st.spans + segment_spans(ctx, sg, bs, be, utf8_len(clean)),
        }
    }
}

/// The parse of `raw`: the cleaned text, one box per marker box and one empty
/// span per box at the place where its marker stood.
pub open spec fn spec_parse_ocr_markers(raw: Seq<char>, ctx: ParseContextView) -> ParsedOcrPageView {
    let segs = collect_segments(raw);
    let st = parse_state(raw, ctx, segs, segs.len() as int);
    let clean = if st.cursor < raw.len() {
        push_fragment(st.clean, raw.subrange(st.cursor, raw.len() as int))
    } else {
        st.clean
    };
    ParsedOcrPageView { raw_text: raw, cleaned_text: clean, boxes: st.boxes, spans: st.spans }
}

/// `value` as a `u64`, or the largest `u64` when it does not fit.
pub fn usize_to_u64_saturating(value: usize) -> (r: u64)
    ensures
        r == value,
{
    value as u64
}

/// `value` as a `usize`, or the largest `usize` when it does not fit.
pub fn u64_to_usize_saturating(value: u64) -> (r: usize)
    ensures
        r == if value <= usize::MAX { value as usize } else { usize::MAX },
{
    if value <= usize::MAX as u64 {
        value as usize
    } else {
        usize::MAX
    }
}

/// Appends the cleaned fragment `raw[from..to]` to `clean`; returns the new byte length.
fn push_cleaned_fragment(clean: &mut String, clean_len: usize, clean_ends_ws: bool, raw: &[char], from: usize, to: usize) -> (r: (usize, bool))
    requires
        from <= to <= raw@.len(),
        clean_len == utf8_len(old(clean)@),
        clean_ends_ws == (old(clean)@.len() > 0 && is_ws(old(clean)@.last())),
        utf8_len(old(clean)@) + utf8_len(raw@.subrange(from as int, to as int)) <= usize::MAX,
    ensures
        final(clean)@ == push_fragment(old(clean)@, raw@.subrange(from as int, to as int)),
        r.0 == utf8_len(final(clean)@),
        r.0 <= clean_len + utf8_len(raw@.subrange(from as int, to as int)),
        r.1 == (final(clean)@.len() > 0 && is_ws(final(clean)@.last())),
{
    let frag = copy_range(raw, from, to);
    let cleaned = strip_markers_exec(&frag);
    let start = if clean_ends_ws {
        let (a, _) = trim_range(&cleaned, 0, cleaned.len(), false);
        a
    } else {
        0
    };
    proof {
        lemma_strip_markers_len(frag@, 0);
        assert(frag@.subrange(0, frag@.len() as int) =~= frag@);
        lemma_cleaned_fragment_len(old(clean)@, frag@);
        assert(cleaned@.subrange(0, cleaned@.len() as int) =~= cleaned@);
        lemma_first_kept_bounds(cleaned@, 0, false);
        assert(cleaned@.subrange(start as int, cleaned@.len() as int) == cleaned_fragment(old(clean)@, frag@));
        lemma_utf8_len_prefix_mono(cleaned@, start as int, cleaned@.len() as int);
        lemma_utf8_len_prefix_mono(cleaned@, 0, start as int);
    }
    let added = utf8_len_range(&cleaned, start, cleaned.len());
    append_range(clean, &cleaned, start, cleaned.len());
    proof {
        lemma_utf8_len_concat(old(clean)@, cleaned@.subrange(start as int, cleaned@.len() as int));
    }
    let ends_ws = if start < cleaned.len() {
        is_ws_exec(cleaned[cleaned.len() - 1])
    } else {
        clean_ends_ws
    };
    proof {
        let piece = cleaned@.subrange(start as int, cleaned@.len() as int);
        if piece.len() > 0 {
            assert(clean@.last() == piece.last());
        } else {
            assert(clean@ =~= old(clean)@);
        }
    }
    (clean_len + added, ends_ws)
}

/// The sidecar text of a segment as a string.
fn sidecar_string(g: &Option<Vec<char>>) -> (r: Option<String>)
    ensures
        opt_string_view(r) == crate::markers::opt_chars(*g),
{
    match g {
        Some(v) => Some(string_of(v)),
        None => None,
    }
}

/// Appends the boxes and the empty spans of one segment.
fn push_segment_regions(
    context: &ParseContext,
    sg: &SegmentAt,
    byte_start: usize,
    byte_end: usize,
    clean_start: u64,
    boxes: &mut Vec<OverlayBox>,
    spans: &mut Vec<TextRegionSpan>,
)
    ensures
        boxes_view(final(boxes)@) == boxes_view(old(boxes)@) + segment_boxes(context@, sg@, byte_start as nat, byte_end as nat),
        spans_view(final(spans)@) == spans_view(old(spans)@) + segment_spans(context@, sg@, byte_start as nat, byte_end as nat, clean_start as nat),
{
    let ghost ctx = context@;
    let ghost sgv = sg@;
    let ghost old_boxes = boxes_view(boxes@);
    let ghost old_spans = spans_view(spans@);
    let ghost sb = segment_boxes(ctx, sgv, byte_start as nat, byte_end as nat);
    let ghost ss = segment_spans(ctx, sgv, byte_start as nat, byte_end as nat, clean_start as nat);
    let mut j: usize = 0;
    while j < sg.boxes.len()
        invariant
            j <= sg.boxes@.len(),
            sgv == sg@,
            ctx == context@,
            sb == segment_boxes(ctx, sgv, byte_start as nat, byte_end as nat),
            ss == segment_spans(ctx, sgv, byte_start as nat, byte_end as nat, clean_start as nat),
            boxes_view(boxes@) == old_boxes + sb.take(j as int),
            spans_view(spans@) == old_spans + ss.take(j as int),
        decreases sg.boxes@.len() - j,
    {
        let b = sg.boxes[j];
        let key = region_key_exec(context, byte_start, byte_end, &sg.label, b);
        let key_chars = chars_of(key.as_str());
        let sp = TextRegionSpan {
            annotation_id: string_of(&key_chars),
            region_id: string_of(&key_chars),
            source_region_key: string_of(&key_chars),
            page_no: context.page_no,
            start: clean_start,
            end: clean_start,
        };
        let ob = OverlayBox {
            annotation_id: string_of(&key_chars),
            region_id: string_of(&key_chars),
            source_region_key: key,
            label: string_of(&sg.label),
            category: string_of(&sg.label),
            content_markdown: String::new(),
            content_html: None,
            page_no: context.page_no,
            bbox: b,
            hidden: false,
            geometry_json: if j == 0 && sg.boxes.len() == 1 { sidecar_string(&sg.geometry) } else { None },
        };
        proof {
            assert(b == sgv.boxes[j as int]);
            assert(ob@ == sb[j as int]);
            assert(sp@ == ss[j as int]);
        }
        let ghost pb = boxes@;
        let ghost ps = spans@;
        spans.push(sp);
        boxes.push(ob);
        j = j + 1;
        proof {
            assert(boxes_view(boxes@) =~= boxes_view(pb).push(ob@));
            assert(spans_view(spans@) =~= spans_view(ps).push(sp@));
            assert(sb.take(j as int) =~= sb.take(j - 1 as int).push(sb[j - 1 as int]));
            assert(ss.take(j as int) =~= ss.take(j - 1 as int).push(ss[j - 1 as int]));
        }
    }
    assert(sb.take(j as int) =~= sb);
    assert(ss.take(j as int) =~= ss);
}

/// Each box has the span at the same position, with the same key, and spans are empty.
pub open spec fn regions_aligned(p: ParsedOcrPageView) -> bool {
    &&& p.boxes.len() == p.spans.len()
    &&& forall|i: int| 0 <= i < p.spans.len() ==> {
        &&& (#[trigger] p.spans[i]).source_region_key == p.boxes[i].source_region_key
        &&& p.spans[i].start == p.spans[i].end
    }
}

/// Every box has `x1 <= x2 <= 999` and `y1 <= y2 <= 999` (in thousandths).
pub open spec fn boxes_normalized(p: ParsedOcrPageView) -> bool {
    forall|i: int| 0 <= i < p.boxes.len() ==> crate::markers::box_normalized(#[trigger] p.boxes[i].bbox)
}

/// Span starts never decrease.
pub open spec fn spans_ordered(p: ParsedOcrPageView) -> bool {
    forall|i: int, j: int| 0 <= i < j < p.spans.len() ==> p.spans[i].start <= p.spans[j].start
}

pub proof fn lemma_boundary_extend(a: Seq<char>, b: Seq<char>, off: int)
    requires
        is_byte_boundary(a, off),
    ensures
        is_byte_boundary(a + b, off),
{
    let k = choose|k: int| 0 <= k <= a.len() && utf8_len(#[trigger] a.subrange(0, k)) == off;
    assert((a + b).subrange(0, k) =~= a.subrange(0, k));
}

pub proof fn lemma_boundary_end(a: Seq<char>)
    ensures
        is_byte_boundary(a, utf8_len(a) as int),
{
    assert(a.subrange(0, a.len() as int) =~= a);
}

/// Parses the markers of one page of raw OCR output.
///
/// The result's boxes and spans correspond one to one, boxes are normalised,
/// span starts are ordered and lie on character boundaries of the cleaned text.
#[verifier::rlimit(80)]
pub fn parse_ocr_markers(raw_text: &str, context: &ParseContext) -> (parsed: ParsedOcrPage)
    requires
        utf8_len(raw_text@) <= usize::MAX,
    ensures
        parsed@ == spec_parse_ocr_markers(raw_text@, context@),
        regions_aligned(parsed@),
        boxes_normalized(parsed@),
        spans_ordered(parsed@),
        spans_on_boundaries(parsed@),
        utf8_len(parsed@.cleaned_text) <= utf8_len(raw_text@),
{
    let raw = chars_of(raw_text);
    let segments = collect_segments_exec(&raw);
    let ghost segs = collect_segments(raw@);
    let ghost ctx = context@;
    let mut clean = String::new();
    let mut clean_len: usize = 0;
    let mut clean_ends_ws = false;
    let mut cursor: usize = 0;
    let mut boxes: Vec<OverlayBox> = Vec::new();
    let mut spans: Vec<TextRegionSpan> = Vec::new();
    let mut k: usize = 0;
    proof {
        assert(raw@.subrange(0, 0) =~= Seq::<char>::empty());
    }
    while k < segments.len()
        invariant
            segs == collect_segments(raw@),
            segs_view(segments@) == segs,
            forall|i: int| 0 <= i < segments@.len() ==> crate::markers::seg_ok(#[trigger] segments@[i], raw@.len()),
            utf8_len(raw@) <= usize::MAX,
            ctx == context@,
            k <= segments@.len(),
            cursor <= raw@.len(),
            clean@ == parse_state(raw@, ctx, segs, k as int).clean,
            cursor == parse_state(raw@, ctx, segs, k as int).cursor,
            boxes_view(boxes@) == parse_state(raw@, ctx, segs, k as int).boxes,
            spans_view(spans@) == parse_state(raw@, ctx, segs, k as int).spans,
            clean_len == utf8_len(clean@),
            clean_len <= utf8_len(raw@.subrange(0, cursor as int)),
            clean_ends_ws == (clean@.len() > 0 && is_ws(clean@.last())),
            regions_aligned(ParsedOcrPageView { raw_text: raw@, cleaned_text: clean@, boxes: boxes_view(boxes@), spans: spans_view(spans@) }),
            boxes_normalized(ParsedOcrPageView { raw_text: raw@, cleaned_text: clean@, boxes: boxes_view(boxes@), spans: spans_view(spans@) }),
            spans_ordered(ParsedOcrPageView { raw_text: raw@, cleaned_text: clean@, boxes: boxes_view(boxes@), spans: spans_view(spans@) }),
            forall|i: int| 0 <= i < spans@.len() ==> {
                &&& (#[trigger] spans_view(spans@)[i]).start <= clean_len
                &&& is_byte_boundary(clean@, spans_view(spans@)[i].start as int)
            },
        decreases segments@.len() - k,
    {
        let sg = &segments[k];
        let ghost sgv = segs[k as int];
        assert(sgv == segments@[k as int]@);
        proof {
            lemma_utf8_len_prefix_mono(raw@, 0, raw@.len() as int);
            assert(raw@.subrange(0, raw@.len() as int) =~= raw@);
        }
        if sg.start > cursor {
            proof {
                lemma_utf8_len_prefix_mono(raw@, cursor as int, sg.start as int);
                lemma_utf8_len_prefix_mono(raw@, sg.start as int, raw@.len() as int);
            }
            let ghost before = clean@;
            let (nl, nw) = push_cleaned_fragment(&mut clean, clean_len, clean_ends_ws, &raw, cursor, sg.start);
            clean_len = nl;
            clean_ends_ws = nw;
            proof {
                let piece = cleaned_fragment(before, raw@.subrange(cursor as int, sg.start as int));
                assert(clean@ == before + piece);
                lemma_utf8_len_concat(before, piece);
                assert forall|i: int| 0 <= i < spans@.len() implies {
                    &&& (#[trigger] spans_view(spans@)[i]).start <= clean_len
                    &&& is_byte_boundary(clean@, spans_view(spans@)[i].start as int)
                } by {
                    lemma_boundary_extend(before, piece, spans_view(spans@)[i].start as int);
                }
            }
        }
        proof {
            lemma_utf8_len_prefix_mono(raw@, sg.start as int, sg.end as int);
            lemma_utf8_len_prefix_mono(raw@, sg.end as int, raw@.len() as int);
        }
        let byte_start = utf8_len_range(&raw, 0, sg.start);
        let byte_end = utf8_len_range(&raw, 0, sg.end);
        let clean_start = usize_to_u64_saturating(clean_len);
        let ghost bv0 = boxes_view(boxes@);
        let ghost sv0 = spans_view(spans@);
        push_segment_regions(context, sg, byte_start, byte_end, clean_start, &mut boxes, &mut spans);
        proof {
            let sb = segment_boxes(ctx, sgv, byte_start as nat, byte_end as nat);
            let ss = segment_spans(ctx, sgv, byte_start as nat, byte_end as nat, clean_start as nat);
            let bv = boxes_view(boxes@);
            let sv = spans_view(spans@);
            lemma_boundary_end(clean@);
            assert(crate::markers::seg_ok(segments@[k as int], raw@.len()));
            assert forall|i: int| 0 <= i < sv.len() implies {
                &&& (#[trigger] sv[i]).source_region_key == bv[i].source_region_key
                &&& sv[i].start == sv[i].end
                &&& sv[i].start <= clean_len
                &&& is_byte_boundary(clean@, sv[i].start as int)
                &&& crate::markers::box_normalized(bv[i].bbox)
            } by {
                if i >= sv0.len() {
                    assert(sv[i] == ss[i - sv0.len()]);
                    assert(bv[i] == sb[i - sv0.len()]);
                    assert(sgv.boxes[i - sv0.len()] == segments@[k as int].boxes@[i - sv0.len()]);
                } else {
                    assert(sv[i] == sv0[i]);
                    assert(bv[i] == bv0[i]);
                }
            }
            assert forall|i: int, j: int| 0 <= i < j < sv.len() implies sv[i].start <= sv[j].start by {
                if j >= sv0.len() {
                    assert(sv[j] == ss[j - sv0.len()]);
                    if i >= sv0.len() {
                        assert(sv[i] == ss[i - sv0.len()]);
                    } else {
                        assert(sv[i] == sv0[i]);
                    }
                } else {
                    assert(sv[i] == sv0[i]);
                    assert(sv[j] == sv0[j]);
                }
            }
            assert forall|i: int| 0 <= i < bv.len() implies crate::markers::box_normalized(#[trigger] bv[i].bbox) by {
                assert(sv[i].source_region_key == bv[i].source_region_key);
            }
        }
        proof {
            if cursor < sg.end {
                lemma_utf8_len_prefix_mono(raw@, cursor as int, sg.end as int);
            }
            lemma_utf8_len_prefix_mono(raw@, sg.start as int, sg.end as int);
        }
        if cursor < sg.end {
            cursor = sg.end;
        }
        k = k + 1;
    }
    if cursor < raw.len() {
        proof {
            lemma_utf8_len_prefix_mono(raw@, cursor as int, raw@.len() as int);
            assert(raw@.subrange(0, raw@.len() as int) =~= raw@);
        }
        let ghost before = clean@;
        let (final_len, _) = push_cleaned_fragment(&mut clean, clean_len, clean_ends_ws, &raw, cursor, raw.len());
        proof {
            lemma_utf8_len_prefix_mono(raw@, cursor as int, raw@.len() as int);
            assert(final_len <= utf8_len(raw@));
        }
        proof {
            let piece = cleaned_fragment(before, raw@.subrange(cursor as int, raw@.len() as int));
            lemma_utf8_len_concat(before, piece);
            assert forall|i: int| 0 <= i < spans@.len() implies is_byte_boundary(clean@, (#[trigger] spans_view(spans@)[i]).start as int) by {
                lemma_boundary_extend(before, piece, spans_view(spans@)[i].start as int);
            }
        }
    }
    proof {
        assert(raw@.subrange(0, raw@.len() as int) =~= raw@);
    }
    let raw_copy = string_of(&raw);
    ParsedOcrPage { raw_text: raw_copy, cleaned_text: clean, boxes, spans }
}

/// A fresh string holding `v`.
fn string_of(v: &[char]) -> (s: String)
    ensures
        s@ == v@,
{
    crate::text::string_from_chars(v)
}


// ---------------------------------------------------------------------------
// Region content

/// The first span at or after `i` whose source key is `key`.
pub open spec fn span_index_for_key(spans: Seq<TextRegionSpanView>, key: Seq<char>, i: int) -> Option<int>
    decreases spans.len() - i,
{
    if i < 0 || i >= spans.len() {
        None
    } else if spans[i].source_region_key == key {
        Some(i)
    } else {
        span_index_for_key(spans, key, i + 1)
    }
}

/// `b` is the smallest span start greater than `s`.
pub open spec fn is_next_start(spans: Seq<TextRegionSpanView>, s: u64, b: u64) -> bool {
    &&& b > s
    &&& exists|i: int| 0 <= i < spans.len() && (#[trigger] spans[i]).start == b
    &&& forall|i: int| 0 <= i < spans.len() && (#[trigger] spans[i]).start > s ==> spans[i].start >= b
}

pub open spec fn has_later_start(spans: Seq<TextRegionSpanView>, s: u64) -> bool {
    exists|i: int| 0 <= i < spans.len() && (#[trigger] spans[i]).start > s
}

pub open spec fn u64_to_usize_sat(v: u64) -> usize {
    if v <= usize::MAX { v as usize } else { usize::MAX }
}

/// The byte offset where the region that starts at `s` ends: the next span
/// start after `s`, or the end of the text.
pub open spec fn scope_end(spans: Seq<TextRegionSpanView>, s: u64, text_len: usize) -> usize {
    if has_later_start(spans, s) {
        let b = choose|b: u64| is_next_start(spans, s, b);
        let bu = u64_to_usize_sat(b);
        if bu <= text_len { bu } else { text_len }
    } else {
        text_len
    }
}

/// `off` is the byte offset of a character boundary of `text`.
pub open spec fn is_byte_boundary(text: Seq<char>, off: int) -> bool {
    exists|k: int| 0 <= k <= text.len() && utf8_len(#[trigger] text.subrange(0, k)) == off
}

/// The character index at byte offset `off`.
pub open spec fn char_index_at(text: Seq<char>, off: int) -> int {
    choose|k: int| 0 <= k <= text.len() && utf8_len(#[trigger] text.subrange(0, k)) == off
}

/// The text of the region whose span has key `key`: from its span start to
/// the next span start (or the end), without surrounding whitespace.
pub open spec fn region_content(text: Seq<char>, spans: Seq<TextRegionSpanView>, key: Seq<char>) -> Option<Seq<char>> {
    match span_index_for_key(spans, key, 0) {
        None => None,
        Some(i) => {
            let start = u64_to_usize_sat(spans[i].start);
            let end = scope_end(spans, spans[i].start, utf8_len(text) as usize);
            if start <= end && end <= utf8_len(text) {
                Some(trim(text.subrange(char_index_at(text, start as int), char_index_at(text, end as int))))
            } else {
                None
            }
        },
    }
}

/// A box after region content has been filled in.
pub open spec fn with_region_content(b: OverlayBoxView, text: Seq<char>, spans: Seq<TextRegionSpanView>) -> OverlayBoxView {
    match region_content(text, spans, b.source_region_key) {
        Some(c) => OverlayBoxView { content_markdown: c, ..b },
        None => b,
    }
}

/// Every span start that lies within the text is a character boundary, as
/// `str` slicing at span starts requires.
pub open spec fn spans_on_boundaries(page: ParsedOcrPageView) -> bool {
    forall|i: int| 0 <= i < page.spans.len() && (#[trigger] page.spans[i]).start <= utf8_len(page.cleaned_text)
        ==> is_byte_boundary(page.cleaned_text, page.spans[i].start as int)
}

pub proof fn lemma_utf8_prefix_strict(text: Seq<char>, i: int, j: int)
    requires
        0 <= i < j <= text.len(),
    ensures
        utf8_len(text.subrange(0, i)) < utf8_len(text.subrange(0, j)),
{
    lemma_utf8_len_prefix_mono(text, i, j);
    crate::text::lemma_utf8_len_bounds(text.subrange(i, j));
}

/// Byte offsets of character boundaries name exactly one character index.
pub proof fn lemma_char_index_unique(text: Seq<char>, k: int)
    requires
        0 <= k <= text.len(),
    ensures
        char_index_at(text, utf8_len(text.subrange(0, k)) as int) == k,
{
    let off = utf8_len(text.subrange(0, k)) as int;
    assert(0 <= k <= text.len() && utf8_len(text.subrange(0, k)) == off);
    let c = char_index_at(text, off);
    if c < k {
        lemma_utf8_prefix_strict(text, c, k);
    } else if c > k {
        lemma_utf8_prefix_strict(text, k, c);
    }
}

/// Some span start after `s` is the smallest one.
pub proof fn lemma_next_start_exists(sv: Seq<TextRegionSpanView>, s: u64)
    requires
        has_later_start(sv, s),
    ensures
        exists|b: u64| is_next_start(sv, s, b),
    decreases sv.len(),
{
    let rest = sv.drop_last();
    let last = sv.last();
    if has_later_start(rest, s) {
        lemma_next_start_exists(rest, s);
        let b0 = choose|b: u64| is_next_start(rest, s, b);
        let w0 = choose|w: int| 0 <= w < rest.len() && (#[trigger] rest[w]).start == b0;
        assert(sv[w0] == rest[w0]);
        if last.start > s && last.start < b0 {
            assert(sv[sv.len() - 1] == last);
            assert forall|i: int| 0 <= i < sv.len() && (#[trigger] sv[i]).start > s implies sv[i].start >= last.start by {
                if i < sv.len() - 1 {
                    assert(rest[i] == sv[i]);
                }
            }
            assert(is_next_start(sv, s, last.start));
        } else {
            assert forall|i: int| 0 <= i < sv.len() && (#[trigger] sv[i]).start > s implies sv[i].start >= b0 by {
                if i < sv.len() - 1 {
                    assert(rest[i] == sv[i]);
                }
            }
            assert(is_next_start(sv, s, b0));
        }
    } else {
        let w = choose|w: int| 0 <= w < sv.len() && (#[trigger] sv[w]).start > s;
        if w < sv.len() - 1 {
            assert(rest[w] == sv[w]);
        }
        assert(sv[sv.len() - 1] == last);
        assert forall|i: int| 0 <= i < sv.len() && (#[trigger] sv[i]).start > s implies sv[i].start >= last.start by {
            if i < sv.len() - 1 {
                assert(rest[i] == sv[i]);
            }
        }
        assert(is_next_start(sv, s, last.start));
    }
}

/// The start and end of a region's byte range are character boundaries.
pub proof fn lemma_bounds_on_boundaries(text: Seq<char>, sv: Seq<TextRegionSpanView>, s: u64, start: usize, end: usize)
    requires
        forall|i: int| 0 <= i < sv.len() && (#[trigger] sv[i]).start <= utf8_len(text)
            ==> is_byte_boundary(text, sv[i].start as int),
        exists|i: int| 0 <= i < sv.len() && (#[trigger] sv[i]).start == s,
        utf8_len(text) <= usize::MAX,
        start == u64_to_usize_sat(s),
        end == scope_end(sv, s, utf8_len(text) as usize),
        start <= end <= utf8_len(text),
    ensures
        is_byte_boundary(text, start as int),
        is_byte_boundary(text, end as int),
{
    assert(text.subrange(0, text.len() as int) =~= text);
    assert(utf8_len(text.subrange(0, text.len() as int)) == utf8_len(text));
    let n = utf8_len(text) as int;
    if s <= utf8_len(text) {
        let i = choose|i: int| 0 <= i < sv.len() && (#[trigger] sv[i]).start == s;
        assert(is_byte_boundary(text, sv[i].start as int));
    } else {
        assert(start as int == n);
    }
    if end as int != n {
        assert(has_later_start(sv, s));
        lemma_next_start_exists(sv, s);
        let b = choose|b: u64| is_next_start(sv, s, b);
        assert(is_next_start(sv, s, b));
        let w = choose|w: int| 0 <= w < sv.len() && (#[trigger] sv[w]).start == b;
        assert(end == b);
        assert(is_byte_boundary(text, sv[w].start as int));
    }
}

/// Finds the character index at byte offset `off`, if `off` is a boundary.
pub(crate) fn char_index_of_byte(v: &[char], off: usize) -> (r: Option<usize>)
    requires
        utf8_len(v@) <= usize::MAX,
    ensures
        match r {
            Some(k) => k <= v@.len() && utf8_len(v@.subrange(0, k as int)) == off,
            None => !is_byte_boundary(v@, off as int),
        },
{
    let mut k: usize = 0;
    let mut acc: usize = 0;
    assert(v@.subrange(0, 0) =~= Seq::<char>::empty());
    while k < v.len() && acc < off
        invariant
            k <= v@.len(),
            utf8_len(v@) <= usize::MAX,
            acc == utf8_len(v@.subrange(0, k as int)),
            forall|m: int| 0 <= m < k ==> utf8_len(#[trigger] v@.subrange(0, m)) < off,
        decreases v@.len() - k,
    {
        proof {
            lemma_utf8_len_prefix_mono(v@, k + 1, v@.len() as int);
            assert(v@.subrange(0, v@.len() as int) =~= v@);
            assert(v@.subrange(0, k + 1 as int).drop_last() =~= v@.subrange(0, k as int));
        }
        acc = acc + crate::text::char_width_exec(v[k]);
        k = k + 1;
    }
    if acc == off {
        Some(k)
    } else {
        proof {
            assert forall|m: int| 0 <= m <= v@.len() implies utf8_len(#[trigger] v@.subrange(0, m)) != off by {
                if m > k {
                    lemma_utf8_prefix_strict(v@, k as int, m);
                }
            }
        }
        None
    }
}

/// Inserts `x` into the strictly increasing `v`, unless it is already there.
fn insert_sorted_unique(v: &mut Vec<u64>, x: u64)
    requires
        forall|i: int, j: int| 0 <= i < j < old(v)@.len() ==> old(v)@[i] < old(v)@[j],
    ensures
        forall|i: int, j: int| 0 <= i < j < final(v)@.len() ==> final(v)@[i] < final(v)@[j],
        forall|y: u64| final(v)@.contains(y) <==> (old(v)@.contains(y) || y == x),
{
    let mut i: usize = 0;
    while i < v.len() && v[i] < x
        invariant
            i <= v@.len(),
            v@ == old(v)@,
            forall|k: int| 0 <= k < i ==> v@[k] < x,
        decreases v@.len() - i,
    {
        i = i + 1;
    }
    if i < v.len() && v[i] == x {
        assert(v@[i as int] == x);
        return;
    }
    v.insert(i, x);
    proof {
        assert forall|y: u64| v@.contains(y) <==> (old(v)@.contains(y) || y == x) by {
            if v@.contains(y) {
                let k = choose|k: int| 0 <= k < v@.len() && v@[k] == y;
                if k < i {
                    assert(old(v)@[k] == y);
                } else if k > i {
                    assert(old(v)@[k - 1] == y);
                }
            }
            if old(v)@.contains(y) {
                let k = choose|k: int| 0 <= k < old(v)@.len() && old(v)@[k] == y;
                if k < i {
                    assert(v@[k] == y);
                } else {
                    assert(v@[k + 1] == y);
                }
            }
            if y == x {
                assert(v@[i as int] == y);
            }
        }
    }
}

/// The distinct span starts in increasing order.
fn sorted_unique_span_starts(spans: &Vec<TextRegionSpan>) -> (r: Vec<u64>)
    ensures
        forall|i: int, j: int| 0 <= i < j < r@.len() ==> r@[i] < r@[j],
        forall|y: u64| r@.contains(y) <==> exists|i: int| 0 <= i < spans@.len() && (#[trigger] spans@[i]).start == y,
{
    let mut r: Vec<u64> = Vec::new();
    let mut k: usize = 0;
    while k < spans.len()
        invariant
            k <= spans@.len(),
            forall|i: int, j: int| 0 <= i < j < r@.len() ==> r@[i] < r@[j],
            forall|y: u64| r@.contains(y) <==> exists|i: int| 0 <= i < k && (#[trigger] spans@[i]).start == y,
        decreases spans@.len() - k,
    {
        insert_sorted_unique(&mut r, spans[k].start);
        k = k + 1;
        proof {
            assert forall|y: u64| r@.contains(y) <==> exists|i: int| 0 <= i < k && (#[trigger] spans@[i]).start == y by {
                if y == spans@[k - 1].start {
                    assert(spans@[k - 1].start == y);
                }
            }
        }
    }
    r
}

/// The end of the region that starts at `current_start`.
fn next_scope_end(current_start: u64, boundaries: &Vec<u64>, text_len: usize, spans: Ghost<Seq<TextRegionSpanView>>) -> (r: usize)
    requires
        forall|i: int, j: int| 0 <= i < j < boundaries@.len() ==> boundaries@[i] < boundaries@[j],
        forall|y: u64| boundaries@.contains(y) <==> exists|i: int| 0 <= i < spans@.len() && (#[trigger] spans@[i]).start == y,
    ensures
        r == scope_end(spans@, current_start, text_len),
{
    let mut i: usize = 0;
    while i < boundaries.len() && boundaries[i] <= current_start
        invariant
            i <= boundaries@.len(),
            forall|k: int| 0 <= k < i ==> boundaries@[k] <= current_start,
        decreases boundaries@.len() - i,
    {
        i = i + 1;
    }
    if i < boundaries.len() {
        let b = boundaries[i];
        proof {
            assert(boundaries@.contains(b));
            let w = choose|w: int| 0 <= w < spans@.len() && (#[trigger] spans@[w]).start == b;
            assert forall|m: int| 0 <= m < spans@.len() && (#[trigger] spans@[m]).start > current_start implies spans@[m].start >= b by {
                let y = spans@[m].start;
                assert(boundaries@.contains(y));
                let p = choose|p: int| 0 <= p < boundaries@.len() && boundaries@[p] == y;
                if p < i {
                } else if p > i {
                }
            }
            assert(is_next_start(spans@, current_start, b));
            assert(has_later_start(spans@, current_start));
            let c = choose|c: u64| is_next_start(spans@, current_start, c);
            assert(c == b) by {
                let wc = choose|w: int| 0 <= w < spans@.len() && (#[trigger] spans@[w]).start == c;
                assert(spans@[wc].start > current_start);
                assert(spans@[w].start > current_start);
            }
        }
        let bu = u64_to_usize_saturating(b);
        if bu <= text_len { bu } else { text_len }
    } else {
        proof {
            assert forall|m: int| 0 <= m < spans@.len() implies !((#[trigger] spans@[m]).start > current_start) by {
                let y = spans@[m].start;
                assert(boundaries@.contains(y));
            }
        }
        text_len
    }
}

pub proof fn lemma_span_index_for_key(spans: Seq<TextRegionSpanView>, key: Seq<char>, i: int)
    requires
        0 <= i,
    ensures
        span_index_for_key(spans, key, i) matches Some(k) ==> i <= k < spans.len() && spans[k].source_region_key == key,
    decreases spans.len() - i,
{
    if i < spans.len() && spans[i].source_region_key != key {
        lemma_span_index_for_key(spans, key, i + 1);
    }
}

/// Finds the first span whose source key is `key`.
fn span_index_for_key_exec(spans: &Vec<TextRegionSpan>, key: &String) -> (r: Option<usize>)
    ensures
        match r {
            Some(i) => span_index_for_key(spans_view(spans@), key@, 0) == Some(i as int),
            None => span_index_for_key(spans_view(spans@), key@, 0) is None,
        },
{
    let ghost sv = spans_view(spans@);
    let mut i: usize = 0;
    while i < spans.len()
        invariant
            i <= spans@.len(),
            sv == spans_view(spans@),
            span_index_for_key(sv, key@, 0) == span_index_for_key(sv, key@, i as int),
        decreases spans@.len() - i,
    {
        assert(sv[i as int] == spans@[i as int]@);
        if spans[i].source_region_key == *key {
            return Some(i);
        }
        i = i + 1;
    }
    None
}

/// Fills in each box's `content_markdown` with the text of its region.
pub fn apply_region_content(parsed: &mut ParsedOcrPage)
    requires
        spans_on_boundaries(old(parsed)@),
        utf8_len(old(parsed)@.cleaned_text) <= usize::MAX,
    ensures
        final(parsed)@.raw_text == old(parsed)@.raw_text,
        final(parsed)@.cleaned_text == old(parsed)@.cleaned_text,
        final(parsed)@.spans == old(parsed)@.spans,
        final(parsed)@.boxes.len() == old(parsed)@.boxes.len(),
        forall|i: int| 0 <= i < final(parsed)@.boxes.len() ==> #[trigger] final(parsed)@.boxes[i]
            == with_region_content(old(parsed)@.boxes[i], old(parsed)@.cleaned_text, old(parsed)@.spans),
{
    let ghost sv = spans_view(parsed.spans@);
    let ghost text = parsed.cleaned_text@;
    let boundaries = sorted_unique_span_starts(&parsed.spans);
    proof {
        assert forall|y: u64| boundaries@.contains(y) <==> exists|i: int| 0 <= i < sv.len() && (#[trigger] sv[i]).start == y by {
            if boundaries@.contains(y) {
                let i = choose|i: int| 0 <= i < parsed.spans@.len() && (#[trigger] parsed.spans@[i]).start == y;
                assert(sv[i] == parsed.spans@[i]@);
            }
            if exists|i: int| 0 <= i < sv.len() && (#[trigger] sv[i]).start == y {
                let i = choose|i: int| 0 <= i < sv.len() && (#[trigger] sv[i]).start == y;
                assert(sv[i] == parsed.spans@[i]@);
            }
        }
    }
    let chars = chars_of(parsed.cleaned_text.as_str());
    let text_len = utf8_len_range(&chars, 0, chars.len());
    assert(chars@.subrange(0, chars@.len() as int) =~= chars@);
    let mut old_boxes: Vec<OverlayBox> = Vec::new();
    std::mem::swap(&mut old_boxes, &mut parsed.boxes);
    let ghost ob = boxes_view(old_boxes@);
    assert(old_boxes@.len() == old_boxes.len());
    let mut k: usize = 0;
    while old_boxes.len() > 0
        invariant
            sv == spans_view(parsed.spans@),
            sv == old(parsed)@.spans,
            text == old(parsed)@.cleaned_text,
            parsed.cleaned_text@ == text,
            parsed.raw_text@ == old(parsed)@.raw_text,
            chars@ == text,
            text_len == utf8_len(text),
            spans_on_boundaries(old(parsed)@),
            ob == old(parsed)@.boxes,
            forall|i: int, j: int| 0 <= i < j < boundaries@.len() ==> boundaries@[i] < boundaries@[j],
            forall|y: u64| boundaries@.contains(y) <==> exists|i: int| 0 <= i < sv.len() && (#[trigger] sv[i]).start == y,
            k + old_boxes@.len() == ob.len(),
            ob.len() <= usize::MAX,
            boxes_view(old_boxes@) == ob.subrange(k as int, ob.len() as int),
            parsed.boxes@.len() == k,
            forall|i: int| 0 <= i < k ==> #[trigger] boxes_view(parsed.boxes@)[i] == with_region_content(ob[i], text, sv),
        decreases old_boxes@.len(),
    {
        let ghost prev = old_boxes@;
        assert(boxes_view(prev)[0] == prev[0]@);
        let mut item = old_boxes.remove(0);
        proof {
            assert(item@ == ob[k as int]);
            assert(old_boxes@ =~= prev.subrange(1, prev.len() as int));
            assert forall|j: int| 0 <= j < old_boxes@.len() implies #[trigger] boxes_view(old_boxes@)[j] == ob.subrange(k + 1, ob.len() as int)[j] by {
                assert(boxes_view(prev)[j + 1] == prev[j + 1]@);
            }
            assert(boxes_view(old_boxes@) =~= ob.subrange(k + 1, ob.len() as int));
        }
        let ghost before = item@;
        match span_index_for_key_exec(&parsed.spans, &item.source_region_key) {
            Some(si) => {
                proof {
                    lemma_span_index_for_key(sv, item@.source_region_key, 0);
                    assert(sv[si as int] == parsed.spans@[si as int]@);
                }
                let span_start = parsed.spans[si].start;
                let start = u64_to_usize_saturating(span_start);
                let end = next_scope_end(span_start, &boundaries, text_len, Ghost(sv));
                if start <= end && end <= text_len {
                    let ks = char_index_of_byte(&chars, start);
                    let ke = char_index_of_byte(&chars, end);
                    match (ks, ke) {
                        (Some(a), Some(b)) => {
                            proof {
                                lemma_char_index_unique(text, a as int);
                                lemma_char_index_unique(text, b as int);
                                if a > b {
                                    lemma_utf8_prefix_strict(text, b as int, a as int);
                                }
                            }
                            let (ta, tb) = trim_range(&chars, a, b, false);
                            item.content_markdown = crate::text::string_from_range(&chars, ta, tb);
                        },
                        _ => {
                            proof {
                                lemma_bounds_on_boundaries(text, sv, span_start, start, end);
                            }
                        },
                    }
                }
            },
            None => {},
        }
        proof {
            assert(item@ == with_region_content(before, text, sv));
        }
        let ghost pb = parsed.boxes@;
        let ghost iv = item@;
        parsed.boxes.push(item);
        k = k + 1;
        proof {
            assert(boxes_view(parsed.boxes@)[k - 1] == iv);
            assert forall|i: int| 0 <= i < k implies #[trigger] boxes_view(parsed.boxes@)[i] == with_region_content(ob[i], text, sv) by {
                if i < k - 1 {
                    assert(boxes_view(parsed.boxes@)[i] == parsed.boxes@[i]@);
                    assert(parsed.boxes@[i] == pb[i]);
                    assert(boxes_view(pb)[i] == pb[i]@);
                }
            }
        }
    }
}

/// Filling in region content twice gives the same boxes as doing it once.
pub proof fn law_region_content_idempotent(b: OverlayBoxView, text: Seq<char>, spans: Seq<TextRegionSpanView>)
    ensures
        with_region_content(with_region_content(b, text, spans), text, spans) == with_region_content(b, text, spans),
{
}

/// A span after the region with key `key` was given the id `id`.
pub open spec fn span_with_id(sp: TextRegionSpanView, key: Seq<char>, id: Seq<char>) -> TextRegionSpanView {
    if sp.source_region_key == key { TextRegionSpanView { annotation_id: id, region_id: id, ..sp } } else { sp }
}

/// A box after the region with key `key` was given the id `id`.
pub open spec fn box_with_id(b: OverlayBoxView, key: Seq<char>, id: Seq<char>) -> OverlayBoxView {
    if b.source_region_key == key { OverlayBoxView { annotation_id: id, region_id: id, ..b } } else { b }
}

/// Gives every span and box of the region with key `source_region_key` the
/// annotation id `annotation_id`, as both its annotation and region id.
pub fn apply_annotation_id(parsed: &mut ParsedOcrPage, source_region_key: &str, annotation_id: &str)
    ensures
        final(parsed)@.raw_text == old(parsed)@.raw_text,
        final(parsed)@.cleaned_text == old(parsed)@.cleaned_text,
        final(parsed)@.spans.len() == old(parsed)@.spans.len(),
        forall|i: int| 0 <= i < old(parsed)@.spans.len() ==> #[trigger] final(parsed)@.spans[i]
            == span_with_id(old(parsed)@.spans[i], source_region_key@, annotation_id@),
        final(parsed)@.boxes.len() == old(parsed)@.boxes.len(),
        forall|i: int| 0 <= i < old(parsed)@.boxes.len() ==> #[trigger] final(parsed)@.boxes[i]
            == box_with_id(old(parsed)@.boxes[i], source_region_key@, annotation_id@),
{
    let mut i: usize = 0;
    while i < parsed.spans.len()
        invariant
            i <= parsed.spans@.len(),
            parsed.spans@.len() == old(parsed).spans@.len(),
            parsed.boxes@ == old(parsed).boxes@,
            parsed.raw_text@ == old(parsed).raw_text@,
            parsed.cleaned_text@ == old(parsed).cleaned_text@,
            forall|k: int| 0 <= k < i ==> (#[trigger] parsed.spans@[k])@
                == span_with_id(old(parsed).spans@[k]@, source_region_key@, annotation_id@),
            forall|k: int| i <= k < parsed.spans@.len() ==> #[trigger] parsed.spans@[k] == old(parsed).spans@[k],
        decreases parsed.spans@.len() - i,
    {
        if crate::text::str_eq(parsed.spans[i].source_region_key.as_str(), source_region_key) {
            parsed.spans[i].annotation_id = annotation_id.to_owned();
            parsed.spans[i].region_id = annotation_id.to_owned();
        }
        i = i + 1;
    }
    let mut j: usize = 0;
    while j < parsed.boxes.len()
        invariant
            j <= parsed.boxes@.len(),
            parsed.boxes@.len() == old(parsed).boxes@.len(),
            parsed.spans@.len() == old(parsed).spans@.len(),
            parsed.raw_text@ == old(parsed).raw_text@,
            parsed.cleaned_text@ == old(parsed).cleaned_text@,
            forall|k: int| 0 <= k < parsed.spans@.len() ==> (#[trigger] parsed.spans@[k])@
                == span_with_id(old(parsed).spans@[k]@, source_region_key@, annotation_id@),
            forall|k: int| 0 <= k < j ==> (#[trigger] parsed.boxes@[k])@
                == box_with_id(old(parsed).boxes@[k]@, source_region_key@, annotation_id@),
            forall|k: int| j <= k < parsed.boxes@.len() ==> #[trigger] parsed.boxes@[k] == old(parsed).boxes@[k],
        decreases parsed.boxes@.len() - j,
    {
        if crate::text::str_eq(parsed.boxes[j].source_region_key.as_str(), source_region_key) {
            parsed.boxes[j].annotation_id = annotation_id.to_owned();
            parsed.boxes[j].region_id = annotation_id.to_owned();
        }
        j = j + 1;
    }
    proof {
        assert forall|i: int| 0 <= i < old(parsed)@.spans.len() implies #[trigger] parsed@.spans[i]
            == span_with_id(old(parsed)@.spans[i], source_region_key@, annotation_id@) by {
            assert(parsed@.spans[i] == parsed.spans@[i]@);
            assert(old(parsed)@.spans[i] == old(parsed).spans@[i]@);
        }
        assert forall|i: int| 0 <= i < old(parsed)@.boxes.len() implies #[trigger] parsed@.boxes[i]
            == box_with_id(old(parsed)@.boxes[i], source_region_key@, annotation_id@) by {
            assert(parsed@.boxes[i] == parsed.boxes@[i]@);
            assert(old(parsed)@.boxes[i] == old(parsed).boxes@[i]@);
        }
    }
}

/// Giving a region the same id twice changes nothing more than giving it once.
pub proof fn law_annotation_id_idempotent(sp: TextRegionSpanView, b: OverlayBoxView, key: Seq<char>, id: Seq<char>)
    ensures
        span_with_id(span_with_id(sp, key, id), key, id) == span_with_id(sp, key, id),
        box_with_id(box_with_id(b, key, id), key, id) == box_with_id(b, key, id),
{
}

/// A text span in the shared OCR output form.
pub struct OcrTextSpan {
    pub annotation_id: Option<String>,
    pub source_region_key: String,
    pub page_no: u32,
    pub start: u64,
    pub end: u64,
}

/// The shared-output form of a region span.
pub fn text_span_from_overlay(span: &TextRegionSpan) -> (r: OcrTextSpan)
    ensures
        crate::logs::opt_view(r.annotation_id) == Some(span.annotation_id@),
        r.source_region_key@ == span.source_region_key@,
        r.page_no == span.page_no,
        r.start == span.start,
        r.end == span.end,
{
    OcrTextSpan {
        annotation_id: Some(span.annotation_id.clone()),
        source_region_key: span.source_region_key.clone(),
        page_no: span.page_no,
        start: span.start,
        end: span.end,
    }
}

/// The text span of the region with key `key`: that of the first span with it.
pub fn region_text_span(spans: &[TextRegionSpan], key: &str) -> (r: Option<OcrTextSpan>)
    ensures
        match span_index_for_key(spans_view(spans@), key@, 0) {
            Some(i) => r matches Some(t) && t.source_region_key@ == key@ && t.start == spans@[i].start
                && t.end == spans@[i].end && t.page_no == spans@[i].page_no
                && crate::logs::opt_view(t.annotation_id) == Some(spans@[i].annotation_id@),
            None => r is None,
        },
{
    let ghost sv = spans_view(spans@);
    let mut i: usize = 0;
    while i < spans.len()
        invariant
            i <= spans@.len(),
            sv == spans_view(spans@),
            span_index_for_key(sv, key@, 0) == span_index_for_key(sv, key@, i as int),
        decreases spans@.len() - i,
    {
        assert(sv[i as int] == spans@[i as int]@);
        if crate::text::str_eq(spans[i].source_region_key.as_str(), key) {
            return Some(text_span_from_overlay(&spans[i]));
        }
        i = i + 1;
    }
    None
}

// ---------------------------------------------------------------------------
// The shared OCR output

/// The outline of an annotation: an axis-aligned box on the page's grid.
pub struct OcrGeometry {
    pub kind: String,
    pub bbox: BoxPoints,
}

/// A region in the shared OCR output form, with the text span it covers.
pub struct OcrAnnotation {
    pub annotation_id: Option<String>,
    pub source_region_key: String,
    pub label: String,
    pub category: String,
    pub geometry: OcrGeometry,
    pub text_span: Option<OcrTextSpan>,
}

/// One page of shared OCR output.
pub struct OcrPageOutput {
    pub page_no: u32,
    pub text: String,
    pub annotations: Vec<OcrAnnotation>,
    pub spans: Vec<OcrTextSpan>,
    pub timing_ms: Option<u64>,
}

/// Which engine, pipeline, model and runtime produced an output, with the
/// engine's own metadata as JSON text.
pub struct OcrEngineProvenance {
    pub engine_id: String,
    pub pipeline: String,
    pub model_id: Option<String>,
    pub runtime_id: Option<String>,
    pub metadata_json: String,
}

/// OCR output in the form every engine shares.
pub struct OcrDocumentOutput {
    pub pages: Vec<OcrPageOutput>,
    pub provenance: OcrEngineProvenance,
    pub warnings: Vec<String>,
}

/// `t` is the shared form of the span `s`.
pub open spec fn text_span_of(t: OcrTextSpan, s: TextRegionSpanView) -> bool {
    &&& crate::logs::opt_view(t.annotation_id) == Some(s.annotation_id)
    &&& t.source_region_key@ == s.source_region_key
    &&& t.page_no == s.page_no
    &&& t.start == s.start
    &&& t.end == s.end
}

/// `a` is the shared form of the region `b`, with the first span of its key.
pub open spec fn annotation_of(a: OcrAnnotation, b: OverlayBoxView, spans: Seq<TextRegionSpanView>) -> bool {
    &&& crate::logs::opt_view(a.annotation_id) == Some(b.annotation_id)
    &&& a.source_region_key@ == b.source_region_key
    &&& a.label@ == b.label
    &&& a.category@ == b.category
    &&& a.geometry.kind@ == "axis_aligned"@
    &&& a.geometry.bbox == b.bbox
    &&& match span_index_for_key(spans, b.source_region_key, 0) {
        Some(i) => a.text_span matches Some(t) && text_span_of(t, spans[i]),
        None => a.text_span is None,
    }
}

/// The shared-output form of a region.
pub fn annotation_from_overlay(item: &OverlayBox, spans: &[TextRegionSpan]) -> (r: OcrAnnotation)
    ensures
        annotation_of(r, item@, spans_view(spans@)),
{
    let text_span = region_text_span(spans, item.source_region_key.as_str());
    proof {
        match span_index_for_key(spans_view(spans@), item.source_region_key@, 0) {
            Some(i) => {
                lemma_span_index_for_key(spans_view(spans@), item.source_region_key@, 0);
                assert(spans_view(spans@)[i] == spans@[i]@);
            },
            None => {},
        }
    }
    OcrAnnotation {
        annotation_id: Some(item.annotation_id.clone()),
        source_region_key: item.source_region_key.clone(),
        label: item.label.clone(),
        category: item.category.clone(),
        geometry: OcrGeometry { kind: "axis_aligned".to_owned(), bbox: item.bbox },
        text_span,
    }
}

impl OcrDocumentOutput {
    /// The shared output of one parsed page: its cleaned text, its regions and
    /// its spans, numbered as its first region is (page 1 when it has none).
    pub fn from_parsed_page(parsed: &ParsedOcrPage, provenance: OcrEngineProvenance) -> (r: OcrDocumentOutput)
        ensures
            r.pages@.len() == 1,
            r.pages@[0].page_no == (if parsed.boxes@.len() == 0 { 1 } else { parsed.boxes@[0].page_no }),
            r.pages@[0].text@ == parsed.cleaned_text@,
            r.pages@[0].annotations@.len() == parsed.boxes@.len(),
            forall|k: int|
                0 <= k < parsed.boxes@.len() ==> annotation_of(
                    #[trigger] r.pages@[0].annotations@[k],
                    parsed.boxes@[k]@,
                    spans_view(parsed.spans@),
                ),
            r.pages@[0].spans@.len() == parsed.spans@.len(),
            forall|k: int| 0 <= k < parsed.spans@.len() ==> text_span_of(#[trigger] r.pages@[0].spans@[k], parsed.spans@[k]@),
            r.pages@[0].timing_ms is None,
            r.provenance == provenance,
            r.warnings@.len() == 0,
    {
        let page_no = if parsed.boxes.len() == 0 { 1 } else { parsed.boxes[0].page_no };
        let mut annotations: Vec<OcrAnnotation> = Vec::new();
        let mut i: usize = 0;
        while i < parsed.boxes.len()
            invariant
                i <= parsed.boxes@.len(),
                annotations@.len() == i,
                forall|k: int|
                    0 <= k < i ==> annotation_of(#[trigger] annotations@[k], parsed.boxes@[k]@, spans_view(parsed.spans@)),
            decreases parsed.boxes@.len() - i,
        {
            annotations.push(annotation_from_overlay(&parsed.boxes[i], parsed.spans.as_slice()));
            i = i + 1;
        }
        let mut spans: Vec<OcrTextSpan> = Vec::new();
        let mut j: usize = 0;
        while j < parsed.spans.len()
            invariant
                j <= parsed.spans@.len(),
                spans@.len() == j,
                forall|k: int| 0 <= k < j ==> text_span_of(#[trigger] spans@[k], parsed.spans@[k]@),
            decreases parsed.spans@.len() - j,
        {
            spans.push(text_span_from_overlay(&parsed.spans[j]));
            j = j + 1;
        }
        let page = OcrPageOutput {
            page_no,
            text: parsed.cleaned_text.clone(),
            annotations,
            spans,
            timing_ms: None,
        };
        OcrDocumentOutput { pages: vec![page], provenance, warnings: Vec::new() }
    }
}

/// A copy of a region.
pub fn copy_overlay_box(b: &OverlayBox) -> (r: OverlayBox)
    ensures
        r@ == b@,
{
    OverlayBox {
        annotation_id: b.annotation_id.clone(),
        region_id: b.region_id.clone(),
        source_region_key: b.source_region_key.clone(),
        label: b.label.clone(),
        category: b.category.clone(),
        content_markdown: b.content_markdown.clone(),
        content_html: match &b.content_html {
            Some(h) => Some(h.clone()),
            None => None,
        },
        page_no: b.page_no,
        bbox: b.bbox,
        hidden: b.hidden,
        geometry_json: match &b.geometry_json {
            Some(g) => Some(g.clone()),
            None => None,
        },
    }
}

} // verus!
