//! Retrieval text segments built from OCR page text.
//!
//! Page text is cut into sources: the runs of each line that lie outside
//! marker blocks, each with an optional leading category word. Sources are cut
//! into chunks whose token estimate stays within a target, and every
//! non-blank chunk becomes one segment row with its byte range in the page.

use vstd::prelude::*;
use crate::markers::{det_close, det_open, find_from, lemma_find_from, ref_close, ref_open};
use crate::ocr_page::{spans_view, TextRegionSpan, TextRegionSpanView};
use crate::ids::{is_v7_id_text, new_persistence_id};
use crate::text::{
    string_from_chars, chars_of, str_eq, occurs_at, occurs_at_exec, string_from_range, trim_range, first_kept, last_kept_end, utf8_len,
    utf8_len_range, lemma_utf8_len_prefix_mono, lemma_first_kept_bounds, lemma_last_kept_end_bounds,
};

verus! {

/// Segments are cut so that their token estimate stays at or below this.
pub const RAG_SEGMENT_TARGET_TOKENS: u32 = 256;

// ---------------------------------------------------------------------------
// Token estimate

pub open spec fn ascii_count(s: Seq<char>) -> nat
    decreases s.len(),
{
    if s.len() == 0 {
        0
    } else {
        ascii_count(s.drop_last()) + if (s.last() as u32) < 128 { 1nat } else { 0nat }
    }
}

/// A rough token count: one token per non-ASCII character, one per four ASCII characters.
pub open spec fn token_estimate(s: Seq<char>) -> nat {
    (s.len() - ascii_count(s)) as nat + (ascii_count(s) + 3) / 4
}

pub proof fn lemma_ascii_count_concat(a: Seq<char>, b: Seq<char>)
    ensures
        ascii_count(a + b) == ascii_count(a) + ascii_count(b),
        ascii_count(b) <= b.len(),
    decreases b.len(),
{
    if b.len() == 0 {
        assert(a + b =~= a);
    } else {
        lemma_ascii_count_concat(a, b.drop_last());
        assert((a + b).drop_last() =~= a + b.drop_last());
    }
}

/// The estimate of a piece never exceeds that of a text containing it.
pub proof fn lemma_token_estimate_sub(s: Seq<char>, a: int, b: int, c: int, d: int)
    requires
        0 <= a <= c <= d <= b <= s.len(),
    ensures
        token_estimate(s.subrange(c, d)) <= token_estimate(s.subrange(a, b)),
{
    let x = s.subrange(a, c);
    let y = s.subrange(c, d);
    let z = s.subrange(d, b);
    assert(s.subrange(a, b) =~= x + y + z);
    lemma_ascii_count_concat(x, y);
    lemma_ascii_count_concat(x + y, z);
    lemma_ascii_count_concat(Seq::<char>::empty(), x);
    lemma_ascii_count_concat(Seq::<char>::empty(), z);
}

/// Estimates the token count of `text`, saturating at `u32::MAX`.
pub fn estimate_tokens(text: &str) -> (n: u32)
    ensures
        n == if token_estimate(text@) <= u32::MAX { token_estimate(text@) } else { u32::MAX as nat },
{
    let v = chars_of(text);
    assert(v@.subrange(0, v@.len() as int) =~= v@);
    estimate_tokens_range(&v, 0, v.len())
}

fn estimate_tokens_range(v: &[char], start: usize, end: usize) -> (n: u32)
    requires
        start <= end <= v@.len(),
    ensures
        n == if token_estimate(v@.subrange(start as int, end as int)) <= u32::MAX {
            token_estimate(v@.subrange(start as int, end as int))
        } else {
            u32::MAX as nat
        },
{
    let mut ascii: usize = 0;
    let mut other: usize = 0;
    let mut i = start;
    while i < end
        invariant
            start <= i <= end <= v@.len(),
            ascii == ascii_count(v@.subrange(start as int, i as int)),
            ascii + other == i - start,
        decreases end - i,
    {
        proof {
            assert(v@.subrange(start as int, i + 1 as int).drop_last() =~= v@.subrange(start as int, i as int));
        }
        if (v[i] as u32) < 128 {
            ascii = ascii + 1;
        } else {
            other = other + 1;
        }
        i = i + 1;
    }
    let ceil: usize = ascii / 4 + if ascii % 4 != 0 { 1 } else { 0 };
    proof {
        let a = ascii as int;
        assert((a + 3) / 4 == a / 4 + if a % 4 != 0 { 1int } else { 0int }) by (nonlinear_arith);
    }
    let total: u64 = other as u64 + ceil as u64;
    if total <= u32::MAX as u64 {
        total as u32
    } else {
        u32::MAX
    }
}

// ---------------------------------------------------------------------------
// Sources

pub open spec fn page_text_category() -> Seq<char> {
    seq!['p', 'a', 'g', 'e', '_', 't', 'e', 'x', 't']
}

/// Layout labels that may lead a line of OCR text, followed by a space.
pub open spec fn categories() -> Seq<Seq<char>> {
    seq![
        seq!['t', 'i', 't', 'l', 'e'],
        seq!['s', 'u', 'b', '_', 't', 'i', 't', 'l', 'e'],
        seq!['t', 'e', 'x', 't'],
        seq!['h', 'e', 'a', 'd', 'e', 'r'],
        seq!['f', 'o', 'o', 't', 'e', 'r'],
        seq!['a', 's', 'i', 'd', 'e'],
        seq!['c', 'a', 'p', 't', 'i', 'o', 'n'],
        seq!['t', 'a', 'b', 'l', 'e'],
        seq!['i', 'm', 'a', 'g', 'e'],
        seq!['f', 'i', 'g', 'u', 'r', 'e'],
    ]
}

fn categories_exec() -> (v: Vec<Vec<char>>)
    ensures
        v@.len() == categories().len(),
        forall|i: int| 0 <= i < v@.len() ==> (#[trigger] v@[i])@ == categories()[i],
{
    let v = vec![
        vec!['t', 'i', 't', 'l', 'e'],
        vec!['s', 'u', 'b', '_', 't', 'i', 't', 'l', 'e'],
        vec!['t', 'e', 'x', 't'],
        vec!['h', 'e', 'a', 'd', 'e', 'r'],
        vec!['f', 'o', 'o', 't', 'e', 'r'],
        vec!['a', 's', 'i', 'd', 'e'],
        vec!['c', 'a', 'p', 't', 'i', 'o', 'n'],
        vec!['t', 'a', 'b', 'l', 'e'],
        vec!['i', 'm', 'a', 'g', 'e'],
        vec!['f', 'i', 'g', 'u', 'r', 'e'],
    ];
    assert(v@[0]@ =~= categories()[0]);
    assert(v@[1]@ =~= categories()[1]);
    assert(v@[2]@ =~= categories()[2]);
    assert(v@[3]@ =~= categories()[3]);
    assert(v@[4]@ =~= categories()[4]);
    assert(v@[5]@ =~= categories()[5]);
    assert(v@[6]@ =~= categories()[6]);
    assert(v@[7]@ =~= categories()[7]);
    assert(v@[8]@ =~= categories()[8]);
    assert(v@[9]@ =~= categories()[9]);
    v
}

/// The category word `w` followed by a space occurs at `i`, ending before `p`.
pub open spec fn category_word_at(t: Seq<char>, i: int, p: int, w: Seq<char>) -> bool {
    occurs_at(t, i, w.push(' ')) && i + w.len() + 1 <= p
}

/// The first category (from index `c` of the list) that leads `t[i..p]`.
pub open spec fn category_at(t: Seq<char>, i: int, p: int, c: int) -> Option<int>
    decreases categories().len() - c,
{
    if c < 0 || c >= categories().len() {
        None
    } else if category_word_at(t, i, p, categories()[c]) {
        Some(c)
    } else {
        category_at(t, i, p, c + 1)
    }
}

/// A run of text: characters `t[start..end]` with a category.
pub struct Source {
    pub start: int,
    pub end: int,
    pub category: Seq<char>,
}

/// The source for the piece `t[i..p]`: a leading category word is taken off.
pub open spec fn classify(t: Seq<char>, i: int, p: int) -> Source {
    match category_at(t, i, p, 0) {
        Some(c) => Source { start: i + categories()[c].len() + 1, end: p, category: categories()[c] },
        None => Source { start: i, end: p, category: page_text_category() },
    }
}

/// A line break or the start of a marker token at `k`.
pub open spec fn is_break(t: Seq<char>, k: int) -> bool {
    t[k] == '\n' || occurs_at(t, k, ref_open()) || occurs_at(t, k, ref_close()) || occurs_at(t, k, det_open())
        || occurs_at(t, k, det_close())
}

/// The end of the piece that starts at `i`.
pub open spec fn piece_end(t: Seq<char>, i: int) -> int
    decreases t.len() - i,
{
    if 0 <= i < t.len() && !is_break(t, i) {
        piece_end(t, i + 1)
    } else {
        i
    }
}

/// Where a marker block starting at `i` ends: after the matching closing token
/// (or at the end of the text), or after a stray closing token.
pub open spec fn block_end(t: Seq<char>, i: int) -> int {
    if occurs_at(t, i, det_open()) {
        match find_from(t, i + 7, det_close()) {
            Some(e) => e + 8,
            None => t.len() as int,
        }
    } else if occurs_at(t, i, ref_open()) {
        match find_from(t, i + 7, ref_close()) {
            Some(e) => e + 8,
            None => t.len() as int,
        }
    } else {
        i + 8
    }
}

/// The sources of `t` from `i` on.
pub open spec fn sources_from(t: Seq<char>, i: int) -> Seq<Source>
    decreases t.len() - i,
{
    if i < 0 || i >= t.len() {
        seq![]
    } else if t[i] == '\n' {
        sources_from(t, i + 1)
    } else if is_break(t, i) {
        let e = block_end(t, i);
        if i < e <= t.len() {
            sources_from(t, e)
        } else {
            seq![]
        }
    } else {
        let p = piece_end(t, i);
        if i < p <= t.len() {
            seq![classify(t, i, p)] + sources_from(t, p)
        } else {
            seq![]
        }
    }
}

pub proof fn lemma_piece_end(t: Seq<char>, i: int)
    requires
        0 <= i <= t.len(),
    ensures
        i <= piece_end(t, i) <= t.len(),
        i < t.len() && !is_break(t, i) ==> i < piece_end(t, i),
    decreases t.len() - i,
{
    if i < t.len() && !is_break(t, i) {
        lemma_piece_end(t, i + 1);
    }
}

pub proof fn lemma_block_end(t: Seq<char>, i: int)
    requires
        0 <= i < t.len(),
        t[i] != '\n',
        is_break(t, i),
    ensures
        i < block_end(t, i) <= t.len(),
{
    if occurs_at(t, i, det_open()) {
        lemma_find_from(t, i + 7, det_close());
    } else if occurs_at(t, i, ref_open()) {
        lemma_find_from(t, i + 7, ref_close());
    }
}

pub proof fn lemma_category_at(t: Seq<char>, i: int, p: int, c: int)
    requires
        0 <= c,
    ensures
        category_at(t, i, p, c) matches Some(k) ==> c <= k < categories().len()
            && category_word_at(t, i, p, categories()[k]),
    decreases categories().len() - c,
{
    if c < categories().len() && !category_word_at(t, i, p, categories()[c]) {
        lemma_category_at(t, i, p, c + 1);
    }
}

pub struct SourceAt {
    pub start: usize,
    pub end: usize,
    pub category: Vec<char>,
}

impl View for SourceAt {
    type V = Source;

    open spec fn view(&self) -> Source {
        Source { start: self.start as int, end: self.end as int, category: self.category@ }
    }
}

pub open spec fn sources_view(v: Seq<SourceAt>) -> Seq<Source> {
    v.map_values(|s: SourceAt| s@)
}

fn is_break_exec(t: &[char], k: usize, toks: &Vec<Vec<char>>) -> (b: bool)
    requires
        k < t@.len(),
        toks@.len() == 4,
        toks@[0]@ == ref_open(),
        toks@[1]@ == ref_close(),
        toks@[2]@ == det_open(),
        toks@[3]@ == det_close(),
    ensures
        b == is_break(t@, k as int),
{
    t[k] == '\n' || occurs_at_exec(t, k, &toks[0]) || occurs_at_exec(t, k, &toks[1]) || occurs_at_exec(t, k, &toks[2])
        || occurs_at_exec(t, k, &toks[3])
}

fn marker_tokens_exec() -> (toks: Vec<Vec<char>>)
    ensures
        toks@.len() == 4,
        toks@[0]@ == ref_open(),
        toks@[1]@ == ref_close(),
        toks@[2]@ == det_open(),
        toks@[3]@ == det_close(),
{
    let mut toks: Vec<Vec<char>> = Vec::new();
    toks.push(crate::markers::ref_open_exec());
    toks.push(crate::markers::ref_close_exec());
    toks.push(crate::markers::det_open_exec());
    toks.push(crate::markers::det_close_exec());
    toks
}

fn category_at_exec(t: &[char], i: usize, p: usize, cats: &Vec<Vec<char>>) -> (r: Option<usize>)
    requires
        cats@.len() == categories().len(),
        forall|k: int| 0 <= k < cats@.len() ==> (#[trigger] cats@[k])@ == categories()[k],
        i <= p <= t@.len(),
    ensures
        match r {
            Some(c) => category_at(t@, i as int, p as int, 0) == Some(c as int),
            None => category_at(t@, i as int, p as int, 0) is None,
        },
{
    let mut c: usize = 0;
    while c < cats.len()
        invariant
            c <= cats@.len(),
            cats@.len() == categories().len(),
            forall|k: int| 0 <= k < cats@.len() ==> (#[trigger] cats@[k])@ == categories()[k],
            i <= p <= t@.len(),
            category_at(t@, i as int, p as int, 0) == category_at(t@, i as int, p as int, c as int),
        decreases cats@.len() - c,
    {
        let w = &cats[c];
        assert(w@ == categories()[c as int]);
        if w.len() < p - i && occurs_at_exec(t, i, w) && t[i + w.len()] == ' ' {
            proof {
                assert(t@.subrange(i as int, i + w@.len() + 1) =~= w@.push(' '));
            }
            return Some(c);
        }
        proof {
            if occurs_at(t@, i as int, w@.push(' ')) && i + w@.len() + 1 <= p {
                assert(t@.subrange(i as int, i + w@.len() + 1)[w@.len() as int] == ' ');
                assert(t@.subrange(i as int, i + w@.len() + 1).subrange(0, w@.len() as int) =~= w@);
                assert(t@.subrange(i as int, i + w@.len()) =~= t@.subrange(i as int, i + w@.len() + 1).subrange(0, w@.len() as int));
            }
        }
        c = c + 1;
    }
    None
}

/// Cuts `t` into sources.
fn sources_exec(t: &[char]) -> (r: Vec<SourceAt>)
    ensures
        sources_view(r@) == sources_from(t@, 0),
        forall|k: int| 0 <= k < r@.len() ==> (#[trigger] r@[k]).start <= r@[k].end <= t@.len(),
{
    assert(t@.len() == t.len());
    let toks = marker_tokens_exec();
    let cats = categories_exec();
    let mut out: Vec<SourceAt> = Vec::new();
    let mut i: usize = 0;
    while i < t.len()
        invariant
            i <= t@.len(),
            t@.len() == t.len(),
            toks@.len() == 4,
            toks@[0]@ == ref_open(),
            toks@[1]@ == ref_close(),
            toks@[2]@ == det_open(),
            toks@[3]@ == det_close(),
            cats@.len() == categories().len(),
            forall|k: int| 0 <= k < cats@.len() ==> (#[trigger] cats@[k])@ == categories()[k],
            sources_view(out@) + sources_from(t@, i as int) == sources_from(t@, 0),
            forall|k: int| 0 <= k < out@.len() ==> (#[trigger] out@[k]).start <= out@[k].end <= t@.len(),
        decreases t@.len() - i,
    {
        if t[i] == '\n' {
            i = i + 1;
        } else if is_break_exec(t, i, &toks) {
            proof {
                lemma_block_end(t@, i as int);
            }
            let e = if occurs_at_exec(t, i, &toks[2]) {
                proof { lemma_find_from(t@, i + 7, det_close()); }
                match crate::markers::find_from_exec(t, i + 7, &toks[3]) {
                    Some(e) => e + 8,
                    None => t.len(),
                }
            } else if occurs_at_exec(t, i, &toks[0]) {
                proof { lemma_find_from(t@, i + 7, ref_close()); }
                match crate::markers::find_from_exec(t, i + 7, &toks[1]) {
                    Some(e) => e + 8,
                    None => t.len(),
                }
            } else {
                i + 8
            };
            assert(e == block_end(t@, i as int));
            i = e;
        } else {
            let mut p = i;
            proof {
                lemma_piece_end(t@, i as int);
            }
            while p < t.len() && !is_break_exec(t, p, &toks)
                invariant
                    i <= p <= t@.len(),
                    t@.len() == t.len(),
                    toks@.len() == 4,
                    toks@[0]@ == ref_open(),
                    toks@[1]@ == ref_close(),
                    toks@[2]@ == det_open(),
                    toks@[3]@ == det_close(),
                    piece_end(t@, i as int) == piece_end(t@, p as int),
                decreases t@.len() - p,
            {
                p = p + 1;
            }
            let src = match category_at_exec(t, i, p, &cats) {
                Some(c) => {
                    proof {
                        lemma_category_at(t@, i as int, p as int, 0);
                    }
                    SourceAt { start: i + cats[c].len() + 1, end: p, category: copy_chars(&cats[c]) }
                },
                None => SourceAt { start: i, end: p, category: page_text_category_exec() },
            };
            assert(src@ == classify(t@, i as int, p as int));
            let ghost prev = out@;
            out.push(src);
            assert(sources_view(out@) =~= sources_view(prev).push(src@));
            i = p;
        }
    }
    assert(sources_view(out@) + sources_from(t@, i as int) =~= sources_view(out@));
    out
}

fn copy_chars(v: &Vec<char>) -> (r: Vec<char>)
    ensures
        r@ == v@,
{
    let r = crate::text::copy_range(v, 0, v.len());
    assert(v@.subrange(0, v@.len() as int) =~= v@);
    r
}

fn page_text_category_exec() -> (v: Vec<char>)
    ensures
        v@ == page_text_category(),
{
    let v = vec!['p', 'a', 'g', 'e', '_', 't', 'e', 'x', 't'];
    assert(v@ =~= page_text_category());
    v
}

// ---------------------------------------------------------------------------
// Chunks

/// Extends a chunk that starts at `a` from `b` while the estimate stays within the target.
pub open spec fn chunk_end(t: Seq<char>, a: int, b: int, e: int) -> int
    decreases e - b,
{
    if a <= b < e && token_estimate(t.subrange(a, b + 1)) <= RAG_SEGMENT_TARGET_TOKENS {
        chunk_end(t, a, b + 1, e)
    } else {
        b
    }
}

/// The greedy chunks of `t[a..e]`: each as long as the token target allows.
pub open spec fn chunks_from(t: Seq<char>, a: int, e: int) -> Seq<(int, int)>
    decreases e - a,
{
    if a < 0 || a >= e || e > t.len() {
        seq![]
    } else {
        let b = chunk_end(t, a, a, e);
        if a < b <= e {
            seq![(a, b)] + chunks_from(t, b, e)
        } else {
            seq![]
        }
    }
}

pub proof fn lemma_chunk_end(t: Seq<char>, a: int, b: int, e: int)
    requires
        0 <= a <= b <= e <= t.len(),
        token_estimate(t.subrange(a, b)) <= RAG_SEGMENT_TARGET_TOKENS,
    ensures
        b <= chunk_end(t, a, b, e) <= e,
        token_estimate(t.subrange(a, chunk_end(t, a, b, e))) <= RAG_SEGMENT_TARGET_TOKENS,
    decreases e - b,
{
    if a <= b < e && token_estimate(t.subrange(a, b + 1)) <= RAG_SEGMENT_TARGET_TOKENS {
        lemma_chunk_end(t, a, b + 1, e);
    }
}

pub proof fn lemma_chunk_progress(t: Seq<char>, a: int, e: int)
    requires
        0 <= a < e <= t.len(),
    ensures
        a < chunk_end(t, a, a, e) <= e,
        token_estimate(t.subrange(a, chunk_end(t, a, a, e))) <= RAG_SEGMENT_TARGET_TOKENS,
{
    let one = t.subrange(a, a + 1);
    assert(one.drop_last() =~= Seq::<char>::empty());
    assert(ascii_count(Seq::<char>::empty()) == 0);
    assert(ascii_count(one) <= 1);
    assert(token_estimate(one) <= 1);
    assert(chunk_end(t, a, a, e) == chunk_end(t, a, a + 1, e));
    lemma_chunk_end(t, a, a + 1, e);
}

/// Chunk ranges of `t[a..e]` as character indices.
fn chunks_exec(t: &[char], a: usize, e: usize) -> (r: Vec<(usize, usize)>)
    requires
        a <= e <= t@.len(),
    ensures
        r@.len() == chunks_from(t@, a as int, e as int).len(),
        forall|k: int| 0 <= k < r@.len() ==> {
            &&& (#[trigger] r@[k]).0 as int == chunks_from(t@, a as int, e as int)[k].0
            &&& r@[k].1 as int == chunks_from(t@, a as int, e as int)[k].1
            &&& a <= r@[k].0 < r@[k].1 <= e
            &&& token_estimate(t@.subrange(r@[k].0 as int, r@[k].1 as int)) <= RAG_SEGMENT_TARGET_TOKENS
        },
{
    let ghost whole = chunks_from(t@, a as int, e as int);
    let mut out: Vec<(usize, usize)> = Vec::new();
    let mut s = a;
    while s < e
        invariant
            a <= s <= e <= t@.len(),
            whole == chunks_from(t@, a as int, e as int),
            out@.len() + chunks_from(t@, s as int, e as int).len() == whole.len(),
            forall|k: int| 0 <= k < chunks_from(t@, s as int, e as int).len() ==> whole[out@.len() + k] == #[trigger] chunks_from(t@, s as int, e as int)[k],
            forall|k: int| 0 <= k < out@.len() ==> {
                &&& (#[trigger] out@[k]).0 as int == whole[k].0
                &&& out@[k].1 as int == whole[k].1
                &&& a <= out@[k].0 < out@[k].1 <= e
                &&& token_estimate(t@.subrange(out@[k].0 as int, out@[k].1 as int)) <= RAG_SEGMENT_TARGET_TOKENS
            },
        decreases e - s,
    {
        proof {
            lemma_chunk_progress(t@, s as int, e as int);
        }
        let ghost rest = chunks_from(t@, s as int, e as int);
        let ghost s0 = s as int;
        let mut b = s;
        let mut ascii: usize = 0;
        let mut other: usize = 0;
        proof {
            assert(t@.subrange(s as int, s as int) =~= Seq::<char>::empty());
        }
        loop
            invariant_except_break
                s <= b <= e <= t@.len(),
                ascii == crate::segments::ascii_count(t@.subrange(s as int, b as int)),
                ascii + other == b - s,
                chunk_end(t@, s as int, s as int, e as int) == chunk_end(t@, s as int, b as int, e as int),
            ensures
                b == chunk_end(t@, s as int, s as int, e as int),
            decreases e - b,
        {
            if b >= e {
                break;
            }
            let is_ascii = (t[b] as u32) < 128;
            let na: usize = if is_ascii { ascii + 1 } else { ascii };
            let no: usize = if is_ascii { other } else { other + 1 };
            proof {
                assert(t@.subrange(s as int, b + 1 as int).drop_last() =~= t@.subrange(s as int, b as int));
            }
            let nceil: usize = na / 4 + if na % 4 != 0 { 1 } else { 0 };
            proof {
                let x = na as int;
                assert((x + 3) / 4 == x / 4 + if x % 4 != 0 { 1int } else { 0int }) by (nonlinear_arith);
                crate::segments::lemma_ascii_count_concat(Seq::<char>::empty(), t@.subrange(s as int, b + 1 as int));
            }
            let est: u64 = no as u64 + nceil as u64;
            if est > RAG_SEGMENT_TARGET_TOKENS as u64 {
                break;
            }
            ascii = na;
            other = no;
            b = b + 1;
        }
        proof {
            assert(rest == seq![(s0, b as int)] + chunks_from(t@, b as int, e as int));
            assert(whole[out@.len() as int] == rest[0]);
        }
        out.push((s, b));
        s = b;
        proof {
            let nr = chunks_from(t@, s as int, e as int);
            assert forall|k: int| 0 <= k < nr.len() implies whole[out@.len() + k] == #[trigger] nr[k] by {
                assert(nr[k] == rest[k + 1]);
            }
        }
    }
    out
}


/// Byte ranges of the greedy chunks of `text`.
pub fn rag_text_chunks(text: &str) -> (r: Vec<(usize, usize)>)
    requires
        utf8_len(text@) <= usize::MAX,
    ensures
        r@.len() == chunks_from(text@, 0, text@.len() as int).len(),
        forall|k: int| 0 <= k < r@.len() ==> {
            let c = chunks_from(text@, 0, text@.len() as int)[k];
            &&& (#[trigger] r@[k]).0 == utf8_len(text@.subrange(0, c.0))
            &&& r@[k].1 == utf8_len(text@.subrange(0, c.1))
            &&& 0 <= c.0 < c.1 <= text@.len()
            &&& token_estimate(text@.subrange(c.0, c.1)) <= RAG_SEGMENT_TARGET_TOKENS
        },
{
    let t = chars_of(text);
    let cs = chunks_exec(&t, 0, t.len());
    let mut out: Vec<(usize, usize)> = Vec::new();
    let mut k: usize = 0;
    while k < cs.len()
        invariant
            t@ == text@,
            utf8_len(t@) <= usize::MAX,
            k <= cs@.len(),
            cs@.len() == chunks_from(t@, 0, t@.len() as int).len(),
            forall|m: int| 0 <= m < cs@.len() ==> {
                &&& (#[trigger] cs@[m]).0 as int == chunks_from(t@, 0, t@.len() as int)[m].0
                &&& cs@[m].1 as int == chunks_from(t@, 0, t@.len() as int)[m].1
                &&& 0 <= cs@[m].0 < cs@[m].1 <= t@.len()
                &&& token_estimate(t@.subrange(cs@[m].0 as int, cs@[m].1 as int)) <= RAG_SEGMENT_TARGET_TOKENS
            },
            out@.len() == k,
            forall|m: int| 0 <= m < k ==> {
                &&& (#[trigger] out@[m]).0 == utf8_len(t@.subrange(0, cs@[m].0 as int))
                &&& out@[m].1 == utf8_len(t@.subrange(0, cs@[m].1 as int))
            },
        decreases cs@.len() - k,
    {
        let (a, b) = cs[k];
        let ba = utf8_len_range(&t, 0, a);
        let bb = utf8_len_range(&t, 0, b);
        out.push((ba, bb));
        k = k + 1;
    }
    out
}

// ---------------------------------------------------------------------------
// Segment rows

/// A non-blank chunk, trimmed, as character indices into the page text.
pub struct ChunkPiece {
    pub start: int,
    pub end: int,
    pub category: Seq<char>,
}

/// The trimmed, non-blank chunks among `chunks`.
pub open spec fn pieces_of_chunks(t: Seq<char>, chunks: Seq<(int, int)>, category: Seq<char>) -> Seq<ChunkPiece>
    decreases chunks.len(),
{
    if chunks.len() == 0 {
        seq![]
    } else {
        let prev = pieces_of_chunks(t, chunks.drop_last(), category);
        let (a, b) = chunks.last();
        let sub = t.subrange(a, b);
        let fa = first_kept(sub, 0, false);
        let lb = last_kept_end(sub, b - a, fa, false);
        if fa < lb {
            prev.push(ChunkPiece { start: a + fa, end: a + lb, category: category })
        } else {
            prev
        }
    }
}

/// The pieces of all `sources` in order.
pub open spec fn pieces_of_sources(t: Seq<char>, sources: Seq<Source>) -> Seq<ChunkPiece>
    decreases sources.len(),
{
    if sources.len() == 0 {
        seq![]
    } else {
        let src = sources.last();
        pieces_of_sources(t, sources.drop_last()) + pieces_of_chunks(t, chunks_from(t, src.start, src.end), src.category)
    }
}

/// The pieces of a page text.
pub open spec fn page_pieces(t: Seq<char>) -> Seq<ChunkPiece> {
    pieces_of_sources(t, sources_from(t, 0))
}

pub struct PieceAt {
    pub start: usize,
    pub end: usize,
    pub category: Vec<char>,
}

impl View for PieceAt {
    type V = ChunkPiece;

    open spec fn view(&self) -> ChunkPiece {
        ChunkPiece { start: self.start as int, end: self.end as int, category: self.category@ }
    }
}

pub open spec fn pieces_view(v: Seq<PieceAt>) -> Seq<ChunkPiece> {
    v.map_values(|p: PieceAt| p@)
}

pub open spec fn chunk_pairs(v: Seq<(usize, usize)>) -> Seq<(int, int)> {
    v.map_values(|p: (usize, usize)| (p.0 as int, p.1 as int))
}

/// Trimmed non-blank chunks of a page text.
fn page_pieces_exec(t: &[char]) -> (r: Vec<PieceAt>)
    ensures
        pieces_view(r@) == page_pieces(t@),
        forall|k: int| 0 <= k < r@.len() ==> (#[trigger] r@[k]).start < r@[k].end <= t@.len(),
{
    let srcs = sources_exec(t);
    let ghost sv = sources_view(srcs@);
    let mut out: Vec<PieceAt> = Vec::new();
    let mut i: usize = 0;
    while i < srcs.len()
        invariant
            i <= srcs@.len(),
            sv == sources_view(srcs@),
            sv == sources_from(t@, 0),
            forall|k: int| 0 <= k < srcs@.len() ==> (#[trigger] srcs@[k]).start <= srcs@[k].end <= t@.len(),
            pieces_view(out@) == pieces_of_sources(t@, sv.take(i as int)),
            forall|k: int| 0 <= k < out@.len() ==> (#[trigger] out@[k]).start < out@[k].end <= t@.len(),
        decreases srcs@.len() - i,
    {
        let src = &srcs[i];
        assert(sv[i as int] == src@);
        let cs = chunks_exec(t, src.start, src.end);
        let ghost cv = chunks_from(t@, src.start as int, src.end as int);
        let ghost base = pieces_view(out@);
        proof {
            assert(chunk_pairs(cs@) =~= cv);
            assert(sv.take(i + 1).drop_last() =~= sv.take(i as int));
            assert(sv.take(i + 1).last() == src@);
        }
        let mut j: usize = 0;
        while j < cs.len()
            invariant
                j <= cs@.len(),
                chunk_pairs(cs@) == cv,
                forall|m: int| 0 <= m < cs@.len() ==> #[trigger] cs@[m].0 < cs@[m].1 <= t@.len(),
                pieces_view(out@) == base + pieces_of_chunks(t@, cv.take(j as int), src.category@),
                forall|k: int| 0 <= k < out@.len() ==> (#[trigger] out@[k]).start < out@[k].end <= t@.len(),
            decreases cs@.len() - j,
        {
            let (a, b) = cs[j];
            let (a2, b2) = trim_range(t, a, b, false);
            proof {
                assert(cv.take(j + 1).drop_last() =~= cv.take(j as int));
                assert(cv.take(j + 1).last() == (a as int, b as int));
            }
            if a2 < b2 {
                let p = PieceAt { start: a2, end: b2, category: copy_chars(&src.category) };
                let ghost prev = out@;
                out.push(p);
                assert(pieces_view(out@) =~= pieces_view(prev).push(p@));
            }
            j = j + 1;
        }
        proof {
            assert(cv.take(j as int) =~= cv);
        }
        i = i + 1;
    }
    proof {
        assert(sv.take(i as int) =~= sv);
    }
    out
}

/// The page text and region spans that segments are built from.
pub struct PageTextRecord {
    pub page_no: u32,
    pub text: String,
    pub spans: Vec<TextRegionSpan>,
}

/// A retrieval segment of page text.
pub struct RagTextSegmentRow {
    pub segment_id: String,
    pub source_run_id: String,
    pub file_hash: String,
    pub page_no: u32,
    pub segment_index: u32,
    pub annotation_id: Option<String>,
    pub category: String,
    pub text: String,
    pub token_estimate: u32,
    pub text_start: u64,
    pub text_end: u64,
    pub source_kind: String,
}

/// A segment row apart from its freshly generated id.
pub struct SegmentRowView {
    pub source_run_id: Seq<char>,
    pub file_hash: Seq<char>,
    pub page_no: u32,
    pub segment_index: u32,
    pub annotation_id: Option<Seq<char>>,
    pub category: Seq<char>,
    pub text: Seq<char>,
    pub token_estimate: u32,
    pub text_start: u64,
    pub text_end: u64,
    pub source_kind: Seq<char>,
}

impl View for RagTextSegmentRow {
    type V = SegmentRowView;

    open spec fn view(&self) -> SegmentRowView {
        SegmentRowView {
            source_run_id: self.source_run_id@,
            file_hash: self.file_hash@,
            page_no: self.page_no,
            segment_index: self.segment_index,
            annotation_id: crate::ocr_page::opt_string_view(self.annotation_id),
            category: self.category@,
            text: self.text@,
            token_estimate: self.token_estimate,
            text_start: self.text_start,
            text_end: self.text_end,
            source_kind: self.source_kind@,
        }
    }
}

pub open spec fn page_chunk_kind() -> Seq<char> {
    seq!['p', 'a', 'g', 'e', '_', 'c', 'h', 'u', 'n', 'k']
}

/// The first span of the page, with an annotation id, that overlaps `[start, end)`.
pub open spec fn annotation_span_index(spans: Seq<TextRegionSpanView>, page_no: u32, start: int, end: int, i: int) -> Option<int>
    decreases spans.len() - i,
{
    if i < 0 || i >= spans.len() {
        None
    } else if spans[i].annotation_id.len() > 0 && spans[i].page_no == page_no
        && spec_ranges_overlap(start, end, spans[i].start as int, spans[i].end as int) {
        Some(i)
    } else {
        annotation_span_index(spans, page_no, start, end, i + 1)
    }
}

/// The annotation id of a segment covering bytes `[start, end)` of the page.
pub open spec fn annotation_for(spans: Seq<TextRegionSpanView>, page_no: u32, start: int, end: int) -> Option<Seq<char>> {
    match annotation_span_index(spans, page_no, start, end, 0) {
        Some(i) => Some(spans[i].annotation_id),
        None => None,
    }
}

pub open spec fn sat_u32(n: nat) -> u32 {
    if n <= u32::MAX { n as u32 } else { u32::MAX }
}

/// The row for one piece of a page.
pub open spec fn piece_row(run: Seq<char>, file: Seq<char>, page_no: u32, t: Seq<char>,
    spans: Seq<TextRegionSpanView>, p: ChunkPiece, index: nat) -> SegmentRowView {
    let start = utf8_len(t.subrange(0, p.start));
    let end = utf8_len(t.subrange(0, p.end));
    SegmentRowView {
        source_run_id: run,
        file_hash: file,
        page_no: page_no,
        segment_index: sat_u32(index),
        annotation_id: annotation_for(spans, page_no, start as int, end as int),
        category: p.category,
        text: t.subrange(p.start, p.end),
        token_estimate: sat_u32(token_estimate(t.subrange(p.start, p.end))),
        text_start: start as u64,
        text_end: end as u64,
        source_kind: page_chunk_kind(),
    }
}

pub struct PageView {
    pub page_no: u32,
    pub text: Seq<char>,
    pub spans: Seq<TextRegionSpanView>,
}

impl View for PageTextRecord {
    type V = PageView;

    open spec fn view(&self) -> PageView {
        PageView { page_no: self.page_no, text: self.text@, spans: spans_view(self.spans@) }
    }
}

/// The rows of one page, numbered from `base`.
pub open spec fn page_rows(run: Seq<char>, file: Seq<char>, page: PageView, base: nat) -> Seq<SegmentRowView> {
    let ps = page_pieces(page.text);
    Seq::new(ps.len(), |i: int| piece_row(run, file, page.page_no, page.text, page.spans, ps[i], base + i as nat))
}

/// The rows of all `pages`, numbered from `base`.
pub open spec fn pages_rows(run: Seq<char>, file: Seq<char>, pages: Seq<PageView>, base: nat) -> Seq<SegmentRowView>
    decreases pages.len(),
{
    if pages.len() == 0 {
        seq![]
    } else {
        let prev = pages_rows(run, file, pages.drop_last(), base);
        prev + page_rows(run, file, pages.last(), base + prev.len())
    }
}

pub open spec fn pages_view(v: Seq<PageTextRecord>) -> Seq<PageView> {
    v.map_values(|p: PageTextRecord| p@)
}

/// `value` as a `u32`, or the largest `u32` when it does not fit.
pub fn usize_to_u32_saturating(value: usize) -> (r: u32)
    ensures
        r == sat_u32(value as nat),
{
    if value <= u32::MAX as usize {
        value as u32
    } else {
        u32::MAX
    }
}

/// Two half-open ranges `[left_start, left_end)` and `[right_start, right_end)` share a position.
pub open spec fn spec_ranges_overlap(left_start: int, left_end: int, right_start: int, right_end: int) -> bool {
    left_start < right_end && right_start < left_end
}

/// Returns whether two half-open byte ranges overlap.
pub fn ranges_overlap(left_start: u64, left_end: u64, right_start: u64, right_end: u64) -> (res: bool)
    ensures
        res == spec_ranges_overlap(left_start as int, left_end as int, right_start as int, right_end as int),
{
    left_start < right_end && right_start < left_end
}

/// The annotation id of the first region span of the page that has one and
/// overlaps the segment's byte range.
pub fn annotation_id_for_segment(page: &PageTextRecord, text_start: usize, text_end: usize) -> (r: Option<String>)
    ensures
        crate::ocr_page::opt_string_view(r) == annotation_for(page@.spans, page.page_no, text_start as int, text_end as int),
{
    let start = crate::ocr_page::usize_to_u64_saturating(text_start);
    let end = crate::ocr_page::usize_to_u64_saturating(text_end);
    let ghost sv = spans_view(page.spans@);
    let mut i: usize = 0;
    while i < page.spans.len()
        invariant
            i <= page.spans@.len(),
            sv == spans_view(page.spans@),
            start == text_start,
            end == text_end,
            annotation_span_index(sv, page.page_no, start as int, end as int, 0) == annotation_span_index(sv, page.page_no, start as int, end as int, i as int),
        decreases page.spans@.len() - i,
    {
        let sp = &page.spans[i];
        assert(sv[i as int] == sp@);
        if !sp.annotation_id.as_str().is_empty() && sp.page_no == page.page_no && ranges_overlap(start, end, sp.start, sp.end) {
            let r = copy_string(&sp.annotation_id);
            proof {
                assert(sv[i as int].annotation_id.len() > 0);
                assert(annotation_span_index(sv, page.page_no, start as int, end as int, i as int) == Some(i as int));
                assert(page@.spans == sv);
            }
            return Some(r);
        }
        i = i + 1;
    }
    None
}

fn copy_string(s: &String) -> (r: String)
    ensures
        r@ == s@,
{
    s.clone()
}

fn page_chunk_kind_exec() -> (s: String)
    ensures
        s@ == page_chunk_kind(),
{
    let v = vec!['p', 'a', 'g', 'e', '_', 'c', 'h', 'u', 'n', 'k'];
    assert(v@ =~= page_chunk_kind());
    crate::text::string_from_chars(&v)
}

/// Appends the rows of one page, numbered from the current row count.
fn append_one_page(source_run_id: &str, file_hash: &str, page: &PageTextRecord, segments: &mut Vec<RagTextSegmentRow>)
    requires
        utf8_len(page.text@) <= usize::MAX,
    ensures
        final(segments)@.len() == old(segments)@.len() + page_rows(source_run_id@, file_hash@, page@, old(segments)@.len()).len(),
        forall|k: int| 0 <= k < old(segments)@.len() ==> final(segments)@[k] == old(segments)@[k],
        forall|k: int| 0 <= k < page_rows(source_run_id@, file_hash@, page@, old(segments)@.len()).len() ==>
            (#[trigger] final(segments)@[old(segments)@.len() + k])@ == page_rows(source_run_id@, file_hash@, page@, old(segments)@.len())[k],
        forall|k: int| old(segments)@.len() <= k < final(segments)@.len() ==> is_v7_id_text((#[trigger] final(segments)@[k]).segment_id@),
{
    let ghost base = old(segments)@.len();
    let ghost rows = page_rows(source_run_id@, file_hash@, page@, base);
    let t = chars_of(page.text.as_str());
    let pieces = page_pieces_exec(&t);
    let ghost ps = page_pieces(t@);
    let mut j: usize = 0;
    while j < pieces.len()
        invariant
            j <= pieces@.len(),
            t@ == page.text@,
            utf8_len(t@) <= usize::MAX,
            pieces_view(pieces@) == ps,
            ps == page_pieces(page@.text),
            rows == page_rows(source_run_id@, file_hash@, page@, base),
            rows.len() == pieces@.len(),
            forall|k: int| 0 <= k < pieces@.len() ==> (#[trigger] pieces@[k]).start < pieces@[k].end <= t@.len(),
            segments@.len() == base + j,
            forall|k: int| 0 <= k < base ==> segments@[k] == old(segments)@[k],
            forall|k: int| 0 <= k < j ==> (#[trigger] segments@[base + k])@ == rows[k],
            forall|k: int| base <= k < segments@.len() ==> is_v7_id_text((#[trigger] segments@[k]).segment_id@),
        decreases pieces@.len() - j,
    {
        let piece = &pieces[j];
        assert(ps[j as int] == piece@);
        let text_start = utf8_len_range(&t, 0, piece.start);
        let text_end = utf8_len_range(&t, 0, piece.end);
        let segment_index = usize_to_u32_saturating(segments.len());
        let annotation_id = annotation_id_for_segment(page, text_start, text_end);
        let row = RagTextSegmentRow {
            segment_id: new_persistence_id(),
            source_run_id: source_run_id.to_owned(),
            file_hash: file_hash.to_owned(),
            page_no: page.page_no,
            segment_index,
            annotation_id,
            category: string_from_chars(&piece.category),
            text: string_from_range(&t, piece.start, piece.end),
            token_estimate: estimate_tokens_range(&t, piece.start, piece.end),
            text_start: crate::ocr_page::usize_to_u64_saturating(text_start),
            text_end: crate::ocr_page::usize_to_u64_saturating(text_end),
            source_kind: page_chunk_kind_exec(),
        };
        proof {
            assert(row@ == piece_row(source_run_id@, file_hash@, page.page_no, page.text@, page@.spans, ps[j as int], base + j as nat));
        }
        let ghost prev = segments@;
        segments.push(row);
        proof {
            assert forall|k: int| 0 <= k < j + 1 implies (#[trigger] segments@[base + k])@ == rows[k] by {
                if k < j {
                    assert(segments@[base + k] == prev[base + k]);
                }
            }
        }
        j = j + 1;
    }
}

/// A marker token starts at `i`.
pub open spec fn marker_token_at(t: Seq<char>, i: int) -> bool {
    occurs_at(t, i, ref_open()) || occurs_at(t, i, ref_close()) || occurs_at(t, i, det_open()) || occurs_at(t, i, det_close())
}

/// No marker token occurs in `t`.
pub open spec fn marker_free(t: Seq<char>) -> bool {
    forall|i: int| 0 <= i < t.len() ==> !#[trigger] marker_token_at(t, i)
}

/// `t` starts with a category word and a space.
pub open spec fn has_category_prefix(t: Seq<char>) -> bool {
    category_at(t, 0, t.len() as int, 0) is Some
}

/// Segment text that holds no marker token and no leading category word.
pub open spec fn segment_text_clean(t: Seq<char>) -> bool {
    marker_free(t) && !has_category_prefix(t)
}

/// A stored segment row that the current chunking would still produce in kind.
pub open spec fn row_is_current(r: SegmentRowView) -> bool {
    r.source_kind == page_chunk_kind() && r.token_estimate <= RAG_SEGMENT_TARGET_TOKENS && segment_text_clean(r.text)
}

/// Whether segment text is free of marker tokens and of a leading category word.
pub fn rag_segment_text_is_clean(text: &str) -> (b: bool)
    ensures
        b == segment_text_clean(text@),
{
    let t = chars_of(text);
    let toks = marker_tokens_exec();
    let mut i: usize = 0;
    while i < t.len()
        invariant
            i <= t@.len(),
            t@ == text@,
            toks@.len() == 4,
            toks@[0]@ == ref_open(),
            toks@[1]@ == ref_close(),
            toks@[2]@ == det_open(),
            toks@[3]@ == det_close(),
            forall|k: int| 0 <= k < i ==> !#[trigger] marker_token_at(t@, k),
        decreases t@.len() - i,
    {
        if occurs_at_exec(&t, i, &toks[0]) || occurs_at_exec(&t, i, &toks[1]) || occurs_at_exec(&t, i, &toks[2])
            || occurs_at_exec(&t, i, &toks[3]) {
            assert(marker_token_at(t@, i as int));
            return false;
        }
        i = i + 1;
    }
    let cats = categories_exec();
    let prefix = category_at_exec(&t, 0, t.len(), &cats);
    prefix.is_none()
}

/// Whether stored segments are non-empty and every row is current: of the
/// chunk kind, within the token target and with clean text.
pub fn rag_text_segments_are_current(segments: &[RagTextSegmentRow]) -> (b: bool)
    ensures
        b == (segments@.len() > 0 && forall|k: int| 0 <= k < segments@.len() ==> row_is_current((#[trigger] segments@[k])@)),
{
    if segments.len() == 0 {
        return false;
    }
    let kind = page_chunk_kind_exec();
    let mut i: usize = 0;
    while i < segments.len()
        invariant
            i <= segments@.len(),
            kind@ == page_chunk_kind(),
            forall|k: int| 0 <= k < i ==> row_is_current((#[trigger] segments@[k])@),
        decreases segments@.len() - i,
    {
        let row = &segments[i];
        if !(row.source_kind == kind && row.token_estimate <= RAG_SEGMENT_TARGET_TOKENS
            && rag_segment_text_is_clean(row.text.as_str())) {
            assert(!row_is_current(segments@[i as int]@));
            return false;
        }
        i = i + 1;
    }
    true
}

/// Cuts each page's text into retrieval segments and appends one row per
/// non-blank chunk to `segments`, numbering rows by their position there.
pub fn append_page_segments(source_run_id: &str, file_hash: &str, pages: Vec<PageTextRecord>, segments: &mut Vec<RagTextSegmentRow>)
    requires
        forall|i: int| 0 <= i < pages@.len() ==> utf8_len((#[trigger] pages@[i]).text@) <= usize::MAX,
    ensures
        final(segments)@.len() == old(segments)@.len() + pages_rows(source_run_id@, file_hash@, pages_view(pages@), old(segments)@.len()).len(),
        forall|k: int| 0 <= k < old(segments)@.len() ==> final(segments)@[k] == old(segments)@[k],
        forall|k: int| 0 <= k < pages_rows(source_run_id@, file_hash@, pages_view(pages@), old(segments)@.len()).len() ==>
            (#[trigger] final(segments)@[old(segments)@.len() + k])@ == pages_rows(source_run_id@, file_hash@, pages_view(pages@), old(segments)@.len())[k],
        forall|k: int| old(segments)@.len() <= k < final(segments)@.len() ==> is_v7_id_text((#[trigger] final(segments)@[k]).segment_id@),
{
    let ghost base = old(segments)@.len();
    let ghost pv = pages_view(pages@);
    let mut i: usize = 0;
    while i < pages.len()
        invariant
            i <= pages@.len(),
            pv == pages_view(pages@),
            forall|m: int| 0 <= m < pages@.len() ==> utf8_len((#[trigger] pages@[m]).text@) <= usize::MAX,
            segments@.len() == base + pages_rows(source_run_id@, file_hash@, pv.take(i as int), base).len(),
            forall|k: int| 0 <= k < base ==> segments@[k] == old(segments)@[k],
            forall|k: int| 0 <= k < pages_rows(source_run_id@, file_hash@, pv.take(i as int), base).len() ==>
                (#[trigger] segments@[base + k])@ == pages_rows(source_run_id@, file_hash@, pv.take(i as int), base)[k],
            forall|k: int| base <= k < segments@.len() ==> is_v7_id_text((#[trigger] segments@[k]).segment_id@),
        decreases pages@.len() - i,
    {
        let ghost before = segments@;
        let ghost prev_rows = pages_rows(source_run_id@, file_hash@, pv.take(i as int), base);
        let page = &pages[i];
        append_one_page(source_run_id, file_hash, page, segments);
        proof {
            let nt = pv.take(i + 1);
            assert(nt.drop_last() =~= pv.take(i as int));
            assert(nt.last() == page@);
            let pr = page_rows(source_run_id@, file_hash@, page@, base + prev_rows.len());
            assert(pages_rows(source_run_id@, file_hash@, nt, base) == prev_rows + pr);
            assert forall|k: int| 0 <= k < prev_rows.len() + pr.len() implies
                (#[trigger] segments@[base + k])@ == (prev_rows + pr)[k] by {
                if k < prev_rows.len() {
                    assert(segments@[base + k] == before[base + k]);
                } else {
                    assert(segments@[before.len() + (k - prev_rows.len())]@ == pr[k - prev_rows.len()]);
                }
            }
            assert forall|k: int| base <= k < segments@.len() implies is_v7_id_text((#[trigger] segments@[k]).segment_id@) by {
                if k < before.len() {
                    assert(segments@[k] == before[k]);
                }
            }
        }
        i = i + 1;
    }
    proof {
        assert(pv.take(i as int) =~= pv);
    }
}

/// The rows of one page of one file, by their positions in the row list.
pub struct PageSegmentGroup {
    pub file_hash: String,
    pub page_no: u32,
    pub members: Vec<usize>,
}

/// The page a row belongs to.
pub open spec fn page_key(r: RagTextSegmentRow) -> (Seq<char>, u32) {
    (r.file_hash@, r.page_no)
}

/// Pages in the order of a map keyed by `(file hash, page number)`.
pub open spec fn page_key_lt(a: (Seq<char>, u32), b: (Seq<char>, u32)) -> bool {
    (crate::order::lex_le(a.0, b.0) && a.0 != b.0) || (a.0 == b.0 && a.1 < b.1)
}

proof fn lemma_page_key_trans(a: (Seq<char>, u32), b: (Seq<char>, u32), c: (Seq<char>, u32))
    requires
        page_key_lt(a, b),
        page_key_lt(b, c),
    ensures
        page_key_lt(a, c),
{
    if a.0 != b.0 && b.0 != c.0 {
        crate::order::lemma_lex_trans(a.0, b.0, c.0);
        if a.0 == c.0 {
            crate::order::lemma_lex_antisym(a.0, b.0);
        }
    }
}

proof fn lemma_page_key_total(a: (Seq<char>, u32), b: (Seq<char>, u32))
    ensures
        page_key_lt(a, b) || page_key_lt(b, a) || a == b,
{
    crate::order::lemma_lex_total(a.0, b.0);
}

pub open spec fn group_key(g: PageSegmentGroup) -> (Seq<char>, u32) {
    (g.file_hash@, g.page_no)
}

/// Rows grouped by page: one group per page that has rows, in page order,
/// each listing the positions of exactly its rows, in order.
pub open spec fn groups_ok(rows: Seq<RagTextSegmentRow>, groups: Seq<PageSegmentGroup>) -> bool {
    &&& forall|g: int, h: int| 0 <= g < h < groups.len() ==> page_key_lt(group_key(#[trigger] groups[g]), group_key(#[trigger] groups[h]))
    &&& forall|g: int| 0 <= g < groups.len() ==> {
        let m = (#[trigger] groups[g]).members@;
        &&& m.len() > 0
        &&& forall|x: int, y: int| 0 <= x < y < m.len() ==> #[trigger] m[x] < #[trigger] m[y]
        &&& forall|x: int| 0 <= x < m.len() ==> #[trigger] m[x] < rows.len() && page_key(rows[m[x] as int]) == group_key(groups[g])
        &&& forall|i: int| 0 <= i < rows.len() && page_key(#[trigger] rows[i]) == group_key(groups[g]) ==> m.contains(i as usize)
    }
    &&& forall|i: int| 0 <= i < rows.len() ==> page_has_group(groups, page_key(#[trigger] rows[i]))
}

/// Some group is that of page `k`.
pub open spec fn page_has_group(groups: Seq<PageSegmentGroup>, k: (Seq<char>, u32)) -> bool {
    exists|g: int| 0 <= g < groups.len() && group_key(#[trigger] groups[g]) == k
}

fn page_key_lt_exec(a_hash: &str, a_page: u32, b_hash: &str, b_page: u32) -> (r: bool)
    ensures
        r == page_key_lt((a_hash@, a_page), (b_hash@, b_page)),
{
    if str_eq(a_hash, b_hash) {
        a_page < b_page
    } else {
        crate::order::lex_le_exec(a_hash, b_hash)
    }
}

pub open spec fn pair_view(v: Seq<(String, u32)>) -> Seq<(Seq<char>, u32)> {
    v.map_values(|k: (String, u32)| (k.0@, k.1))
}

pub open spec fn sorted_pages(kv: Seq<(Seq<char>, u32)>) -> bool {
    forall|x: int, y: int| 0 <= x < y < kv.len() ==> page_key_lt(#[trigger] kv[x], #[trigger] kv[y])
}

pub open spec fn key_in(kv: Seq<(Seq<char>, u32)>, k: (Seq<char>, u32)) -> bool {
    exists|x: int| 0 <= x < kv.len() && #[trigger] kv[x] == k
}

pub open spec fn row_with_key(rows: Seq<RagTextSegmentRow>, k: (Seq<char>, u32)) -> bool {
    exists|j: int| 0 <= j < rows.len() && page_key(#[trigger] rows[j]) == k
}

/// The positions of the rows of page `k`, in order.
fn rows_of_page(segments: &[RagTextSegmentRow], hash: &str, page: u32) -> (m: Vec<usize>)
    ensures
        forall|x: int, y: int| 0 <= x < y < m@.len() ==> #[trigger] m@[x] < #[trigger] m@[y],
        forall|x: int| 0 <= x < m@.len() ==> #[trigger] m@[x] < segments@.len() && page_key(segments@[m@[x] as int]) == (hash@, page),
        forall|t: int| 0 <= t < segments@.len() && page_key(#[trigger] segments@[t]) == (hash@, page) ==> m@.contains(t as usize),
{
    let mut members: Vec<usize> = Vec::new();
    let mut j: usize = 0;
    while j < segments.len()
        invariant
            j <= segments@.len(),
            forall|x: int, y: int| 0 <= x < y < members@.len() ==> #[trigger] members@[x] < #[trigger] members@[y],
            forall|x: int| 0 <= x < members@.len() ==> #[trigger] members@[x] < j && page_key(segments@[members@[x] as int]) == (hash@, page),
            forall|t: int| 0 <= t < j && page_key(#[trigger] segments@[t]) == (hash@, page) ==> members@.contains(t as usize),
        decreases segments@.len() - j,
    {
        if segments[j].page_no == page && str_eq(segments[j].file_hash.as_str(), hash) {
            let ghost before = members@;
            members.push(j);
            proof {
                assert forall|t: int| 0 <= t < j + 1 && page_key(#[trigger] segments@[t]) == (hash@, page) implies members@.contains(t as usize) by {
                    if t < j {
                        let w = choose|w: int| 0 <= w < before.len() && before[w] == t as usize;
                        assert(members@[w] == t as usize);
                    } else {
                        assert(members@[before.len() as int] == j);
                    }
                }
            }
        }
        j = j + 1;
    }
    members
}

/// The distinct pages of the rows, sorted.
fn distinct_pages(segments: &[RagTextSegmentRow]) -> (keys: Vec<(String, u32)>)
    ensures
        sorted_pages(pair_view(keys@)),
        forall|j: int| 0 <= j < segments@.len() ==> key_in(pair_view(keys@), page_key(#[trigger] segments@[j])),
        forall|x: int| 0 <= x < keys@.len() ==> row_with_key(segments@, #[trigger] pair_view(keys@)[x]),
{
    let mut keys: Vec<(String, u32)> = Vec::new();
    let mut i: usize = 0;
    while i < segments.len()
        invariant
            i <= segments@.len(),
            sorted_pages(pair_view(keys@)),
            forall|j: int| 0 <= j < i ==> key_in(pair_view(keys@), page_key(#[trigger] segments@[j])),
            forall|x: int| 0 <= x < keys@.len() ==> row_with_key(segments@, #[trigger] pair_view(keys@)[x]),
        decreases segments@.len() - i,
    {
        let hash = segments[i].file_hash.as_str();
        let page = segments[i].page_no;
        let ghost k = page_key(segments@[i as int]);
        let ghost before = pair_view(keys@);
        let mut p: usize = 0;
        while p < keys.len() && page_key_lt_exec(keys[p].0.as_str(), keys[p].1, hash, page)
            invariant
                p <= keys@.len(),
                k == (hash@, page),
                before == pair_view(keys@),
                forall|x: int| 0 <= x < p ==> page_key_lt(#[trigger] before[x], k),
            decreases keys@.len() - p,
        {
            p = p + 1;
        }
        let present = p < keys.len() && str_eq(keys[p].0.as_str(), hash) && keys[p].1 == page;
        if !present {
            proof {
                if p < before.len() {
                    lemma_page_key_total(before[p as int], k);
                    assert forall|y: int| p <= y < before.len() implies page_key_lt(k, #[trigger] before[y]) by {
                        if y > p {
                            lemma_page_key_trans(k, before[p as int], before[y]);
                        }
                    }
                }
            }
            keys.insert(p, (segments[i].file_hash.clone(), page));
            proof {
                let after = pair_view(keys@);
                assert(after =~= before.insert(p as int, k));
                assert forall|x: int, y: int| 0 <= x < y < after.len() implies page_key_lt(#[trigger] after[x], #[trigger] after[y]) by {
                    if y < p {
                    } else if y == p {
                    } else if x < p {
                        lemma_page_key_trans(before[x], k, before[y - 1]);
                    } else if x == p {
                    } else {
                    }
                }
                assert forall|j: int| 0 <= j < i + 1 implies key_in(after, page_key(#[trigger] segments@[j])) by {
                    if j == i {
                        assert(after[p as int] == k);
                    } else {
                        let x0 = choose|x: int| 0 <= x < before.len() && #[trigger] before[x] == page_key(segments@[j]);
                        if x0 < p {
                            assert(after[x0] == before[x0]);
                        } else {
                            assert(after[x0 + 1] == before[x0]);
                        }
                    }
                }
                assert forall|x: int| 0 <= x < after.len() implies row_with_key(segments@, #[trigger] after[x]) by {
                    if x == p {
                        assert(page_key(segments@[i as int]) == after[x]);
                    } else if x < p {
                        assert(after[x] == before[x]);
                    } else {
                        assert(after[x] == before[x - 1]);
                    }
                }
            }
        } else {
            proof {
                assert(before[p as int] == k);
            }
        }
        i = i + 1;
    }
    keys
}

/// Groups rows by page, pages in order of file hash and then page number.
pub fn page_segment_groups(segments: &[RagTextSegmentRow]) -> (r: Vec<PageSegmentGroup>)
    ensures
        groups_ok(segments@, r@),
{
    let keys = distinct_pages(segments);
    let ghost kv = pair_view(keys@);
    let mut groups: Vec<PageSegmentGroup> = Vec::new();
    let mut g: usize = 0;
    while g < keys.len()
        invariant
            g <= keys@.len(),
            kv == pair_view(keys@),
            sorted_pages(kv),
            groups@.len() == g,
            forall|x: int| 0 <= x < keys@.len() ==> row_with_key(segments@, #[trigger] kv[x]),
            forall|h: int| 0 <= h < g ==> group_key(#[trigger] groups@[h]) == kv[h],
            forall|h: int| 0 <= h < g ==> {
                let m = (#[trigger] groups@[h]).members@;
                &&& m.len() > 0
                &&& forall|x: int, y: int| 0 <= x < y < m.len() ==> #[trigger] m[x] < #[trigger] m[y]
                &&& forall|x: int| 0 <= x < m.len() ==> #[trigger] m[x] < segments@.len() && page_key(segments@[m[x] as int]) == group_key(groups@[h])
                &&& forall|j: int| 0 <= j < segments@.len() && page_key(#[trigger] segments@[j]) == group_key(groups@[h]) ==> m.contains(j as usize)
            },
        decreases keys@.len() - g,
    {
        let members = rows_of_page(segments, keys[g].0.as_str(), keys[g].1);
        proof {
            assert(kv[g as int] == (keys@[g as int].0@, keys@[g as int].1));
            assert(row_with_key(segments@, kv[g as int]));
            let j0 = choose|j0: int| 0 <= j0 < segments@.len() && page_key(#[trigger] segments@[j0]) == kv[g as int];
            assert(members@.contains(j0 as usize));
        }
        let group = PageSegmentGroup { file_hash: keys[g].0.clone(), page_no: keys[g].1, members };
        let ghost before = groups@;
        groups.push(group);
        proof {
            assert forall|h: int| 0 <= h < g + 1 implies group_key(#[trigger] groups@[h]) == kv[h] by {
                if h < g {
                    assert(groups@[h] == before[h]);
                }
            }
        }
        g = g + 1;
    }
    proof {
        assert forall|i: int| 0 <= i < segments@.len() implies page_has_group(groups@, page_key(#[trigger] segments@[i])) by {
            assert(key_in(kv, page_key(segments@[i])));
            let x = choose|x: int| 0 <= x < kv.len() && #[trigger] kv[x] == page_key(segments@[i]);
            assert(group_key(groups@[x]) == page_key(segments@[i]));
        }
        assert forall|a: int, b: int| 0 <= a < b < groups@.len() implies page_key_lt(group_key(#[trigger] groups@[a]), group_key(#[trigger] groups@[b])) by {
            assert(group_key(groups@[a]) == kv[a]);
            assert(group_key(groups@[b]) == kv[b]);
        }
        assert(forall|h: int| 0 <= h < groups@.len() ==> {
                let m = (#[trigger] groups@[h]).members@;
                &&& m.len() > 0
                &&& forall|x: int, y: int| 0 <= x < y < m.len() ==> #[trigger] m[x] < #[trigger] m[y]
                &&& forall|x: int| 0 <= x < m.len() ==> #[trigger] m[x] < segments@.len() && page_key(segments@[m[x] as int]) == group_key(groups@[h])
                &&& forall|j: int| 0 <= j < segments@.len() && page_key(#[trigger] segments@[j]) == group_key(groups@[h]) ==> m.contains(j as usize)
            });
        assert(forall|g: int, h: int| 0 <= g < h < groups@.len() ==> page_key_lt(group_key(#[trigger] groups@[g]), group_key(#[trigger] groups@[h])));
    }
    groups
}

} // verus!
