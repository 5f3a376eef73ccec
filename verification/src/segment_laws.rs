//! What every segment row built from a page satisfies.

use vstd::prelude::*;
use crate::markers::{det_close, det_open, ref_close, ref_open};
use crate::ocr_page::{char_index_at, is_byte_boundary, lemma_char_index_unique};
use crate::segments::{
    ascii_count, categories, category_at, chunk_end, chunks_from, classify, is_break, lemma_category_at,
    lemma_chunk_progress, lemma_piece_end, lemma_token_estimate_sub, marker_free, marker_token_at,
    page_chunk_kind, page_pieces, page_rows, piece_end, pieces_of_chunks, pieces_of_sources, row_is_current,
    sat_u32, segment_text_clean, sources_from, token_estimate, ChunkPiece, PageView, SegmentRowView, Source,
    RAG_SEGMENT_TARGET_TOKENS, has_category_prefix,
};
use crate::text::{first_kept, is_ws, last_kept_end, lemma_first_kept_bounds, lemma_last_kept_end_bounds, occurs_at, utf8_len};

verus! {

/// No line break or marker token starts in `t[a..b]`.
pub open spec fn break_free(t: Seq<char>, a: int, b: int) -> bool {
    forall|j: int| a <= j < b ==> !#[trigger] is_break(t, j)
}

proof fn lemma_piece_break_free(t: Seq<char>, i: int)
    requires
        0 <= i <= t.len(),
    ensures
        break_free(t, i, piece_end(t, i)),
    decreases t.len() - i,
{
    if i < t.len() && !is_break(t, i) {
        lemma_piece_break_free(t, i + 1);
    }
}

proof fn lemma_sources_props(t: Seq<char>, i: int)
    requires
        0 <= i,
    ensures
        forall|k: int| 0 <= k < sources_from(t, i).len() ==> {
            let s = #[trigger] sources_from(t, i)[k];
            &&& i <= s.start <= s.end <= t.len()
            &&& break_free(t, s.start, s.end)
        },
    decreases t.len() - i,
{
    if i < 0 || i >= t.len() {
    } else if t[i] == '\n' {
        lemma_sources_props(t, i + 1);
        assert(sources_from(t, i) == sources_from(t, i + 1));
    } else if is_break(t, i) {
        let e = crate::segments::block_end(t, i);
        if i < e <= t.len() {
            lemma_sources_props(t, e);
            assert(sources_from(t, i) == sources_from(t, e));
        } else {
            assert(sources_from(t, i).len() == 0);
        }
    } else {
        let p = piece_end(t, i);
        lemma_piece_end(t, i);
        if i < p <= t.len() {
            lemma_sources_props(t, p);
            lemma_piece_break_free(t, i);
            lemma_category_at(t, i, p, 0);
            let c = classify(t, i, p);
            match category_at(t, i, p, 0) {
                Some(ci) => {
                    assert(crate::segments::category_word_at(t, i, p, categories()[ci]));
                    assert(c.start == i + categories()[ci].len() + 1);
                },
                None => {},
            }
            assert(i <= c.start <= c.end && c.end == p);
            assert(break_free(t, c.start, c.end));
            let rest = sources_from(t, p);
            assert(sources_from(t, i) == seq![c] + rest);
            assert forall|k: int| 0 <= k < sources_from(t, i).len() implies {
                let s = #[trigger] sources_from(t, i)[k];
                &&& i <= s.start <= s.end <= t.len()
                &&& break_free(t, s.start, s.end)
            } by {
                if k > 0 {
                    assert(sources_from(t, i)[k] == rest[k - 1]);
                } else {
                    assert(sources_from(t, i)[k] == c);
                }
            }
        }
    }
}

proof fn lemma_chunks_props(t: Seq<char>, a: int, e: int)
    requires
        0 <= a,
        e <= t.len(),
    ensures
        forall|k: int| 0 <= k < chunks_from(t, a, e).len() ==> {
            let c = #[trigger] chunks_from(t, a, e)[k];
            &&& a <= c.0 < c.1 <= e
            &&& token_estimate(t.subrange(c.0, c.1)) <= RAG_SEGMENT_TARGET_TOKENS
        },
    decreases e - a,
{
    if a < e {
        lemma_chunk_progress(t, a, e);
        let b = chunk_end(t, a, a, e);
        lemma_chunks_props(t, b, e);
        let rest = chunks_from(t, b, e);
        assert(chunks_from(t, a, e) == seq![(a, b)] + rest);
        assert forall|k: int| 0 <= k < chunks_from(t, a, e).len() implies {
            let c = #[trigger] chunks_from(t, a, e)[k];
            &&& a <= c.0 < c.1 <= e
            &&& token_estimate(t.subrange(c.0, c.1)) <= RAG_SEGMENT_TARGET_TOKENS
        } by {
            if k > 0 {
                assert(chunks_from(t, a, e)[k] == rest[k - 1]);
            }
        }
    }
}

/// A piece within `[lo, hi)` of `t`, within the token target and with no
/// whitespace at either end.
pub open spec fn piece_ok(t: Seq<char>, p: ChunkPiece, lo: int, hi: int) -> bool {
    &&& lo <= p.start < p.end <= hi
    &&& token_estimate(t.subrange(p.start, p.end)) <= RAG_SEGMENT_TARGET_TOKENS
    &&& !is_ws(t[p.start])
    &&& !is_ws(t[p.end - 1])
}

proof fn lemma_pieces_of_chunks_props(t: Seq<char>, chunks: Seq<(int, int)>, cat: Seq<char>, lo: int, hi: int)
    requires
        0 <= lo,
        hi <= t.len(),
        forall|k: int| 0 <= k < chunks.len() ==> {
            let c = #[trigger] chunks[k];
            &&& lo <= c.0 < c.1 <= hi
            &&& token_estimate(t.subrange(c.0, c.1)) <= RAG_SEGMENT_TARGET_TOKENS
        },
    ensures
        forall|k: int| 0 <= k < pieces_of_chunks(t, chunks, cat).len() ==> {
            let p = #[trigger] pieces_of_chunks(t, chunks, cat)[k];
            &&& piece_ok(t, p, lo, hi)
            &&& p.category == cat
        },
    decreases chunks.len(),
{
    if chunks.len() > 0 {
        let prev = pieces_of_chunks(t, chunks.drop_last(), cat);
        assert forall|k: int| 0 <= k < chunks.drop_last().len() implies {
            let c = #[trigger] chunks.drop_last()[k];
            &&& lo <= c.0 < c.1 <= hi
            &&& token_estimate(t.subrange(c.0, c.1)) <= RAG_SEGMENT_TARGET_TOKENS
        } by {
            assert(chunks.drop_last()[k] == chunks[k]);
        }
        lemma_pieces_of_chunks_props(t, chunks.drop_last(), cat, lo, hi);
        let (a, b) = chunks.last();
        assert(chunks.last() == chunks[chunks.len() - 1]);
        let sub = t.subrange(a, b);
        let fa = first_kept(sub, 0, false);
        lemma_first_kept_bounds(sub, 0, false);
        let lb = last_kept_end(sub, b - a, fa, false);
        lemma_last_kept_end_bounds(sub, b - a, fa, false);
        if fa < lb {
            let p = ChunkPiece { start: a + fa, end: a + lb, category: cat };
            assert(pieces_of_chunks(t, chunks, cat) == prev.push(p));
            assert(sub[fa] == t[a + fa]);
            assert(sub[lb - 1] == t[a + lb - 1]);
            lemma_token_estimate_sub(t, a, b, a + fa, a + lb);
            assert(piece_ok(t, p, lo, hi));
            assert forall|k: int| 0 <= k < pieces_of_chunks(t, chunks, cat).len() implies {
                let q = #[trigger] pieces_of_chunks(t, chunks, cat)[k];
                &&& piece_ok(t, q, lo, hi)
                &&& q.category == cat
            } by {
                if k < prev.len() {
                    assert(pieces_of_chunks(t, chunks, cat)[k] == prev[k]);
                }
            }
        }
    }
}

proof fn lemma_pieces_of_sources_props(t: Seq<char>, srcs: Seq<Source>)
    requires
        forall|k: int| 0 <= k < srcs.len() ==> {
            let s = #[trigger] srcs[k];
            &&& 0 <= s.start <= s.end <= t.len()
            &&& break_free(t, s.start, s.end)
        },
    ensures
        forall|k: int| 0 <= k < pieces_of_sources(t, srcs).len() ==> {
            let p = #[trigger] pieces_of_sources(t, srcs)[k];
            &&& piece_ok(t, p, 0, t.len() as int)
            &&& break_free(t, p.start, p.end)
        },
    decreases srcs.len(),
{
    if srcs.len() > 0 {
        let init = srcs.drop_last();
        assert forall|k: int| 0 <= k < init.len() implies {
            let s = #[trigger] init[k];
            &&& 0 <= s.start <= s.end <= t.len()
            &&& break_free(t, s.start, s.end)
        } by {
            assert(init[k] == srcs[k]);
        }
        lemma_pieces_of_sources_props(t, init);
        let src = srcs.last();
        assert(srcs.last() == srcs[srcs.len() - 1]);
        let prev = pieces_of_sources(t, init);
        let cs = chunks_from(t, src.start, src.end);
        lemma_chunks_props(t, src.start, src.end);
        lemma_pieces_of_chunks_props(t, cs, src.category, src.start, src.end);
        let mine = pieces_of_chunks(t, cs, src.category);
        assert(pieces_of_sources(t, srcs) == prev + mine);
        assert forall|k: int| 0 <= k < pieces_of_sources(t, srcs).len() implies {
            let p = #[trigger] pieces_of_sources(t, srcs)[k];
            &&& piece_ok(t, p, 0, t.len() as int)
            &&& break_free(t, p.start, p.end)
        } by {
            if k < prev.len() {
                assert(pieces_of_sources(t, srcs)[k] == prev[k]);
            } else {
                let q = mine[k - prev.len()];
                assert(pieces_of_sources(t, srcs)[k] == q);
                assert(piece_ok(t, q, src.start, src.end));
            }
        }
    }
}

proof fn lemma_break_free_marker_free(t: Seq<char>, a: int, b: int)
    requires
        0 <= a <= b <= t.len(),
        break_free(t, a, b),
    ensures
        marker_free(t.subrange(a, b)),
{
    let sub = t.subrange(a, b);
    assert forall|i: int| 0 <= i < sub.len() implies !#[trigger] marker_token_at(sub, i) by {
        if marker_token_at(sub, i) {
            assert forall|pat: Seq<char>| occurs_at(sub, i, pat) implies occurs_at(t, a + i, pat) by {
                assert(t.subrange(a + i, a + i + pat.len()) =~= sub.subrange(i, i + pat.len()));
            }
            assert(occurs_at(sub, i, ref_open()) ==> occurs_at(t, a + i, ref_open()));
            assert(occurs_at(sub, i, ref_close()) ==> occurs_at(t, a + i, ref_close()));
            assert(occurs_at(sub, i, det_open()) ==> occurs_at(t, a + i, det_open()));
            assert(occurs_at(sub, i, det_close()) ==> occurs_at(t, a + i, det_close()));
            assert(is_break(t, a + i));
        }
    }
}

/// Every piece of a page text lies within the text, within the token target,
/// with no whitespace at its ends and no marker token inside.
pub proof fn lemma_page_pieces_props(t: Seq<char>)
    ensures
        forall|k: int| 0 <= k < page_pieces(t).len() ==> {
            let p = #[trigger] page_pieces(t)[k];
            &&& piece_ok(t, p, 0, t.len() as int)
            &&& marker_free(t.subrange(p.start, p.end))
        },
{
    lemma_sources_props(t, 0);
    lemma_pieces_of_sources_props(t, sources_from(t, 0));
    assert forall|k: int| 0 <= k < page_pieces(t).len() implies {
        let p = #[trigger] page_pieces(t)[k];
        &&& piece_ok(t, p, 0, t.len() as int)
        &&& marker_free(t.subrange(p.start, p.end))
    } by {
        let p = page_pieces(t)[k];
        lemma_break_free_marker_free(t, p.start, p.end);
    }
}

/// What a segment row of a page holds, by the page alone.
pub open spec fn row_of_page(r: SegmentRowView, page: PageView, index: nat) -> bool {
    &&& r.page_no == page.page_no
    &&& r.segment_index == sat_u32(index)
    &&& r.source_kind == page_chunk_kind()
    &&& r.text.len() > 0
    &&& !is_ws(r.text[0])
    &&& !is_ws(r.text.last())
    &&& marker_free(r.text)
    &&& r.token_estimate == token_estimate(r.text)
    &&& r.token_estimate <= RAG_SEGMENT_TARGET_TOKENS
    &&& r.text_start < r.text_end
    &&& is_byte_boundary(page.text, r.text_start as int)
    &&& is_byte_boundary(page.text, r.text_end as int)
    &&& r.text == page.text.subrange(char_index_at(page.text, r.text_start as int), char_index_at(page.text, r.text_end as int))
}

/// Each row cut from a page is a non-blank chunk of that page's text within
/// the token target, holds no marker token, and its byte offsets locate its
/// text in the page text exactly; rows are numbered in order from `base`.
/// A row so built is current exactly when its text does not start with a
/// category word.
pub proof fn law_page_rows_locate_their_text(run: Seq<char>, file: Seq<char>, page: PageView, base: nat)
    requires
        utf8_len(page.text) <= usize::MAX,
    ensures
        forall|k: int| 0 <= k < page_rows(run, file, page, base).len() ==> {
            let r = #[trigger] page_rows(run, file, page, base)[k];
            &&& row_of_page(r, page, base + k as nat)
            &&& (row_is_current(r) <==> !has_category_prefix(r.text))
        },
{
    assert forall|k: int| 0 <= k < page_rows(run, file, page, base).len() implies {
        let r = #[trigger] page_rows(run, file, page, base)[k];
        &&& row_of_page(r, page, base + k as nat)
        &&& (row_is_current(r) <==> !has_category_prefix(r.text))
    } by {
        lemma_page_row(run, file, page, base, k);
    }
}

proof fn lemma_page_row(run: Seq<char>, file: Seq<char>, page: PageView, base: nat, k: int)
    requires
        utf8_len(page.text) <= usize::MAX,
        0 <= k < page_rows(run, file, page, base).len(),
    ensures
        row_of_page(page_rows(run, file, page, base)[k], page, base + k as nat),
        row_is_current(page_rows(run, file, page, base)[k]) <==> !has_category_prefix(page_rows(run, file, page, base)[k].text),
{
    let t = page.text;
    let ps = page_pieces(t);
    lemma_page_pieces_props(t);
    let p = ps[k];
    let r = page_rows(run, file, page, base)[k];
    assert(r == crate::segments::piece_row(run, file, page.page_no, t, page.spans, p, base + k as nat));
    assert(piece_ok(t, p, 0, t.len() as int));
    assert(marker_free(t.subrange(p.start, p.end)));
    crate::text::lemma_utf8_len_prefix_mono(t, p.start, p.end);
    crate::text::lemma_utf8_len_prefix_mono(t, p.end, t.len() as int);
    crate::ocr_page::lemma_utf8_prefix_strict(t, p.start, p.end);
    assert(t.subrange(0, t.len() as int) =~= t);
    let s = utf8_len(t.subrange(0, p.start));
    let e = utf8_len(t.subrange(0, p.end));
    assert(r.text_start == s);
    assert(r.text_end == e);
    assert(is_byte_boundary(t, s as int));
    assert(is_byte_boundary(t, e as int));
    lemma_char_index_unique(t, p.start);
    lemma_char_index_unique(t, p.end);
    assert(r.text =~= t.subrange(p.start, p.end));
    assert(r.text[0] == t[p.start]);
    assert(r.text.last() == t[p.end - 1]);
}

/// Chunking a run of text loses nothing and repeats nothing: the chunks are
/// consecutive, the first starts where the run starts and the last ends
/// where it ends, and each is within the token target.
pub proof fn law_chunks_partition_the_run(t: Seq<char>, a: int, e: int)
    requires
        0 <= a < e <= t.len(),
    ensures
        chunks_from(t, a, e).len() > 0,
        chunks_from(t, a, e)[0].0 == a,
        chunks_from(t, a, e).last().1 == e,
        forall|k: int| 0 <= k < chunks_from(t, a, e).len() - 1 ==> (#[trigger] chunks_from(t, a, e)[k]).1 == chunks_from(t, a, e)[k + 1].0,
        forall|k: int| 0 <= k < chunks_from(t, a, e).len() ==> token_estimate(t.subrange(
            (#[trigger] chunks_from(t, a, e)[k]).0,
            chunks_from(t, a, e)[k].1,
        )) <= RAG_SEGMENT_TARGET_TOKENS,
    decreases e - a,
{
    lemma_chunks_props(t, a, e);
    lemma_chunk_progress(t, a, e);
    let b = chunk_end(t, a, a, e);
    let rest = chunks_from(t, b, e);
    let cs = chunks_from(t, a, e);
    assert(cs == seq![(a, b)] + rest);
    if b < e {
        law_chunks_partition_the_run(t, b, e);
        assert(cs.last() == rest.last());
        assert forall|k: int| 0 <= k < cs.len() - 1 implies (#[trigger] cs[k]).1 == cs[k + 1].0 by {
            if k == 0 {
                assert(cs[1] == rest[0]);
            } else {
                assert(cs[k] == rest[k - 1]);
                assert(cs[k + 1] == rest[k]);
            }
        }
    } else {
        assert(rest.len() == 0);
        assert(cs =~= seq![(a, b)]);
    }
}

} // verus!
