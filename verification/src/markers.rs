//! The OCR marker grammar.
//!
//! Model output interleaves text with grounding markers:
//! `<|ref|>LABEL<|/ref|> <|det|>[[x1,y1,x2,y2], ...]<|/det|>` and standalone
//! `<|det|>LABEL [x1,y1,x2,y2]<|/det|>`. A marker may be followed at once by a
//! geometry sidecar `<|geom|>{...}<|/geom|>`, which belongs to the marker and
//! whose raw text it keeps. Box coordinates are on a 0..=999
//! grid; they are kept here in thousandths ("milli-units"), clamped to
//! `0..=999_000`, with `x1 <= x2` and `y1 <= y2`.

use vstd::prelude::*;
use crate::text::{
    copy_range, first_kept, index_of_from, index_of_from_exec, is_ws_exec, lemma_first_kept_bounds,
    lemma_index_of_from, occurs_at, occurs_at_exec, trim, trim_by, trim_range,
};

verus! {

// ---------------------------------------------------------------------------
// Marker tokens

pub open spec fn ref_open() -> Seq<char> {
    seq!['<', '|', 'r', 'e', 'f', '|', '>']
}

pub open spec fn ref_close() -> Seq<char> {
    seq!['<', '|', '/', 'r', 'e', 'f', '|', '>']
}

pub open spec fn det_open() -> Seq<char> {
    seq!['<', '|', 'd', 'e', 't', '|', '>']
}

pub open spec fn det_close() -> Seq<char> {
    seq!['<', '|', '/', 'd', 'e', 't', '|', '>']
}

pub open spec fn geom_open() -> Seq<char> {
    seq!['<', '|', 'g', 'e', 'o', 'm', '|', '>']
}

pub open spec fn geom_close() -> Seq<char> {
    seq!['<', '|', '/', 'g', 'e', 'o', 'm', '|', '>']
}

/// The characters of the token that opens a geometry sidecar.
pub fn geom_open_exec() -> (v: Vec<char>)
    ensures
        v@ == geom_open(),
{
    let v = vec!['<', '|', 'g', 'e', 'o', 'm', '|', '>'];
    assert(v@ =~= geom_open());
    v
}

/// The characters of the token that closes a geometry sidecar.
pub fn geom_close_exec() -> (v: Vec<char>)
    ensures
        v@ == geom_close(),
{
    let v = vec!['<', '|', '/', 'g', 'e', 'o', 'm', '|', '>'];
    assert(v@ =~= geom_close());
    v
}

/// The characters of the marker that opens a reference.
pub fn ref_open_exec() -> (v: Vec<char>)
    ensures
        v@ == ref_open(),
{
    let v = vec!['<', '|', 'r', 'e', 'f', '|', '>'];
    assert(v@ =~= ref_open());
    v
}

/// The characters of the marker that closes a reference.
pub fn ref_close_exec() -> (v: Vec<char>)
    ensures
        v@ == ref_close(),
{
    let v = vec!['<', '|', '/', 'r', 'e', 'f', '|', '>'];
    assert(v@ =~= ref_close());
    v
}

/// The characters of the marker that opens a detection.
pub fn det_open_exec() -> (v: Vec<char>)
    ensures
        v@ == det_open(),
{
    let v = vec!['<', '|', 'd', 'e', 't', '|', '>'];
    assert(v@ =~= det_open());
    v
}

/// The characters of the marker that closes a detection.
pub fn det_close_exec() -> (v: Vec<char>)
    ensures
        v@ == det_close(),
{
    let v = vec!['<', '|', '/', 'd', 'e', 't', '|', '>'];
    assert(v@ =~= det_close());
    v
}

// ---------------------------------------------------------------------------
// Searching

/// The first index at or after `i` where `pat` occurs.
pub open spec fn find_from(t: Seq<char>, i: int, pat: Seq<char>) -> Option<int>
    decreases t.len() - i,
{
    if i < 0 || i >= t.len() || i + pat.len() > t.len() {
        None
    } else if occurs_at(t, i, pat) {
        Some(i)
    } else {
        find_from(t, i + 1, pat)
    }
}

pub proof fn lemma_find_from(t: Seq<char>, i: int, pat: Seq<char>)
    requires
        0 <= i,
    ensures
        find_from(t, i, pat) matches Some(k) ==> i <= k && occurs_at(t, k, pat) && k + pat.len() <= t.len(),
        forall|k: int| i <= k < t.len() && occurs_at(t, k, pat) ==> (find_from(t, i, pat) matches Some(f) && f <= k),
    decreases t.len() - i,
{
    if i >= t.len() || i + pat.len() > t.len() {
    } else if occurs_at(t, i, pat) {
    } else {
        lemma_find_from(t, i + 1, pat);
        assert forall|k: int| i <= k < t.len() && occurs_at(t, k, pat) implies (find_from(t, i, pat) matches Some(f) && f <= k) by {
            if k == i {
            } else {
                assert(i + 1 <= k);
            }
        }
    }
}

/// Finds the first occurrence of the non-empty `pat` at or after `start`.
pub fn find_from_exec(t: &[char], start: usize, pat: &[char]) -> (r: Option<usize>)
    requires
        pat@.len() > 0,
    ensures
        match r {
            Some(k) => find_from(t@, start as int, pat@) == Some(k as int),
            None => find_from(t@, start as int, pat@) is None,
        },
{
    let mut i = start;
    while i < t.len() && !occurs_at_exec(t, i, pat)
        invariant
            start <= i,
            pat@.len() > 0,
            find_from(t@, start as int, pat@) == find_from(t@, i as int, pat@),
        decreases t@.len() - i,
    {
        i = i + 1;
    }
    if i < t.len() {
        Some(i)
    } else {
        None
    }
}

/// Skips Unicode whitespace from `i`.
pub fn skip_ws_exec(t: &[char], i: usize) -> (r: usize)
    requires
        i <= t@.len(),
    ensures
        r == first_kept(t@, i as int, false),
        i <= r <= t@.len(),
{
    let mut k = i;
    while k < t.len() && is_ws_exec(t[k])
        invariant
            i <= k <= t@.len(),
            first_kept(t@, i as int, false) == first_kept(t@, k as int, false),
        decreases t@.len() - k,
    {
        k = k + 1;
    }
    k
}

// ---------------------------------------------------------------------------
// Geometry sidecars

/// Where the `<|/geom|>` of a sidecar that opens right at `e` stands.
pub open spec fn sidecar(t: Seq<char>, e: int) -> Option<int> {
    if occurs_at(t, e, geom_open()) {
        find_from(t, e + 8, geom_close())
    } else {
        None
    }
}

/// Where a marker that closes at `e` ends: after its sidecar when one follows
/// at once, else at `e`.
pub open spec fn match_end(t: Seq<char>, e: int) -> int {
    match sidecar(t, e) {
        Some(c) => c + 9,
        None => e,
    }
}

/// The raw text of the sidecar that follows at `e`, without surrounding whitespace.
pub open spec fn match_geometry(t: Seq<char>, e: int) -> Option<Seq<char>> {
    match sidecar(t, e) {
        Some(c) => Some(trim(t.subrange(e + 8, c))),
        None => None,
    }
}

pub proof fn lemma_match_end(t: Seq<char>, e: int)
    requires
        0 <= e <= t.len(),
    ensures
        e <= match_end(t, e) <= t.len(),
        sidecar(t, e) matches Some(c) ==> e + 8 <= c && c + 9 <= t.len(),
{
    if occurs_at(t, e, geom_open()) {
        lemma_find_from(t, e + 8, geom_close());
    }
}

/// The end of a marker that closes at `e`, and the trimmed range of its sidecar.
fn sidecar_exec(t: &[char], e: usize, go: &[char], gc: &[char]) -> (r: (usize, Option<(usize, usize)>))
    requires
        e <= t@.len(),
        go@ == geom_open(),
        gc@ == geom_close(),
    ensures
        r.0 == match_end(t@, e as int),
        e <= r.0 <= t@.len(),
        match r.1 {
            Some((a, b)) => a <= b <= t@.len() && match_geometry(t@, e as int) == Some(t@.subrange(a as int, b as int)),
            None => match_geometry(t@, e as int) is None,
        },
{
    proof { lemma_match_end(t@, e as int); }
    assert(t@.len() == t.len());
    assert(geom_open().len() == 8 && geom_close().len() == 9);
    if occurs_at_exec(t, e, go) {
        assert(e + 8 <= t@.len());
        match find_from_exec(t, e + 8, gc) {
            Some(c) => {
                proof { lemma_find_from(t@, e + 8, geom_close()); }
                let (a, b) = trim_range(t, e + 8, c, false);
                (c + 9, Some((a, b)))
            },
            None => (e, None),
        }
    } else {
        (e, None)
    }
}

// ---------------------------------------------------------------------------
// `<|ref|>...<|/ref|> <|det|>...<|/det|>` matches

/// A `<|/ref|>` at `q` that is followed, after whitespace, by `<|det|>`.
pub open spec fn ref_close_candidate(t: Seq<char>, q: int) -> bool {
    occurs_at(t, q, ref_close()) && occurs_at(t, first_kept(t, q + 8, false), det_open())
}

/// The first candidate `<|/ref|>` at or after `q`.
pub open spec fn find_ref_close(t: Seq<char>, q: int) -> Option<int>
    decreases t.len() - q,
{
    if q < 0 || q >= t.len() {
        None
    } else if ref_close_candidate(t, q) {
        Some(q)
    } else {
        find_ref_close(t, q + 1)
    }
}

/// One match of the label-and-boxes marker.
pub struct RefMatch {
    pub start: int,
    pub end: int,
    /// The characters between `<|ref|>` and `<|/ref|>`.
    pub label: Seq<char>,
    /// The characters between `<|det|>` and `<|/det|>`, without surrounding whitespace.
    pub content: Seq<char>,
    /// The raw text of a geometry sidecar that follows, without surrounding whitespace.
    pub geometry: Option<Seq<char>>,
}

/// All label-and-boxes matches from `pos` on, leftmost first and non-overlapping.
///
/// The label is the shortest text up to a `<|/ref|>` that is followed by
/// `<|det|>`; the boxes run to the first `<|/det|>` after that, and a sidecar
/// right after it belongs to the match. When the first
/// `<|ref|>` from `pos` has no such completion, no later one has either.
pub open spec fn ref_matches(t: Seq<char>, pos: int) -> Seq<RefMatch>
    decreases t.len() - pos,
{
    match find_from(t, pos, ref_open()) {
        None => seq![],
        Some(p) => match find_ref_close(t, p + 7) {
            None => seq![],
            Some(q) => {
                let d = first_kept(t, q + 8, false) + 7;
                match find_from(t, d, det_close()) {
                    None => seq![],
                    Some(e) => if pos < e + 8 <= t.len() {
                        proof { lemma_match_end(t, e + 8); }
                        seq![RefMatch {
                            start: p,
                            end: match_end(t, e + 8),
                            label: t.subrange(p + 7, q),
                            content: trim(t.subrange(d, e)),
                            geometry: match_geometry(t, e + 8),
                        }] + ref_matches(t, match_end(t, e + 8))
                    } else {
                        seq![]
                    },
                }
            },
        },
    }
}

/// One match of a `<|det|>...<|/det|>` block.
pub struct DetMatch {
    pub start: int,
    pub end: int,
    /// The characters between the tokens, without surrounding whitespace.
    pub content: Seq<char>,
    /// The raw text of a geometry sidecar that follows, without surrounding whitespace.
    pub geometry: Option<Seq<char>>,
}

/// All `<|det|>...<|/det|>` matches from `pos` on, leftmost first and non-overlapping.
pub open spec fn det_matches(t: Seq<char>, pos: int) -> Seq<DetMatch>
    decreases t.len() - pos,
{
    match find_from(t, pos, det_open()) {
        None => seq![],
        Some(p) => match find_from(t, p + 7, det_close()) {
            None => seq![],
            Some(e) => if pos < e + 8 <= t.len() {
                proof { lemma_match_end(t, e + 8); }
                seq![DetMatch {
                    start: p,
                    end: match_end(t, e + 8),
                    content: trim(t.subrange(p + 7, e)),
                    geometry: match_geometry(t, e + 8),
                }] + det_matches(t, match_end(t, e + 8))
            } else {
                seq![]
            },
        },
    }
}

/// Finds the first candidate `<|/ref|>` at or after `q`.
fn find_ref_close_exec(t: &[char], q: usize, rc: &[char], dopen: &[char]) -> (r: Option<usize>)
    requires
        rc@ == ref_close(),
        dopen@ == det_open(),
    ensures
        match r {
            Some(k) => find_ref_close(t@, q as int) == Some(k as int),
            None => find_ref_close(t@, q as int) is None,
        },
{
    let mut i = q;
    while i < t.len()
        invariant
            q <= i,
            rc@ == ref_close(),
            dopen@ == det_open(),
            find_ref_close(t@, q as int) == find_ref_close(t@, i as int),
        decreases t@.len() - i,
    {
        if occurs_at_exec(t, i, rc) {
            let after = skip_ws_exec(t, i + 8);
            if occurs_at_exec(t, after, dopen) {
                return Some(i);
            }
        }
        i = i + 1;
    }
    None
}

/// A label-and-boxes match as indices into the scanned text.
pub struct RefMatchAt {
    pub start: usize,
    pub end: usize,
    pub label_start: usize,
    pub label_end: usize,
    pub content_start: usize,
    pub content_end: usize,
    pub geometry: Option<(usize, usize)>,
}

/// The text of an optional range of `t`.
pub open spec fn range_text(t: Seq<char>, r: Option<(usize, usize)>) -> Option<Seq<char>> {
    match r {
        Some((a, b)) => Some(t.subrange(a as int, b as int)),
        None => None,
    }
}

/// An optional range lies within `n` characters.
pub open spec fn range_ok(r: Option<(usize, usize)>, n: nat) -> bool {
    r matches Some((a, b)) ==> a <= b <= n
}

pub open spec fn ref_match_at_view(t: Seq<char>, m: RefMatchAt) -> RefMatch {
    RefMatch {
        start: m.start as int,
        end: m.end as int,
        label: t.subrange(m.label_start as int, m.label_end as int),
        content: t.subrange(m.content_start as int, m.content_end as int),
        geometry: range_text(t, m.geometry),
    }
}

/// Scans all label-and-boxes matches.
pub fn ref_matches_exec(t: &[char]) -> (r: Vec<RefMatchAt>)
    ensures
        r@.len() == ref_matches(t@, 0).len(),
        forall|i: int| 0 <= i < r@.len() ==> {
            &&& ref_match_at_view(t@, #[trigger] r@[i]) == ref_matches(t@, 0)[i]
            &&& r@[i].start < r@[i].end <= t@.len()
            &&& r@[i].content_start <= r@[i].content_end <= t@.len()
            &&& r@[i].label_start <= r@[i].label_end <= t@.len()
            &&& range_ok(r@[i].geometry, t@.len())
        },
        forall|i: int, j: int| 0 <= i < j < r@.len() ==> r@[i].end <= r@[j].start,
{
    assert(t@.len() == t.len());
    let go = geom_open_exec();
    let gc = geom_close_exec();
    let ro = ref_open_exec();
    let rc = ref_close_exec();
    let dopen = det_open_exec();
    let dc = det_close_exec();
    let mut out: Vec<RefMatchAt> = Vec::new();
    let mut pos: usize = 0;
    proof {
        let r0 = ref_matches(t@, 0);
        assert forall|i: int| 0 <= i < r0.len() implies 0 <= (#[trigger] r0[i]).start by {
            lemma_ref_matches_start(t@, 0, i);
        }
    }
    loop
        invariant_except_break
            pos <= t@.len(),
            ro@ == ref_open(),
            rc@ == ref_close(),
            dopen@ == det_open(),
            dc@ == det_close(),
            go@ == geom_open(),
            gc@ == geom_close(),
            t@.len() == t.len(),
            out@.len() + ref_matches(t@, pos as int).len() == ref_matches(t@, 0).len(),
            forall|i: int| 0 <= i < out@.len() ==> {
                &&& ref_match_at_view(t@, #[trigger] out@[i]) == ref_matches(t@, 0)[i]
                &&& out@[i].start < out@[i].end <= pos
                &&& out@[i].content_start <= out@[i].content_end <= t@.len()
                &&& out@[i].label_start <= out@[i].label_end <= t@.len()
                &&& range_ok(out@[i].geometry, t@.len())
            },
            forall|i: int| 0 <= i < ref_matches(t@, pos as int).len() ==> ref_matches(t@, 0)[out@.len() + i] == #[trigger] ref_matches(t@, pos as int)[i],
            forall|i: int, j: int| 0 <= i < j < out@.len() ==> out@[i].end <= out@[j].start,
            forall|i: int| 0 <= i < ref_matches(t@, pos as int).len() ==> pos <= (#[trigger] ref_matches(t@, pos as int)[i]).start,
        ensures
            out@.len() == ref_matches(t@, 0).len(),
            forall|i: int| 0 <= i < out@.len() ==> {
                &&& ref_match_at_view(t@, #[trigger] out@[i]) == ref_matches(t@, 0)[i]
                &&& out@[i].start < out@[i].end <= t@.len()
                &&& out@[i].content_start <= out@[i].content_end <= t@.len()
                &&& out@[i].label_start <= out@[i].label_end <= t@.len()
                &&& range_ok(out@[i].geometry, t@.len())
            },
            forall|i: int, j: int| 0 <= i < j < out@.len() ==> out@[i].end <= out@[j].start,
        decreases t@.len() - pos,
    {
        let ghost rest = ref_matches(t@, pos as int);
        let p = match find_from_exec(t, pos, &ro) {
            None => break,
            Some(p) => p,
        };
        proof { lemma_find_from(t@, pos as int, ref_open()); }
        let q = match find_ref_close_exec(t, p + 7, &rc, &dopen) {
            None => break,
            Some(q) => q,
        };
        proof { lemma_find_ref_close(t@, p + 7); }
        let ws_end = skip_ws_exec(t, q + 8);
        let d = ws_end + 7;
        let e = match find_from_exec(t, d, &dc) {
            None => break,
            Some(e) => e,
        };
        proof { lemma_find_from(t@, d as int, det_close()); }
        let (cs, ce) = trim_range(t, d, e, false);
        let (end, geometry) = sidecar_exec(t, e + 8, &go, &gc);
        let m = RefMatchAt { start: p, end, label_start: p + 7, label_end: q, content_start: cs, content_end: ce, geometry };
        proof {
            assert(ref_match_at_view(t@, m) == rest[0]);
            assert(rest == seq![rest[0]] + ref_matches(t@, end as int));
            let nr = ref_matches(t@, end as int);
            assert forall|i: int| 0 <= i < nr.len() implies end <= (#[trigger] nr[i]).start by {
                lemma_ref_matches_start(t@, end as int, i);
            }
        }
        out.push(m);
        pos = end;
        proof {
            let nr = ref_matches(t@, pos as int);
            assert forall|i: int| 0 <= i < nr.len() implies ref_matches(t@, 0)[out@.len() + i] == #[trigger] nr[i] by {
                assert(nr[i] == rest[i + 1]);
            }
        }
    }
    out
}

pub proof fn lemma_find_ref_close(t: Seq<char>, q: int)
    requires
        0 <= q,
    ensures
        find_ref_close(t, q) matches Some(k) ==> q <= k < t.len() && occurs_at(t, k, ref_close())
            && ref_close_candidate(t, k),
    decreases t.len() - q,
{
    if q < t.len() && !ref_close_candidate(t, q) {
        lemma_find_ref_close(t, q + 1);
    }
}

pub proof fn lemma_ref_matches_start(t: Seq<char>, pos: int, i: int)
    requires
        0 <= pos,
        0 <= i < ref_matches(t, pos).len(),
    ensures
        pos <= ref_matches(t, pos)[i].start,
        ref_matches(t, pos)[i].start < ref_matches(t, pos)[i].end <= t.len(),
    decreases t.len() - pos,
{
    lemma_find_from(t, pos, ref_open());
    let p = find_from(t, pos, ref_open())->0;
    lemma_find_ref_close(t, p + 7);
    let q = find_ref_close(t, p + 7)->0;
    lemma_first_kept_bounds(t, q + 8, false);
    let d = first_kept(t, q + 8, false) + 7;
    lemma_find_from(t, d, det_close());
    let e = find_from(t, d, det_close())->0;
    lemma_match_end(t, e + 8);
    if i > 0 {
        lemma_ref_matches_start(t, match_end(t, e + 8), i - 1);
    }
}


/// A standalone marker block as indices into the scanned text.
pub struct DetMatchAt {
    pub start: usize,
    pub end: usize,
    pub content_start: usize,
    pub content_end: usize,
    pub geometry: Option<(usize, usize)>,
}

pub open spec fn det_match_at_view(t: Seq<char>, m: DetMatchAt) -> DetMatch {
    DetMatch {
        start: m.start as int,
        end: m.end as int,
        content: t.subrange(m.content_start as int, m.content_end as int),
        geometry: range_text(t, m.geometry),
    }
}

pub proof fn lemma_det_matches_start(t: Seq<char>, pos: int, i: int)
    requires
        0 <= pos,
        0 <= i < det_matches(t, pos).len(),
    ensures
        pos <= det_matches(t, pos)[i].start,
        det_matches(t, pos)[i].start < det_matches(t, pos)[i].end <= t.len(),
    decreases t.len() - pos,
{
    lemma_find_from(t, pos, det_open());
    let p = find_from(t, pos, det_open())->0;
    lemma_find_from(t, p + 7, det_close());
    let e = find_from(t, p + 7, det_close())->0;
    lemma_match_end(t, e + 8);
    if i > 0 {
        lemma_det_matches_start(t, match_end(t, e + 8), i - 1);
    }
}

/// Scans all standalone marker blocks.
pub fn det_matches_exec(t: &[char]) -> (r: Vec<DetMatchAt>)
    ensures
        r@.len() == det_matches(t@, 0).len(),
        forall|i: int| 0 <= i < r@.len() ==> {
            &&& det_match_at_view(t@, #[trigger] r@[i]) == det_matches(t@, 0)[i]
            &&& r@[i].start < r@[i].end <= t@.len()
            &&& r@[i].content_start <= r@[i].content_end <= t@.len()
            &&& range_ok(r@[i].geometry, t@.len())
        },
{
    assert(t@.len() == t.len());
    let go = geom_open_exec();
    let gc = geom_close_exec();
    let dopen = det_open_exec();
    let dc = det_close_exec();
    let mut out: Vec<DetMatchAt> = Vec::new();
    let mut pos: usize = 0;
    proof {
        let r0 = det_matches(t@, 0);
        assert forall|i: int| 0 <= i < r0.len() implies 0 <= (#[trigger] r0[i]).start by {
            lemma_det_matches_start(t@, 0, i);
        }
    }
    loop
        invariant_except_break
            pos <= t@.len(),
            t@.len() == t.len(),
            dopen@ == det_open(),
            dc@ == det_close(),
            go@ == geom_open(),
            gc@ == geom_close(),
            out@.len() + det_matches(t@, pos as int).len() == det_matches(t@, 0).len(),
            forall|i: int| 0 <= i < out@.len() ==> {
                &&& det_match_at_view(t@, #[trigger] out@[i]) == det_matches(t@, 0)[i]
                &&& out@[i].start < out@[i].end <= pos
                &&& out@[i].content_start <= out@[i].content_end <= t@.len()
                &&& range_ok(out@[i].geometry, t@.len())
            },
            forall|i: int| 0 <= i < det_matches(t@, pos as int).len() ==> det_matches(t@, 0)[out@.len() + i] == #[trigger] det_matches(t@, pos as int)[i],
        ensures
            out@.len() == det_matches(t@, 0).len(),
            forall|i: int| 0 <= i < out@.len() ==> {
                &&& det_match_at_view(t@, #[trigger] out@[i]) == det_matches(t@, 0)[i]
                &&& out@[i].start < out@[i].end <= t@.len()
                &&& out@[i].content_start <= out@[i].content_end <= t@.len()
                &&& range_ok(out@[i].geometry, t@.len())
            },
        decreases t@.len() - pos,
    {
        let ghost rest = det_matches(t@, pos as int);
        let p = match find_from_exec(t, pos, &dopen) {
            None => break,
            Some(p) => p,
        };
        proof { lemma_find_from(t@, pos as int, det_open()); }
        let e = match find_from_exec(t, p + 7, &dc) {
            None => break,
            Some(e) => e,
        };
        proof { lemma_find_from(t@, p + 7, det_close()); }
        let (cs, ce) = trim_range(t, p + 7, e, false);
        let (end, geometry) = sidecar_exec(t, e + 8, &go, &gc);
        let m = DetMatchAt { start: p, end, content_start: cs, content_end: ce, geometry };
        proof {
            assert(det_match_at_view(t@, m) == rest[0]);
        }
        out.push(m);
        pos = end;
        proof {
            let nr = det_matches(t@, pos as int);
            assert forall|i: int| 0 <= i < nr.len() implies det_matches(t@, 0)[out@.len() + i] == #[trigger] nr[i] by {
                assert(nr[i] == rest[i + 1]);
            }
        }
    }
    out
}

// ---------------------------------------------------------------------------
// Box coordinates: `[x1, y1, x2, y2]`

/// A box on the 0..=999 grid, in thousandths, normalised so that
/// `x1 <= x2` and `y1 <= y2`.
#[derive(Clone, Copy, Debug, PartialEq, Eq)]
pub struct BoxPoints {
    pub x1: u32,
    pub y1: u32,
    pub x2: u32,
    pub y2: u32,
}

/// Largest coordinate, 999 in thousandths.
pub const COORD_MAX_MILLI: u32 = 999_000;

pub open spec fn is_digit(c: char) -> bool {
    '0' <= c && c <= '9'
}

pub open spec fn digit_of(c: char) -> nat {
    ((c as u32) - 48) as nat
}

/// End of the run of ASCII digits starting at `i`.
pub open spec fn digit_run_end(c: Seq<char>, i: int) -> int
    decreases c.len() - i,
{
    if 0 <= i < c.len() && is_digit(c[i]) {
        digit_run_end(c, i + 1)
    } else {
        i
    }
}

/// The value of a string of decimal digits.
pub open spec fn digits_value(ds: Seq<char>) -> nat
    decreases ds.len(),
{
    if ds.len() == 0 {
        0
    } else {
        digits_value(ds.drop_last()) * 10 + digit_of(ds.last())
    }
}

/// Thousandths contributed by the first three fraction digits.
pub open spec fn frac_milli(fs: Seq<char>) -> nat {
    (if fs.len() > 0 { digit_of(fs[0]) * 100 } else { 0 })
        + (if fs.len() > 1 { digit_of(fs[1]) * 10 } else { 0 })
        + (if fs.len() > 2 { digit_of(fs[2]) } else { 0 })
}

/// Clamps a coordinate to `0..=999`, in thousandths; negative values give 0.
pub open spec fn clamp_milli(negative: bool, int_part: nat, frac: nat) -> nat {
    if negative {
        0
    } else if int_part * 1000 + frac > 999_000 {
        999_000
    } else {
        int_part * 1000 + frac
    }
}

/// A number `-?[0-9]+(\.[0-9]+)?` at `j`: its clamped value and the index after it.
pub open spec fn number_at(c: Seq<char>, j: int) -> Option<(nat, int)> {
    let neg = 0 <= j < c.len() && c[j] == '-';
    let k0 = if neg { j + 1 } else { j };
    let k1 = digit_run_end(c, k0);
    if !(0 <= j && k0 < k1) {
        None
    } else {
        let has_frac = k1 + 1 < c.len() && c[k1] == '.' && is_digit(c[k1 + 1]);
        let k2 = if has_frac { digit_run_end(c, k1 + 1) } else { k1 };
        let fr = if has_frac { frac_milli(c.subrange(k1 + 1, k2)) } else { 0 };
        Some((clamp_milli(neg, digits_value(c.subrange(k0, k1)), fr), k2))
    }
}

/// Optional whitespace, the separator `sep`, optional whitespace, and a number.
pub open spec fn sep_then_number(c: Seq<char>, e: int, sep: char) -> Option<(nat, int)> {
    let s = first_kept(c, e, false);
    if 0 <= s < c.len() && c[s] == sep {
        number_at(c, first_kept(c, s + 1, false))
    } else {
        None
    }
}

pub open spec fn nmin(a: nat, b: nat) -> nat {
    if a <= b { a } else { b }
}

pub open spec fn nmax(a: nat, b: nat) -> nat {
    if a <= b { b } else { a }
}

/// A box group starting with `[` at `i`: the normalised box and the index after `]`.
pub open spec fn box_at(c: Seq<char>, i: int) -> Option<(BoxPoints, int)> {
    if !(0 <= i < c.len() && c[i] == '[') {
        None
    } else {
        match number_at(c, first_kept(c, i + 1, false)) {
            None => None,
            Some((a, e1)) => match sep_then_number(c, e1, ',') {
                None => None,
                Some((b, e2)) => match sep_then_number(c, e2, ',') {
                    None => None,
                    Some((x, e3)) => match sep_then_number(c, e3, ',') {
                        None => None,
                        Some((y, e4)) => {
                            let s = first_kept(c, e4, false);
                            if 0 <= s < c.len() && c[s] == ']' {
                                Some((BoxPoints {
                                    x1: nmin(a, x) as u32,
                                    y1: nmin(b, y) as u32,
                                    x2: nmax(a, x) as u32,
                                    y2: nmax(b, y) as u32,
                                }, s + 1))
                            } else {
                                None
                            }
                        },
                    },
                },
            },
        }
    }
}

/// All box groups from `i` on, leftmost first and non-overlapping.
pub open spec fn boxes_from(c: Seq<char>, i: int) -> Seq<BoxPoints>
    decreases c.len() - i,
{
    if i < 0 || i >= c.len() {
        seq![]
    } else {
        match box_at(c, i) {
            Some((b, e)) => if i < e <= c.len() {
                seq![b] + boxes_from(c, e)
            } else {
                seq![]
            },
            None => boxes_from(c, i + 1),
        }
    }
}

/// All box groups of `c`.
pub open spec fn parse_boxes(c: Seq<char>) -> Seq<BoxPoints> {
    boxes_from(c, 0)
}

pub open spec fn box_normalized(b: BoxPoints) -> bool {
    b.x1 <= b.x2 <= COORD_MAX_MILLI && b.y1 <= b.y2 <= COORD_MAX_MILLI
}

fn is_digit_exec(c: char) -> (r: bool)
    ensures
        r == is_digit(c),
{
    '0' <= c && c <= '9'
}

/// Scans a run of digits from `i`; returns its end and the value, saturated at 1000.
fn digit_run_exec(c: &[char], i: usize) -> (r: (usize, u32))
    requires
        i <= c@.len(),
    ensures
        r.0 == digit_run_end(c@, i as int),
        i <= r.0 <= c@.len(),
        r.1 == if digits_value(c@.subrange(i as int, r.0 as int)) < 1000 {
            digits_value(c@.subrange(i as int, r.0 as int))
        } else {
            1000
        },
{
    let mut k = i;
    let mut acc: u32 = 0;
    while k < c.len() && is_digit_exec(c[k])
        invariant
            i <= k <= c@.len(),
            digit_run_end(c@, i as int) == digit_run_end(c@, k as int),
            acc == if digits_value(c@.subrange(i as int, k as int)) < 1000 {
                digits_value(c@.subrange(i as int, k as int))
            } else {
                1000
            },
        decreases c@.len() - k,
    {
        let d = (c[k] as u32) - 48;
        proof {
            assert(c@.subrange(i as int, k + 1 as int).drop_last() =~= c@.subrange(i as int, k as int));
            assert(c@.subrange(i as int, k + 1 as int).last() == c@[k as int]);
        }
        if acc >= 1000 {
            acc = 1000;
        } else {
            let next = acc * 10 + d;
            acc = if next >= 1000 { 1000 } else { next };
        }
        k = k + 1;
    }
    (k, acc)
}

/// Parses a number at `j`.
fn number_at_exec(c: &[char], j: usize) -> (r: Option<(u32, usize)>)
    requires
        j <= c@.len(),
    ensures
        match r {
            Some((v, e)) => number_at(c@, j as int) == Some((v as nat, e as int)) && j < e <= c@.len(),
            None => number_at(c@, j as int) is None,
        },
{
    assert(c@.len() == c.len());
    let neg = j < c.len() && c[j] == '-';
    let k0 = if neg { j + 1 } else { j };
    let (k1, ip) = digit_run_exec(c, k0);
    proof {
        lemma_digit_run(c@, k0 as int);
    }
    if !(k0 < k1) {
        return None;
    }
    let has_frac = k1 < c.len() && c[k1] == '.' && k1 + 1 < c.len() && is_digit_exec(c[k1 + 1]);
    let mut k2 = k1;
    let mut fr: u32 = 0;
    if has_frac {
        let (e, _) = digit_run_exec(c, k1 + 1);
        proof {
            lemma_digit_run(c@, k1 + 1);
        }
        let ghost fs = c@.subrange(k1 + 1, e as int);
        k2 = e;
        let n = e - (k1 + 1);
        assert(is_digit(c@[k1 + 1]));
        fr = ((c[k1 + 1] as u32) - 48) * 100;
        if n > 1 {
            assert(is_digit(c@[k1 + 2]));
            fr = fr + ((c[k1 + 2] as u32) - 48) * 10;
        }
        if n > 2 {
            assert(is_digit(c@[k1 + 3]));
            fr = fr + ((c[k1 + 3] as u32) - 48);
        }
        assert(fs.len() == n);
        assert(fs[0] == c@[k1 + 1]);
        assert(n > 1 ==> fs[1] == c@[k1 + 2]);
        assert(n > 2 ==> fs[2] == c@[k1 + 3]);
        assert(fr == frac_milli(fs));
    }
    let ghost dv = digits_value(c@.subrange(k0 as int, k1 as int));
    let v: u32 = if neg {
        0
    } else if ip * 1000 + fr > 999_000 {
        999_000
    } else {
        ip * 1000 + fr
    };
    assert(v == clamp_milli(neg, dv, fr as nat));
    Some((v, k2))
}

pub proof fn lemma_digit_run(c: Seq<char>, i: int)
    requires
        0 <= i <= c.len(),
    ensures
        i <= digit_run_end(c, i) <= c.len(),
        forall|k: int| i <= k < digit_run_end(c, i) ==> is_digit(#[trigger] c[k]),
        i < c.len() && is_digit(c[i]) ==> i < digit_run_end(c, i),
    decreases c.len() - i,
{
    if i < c.len() && is_digit(c[i]) {
        lemma_digit_run(c, i + 1);
    }
}

/// Parses optional whitespace, `sep`, optional whitespace and a number from `e`.
fn sep_then_number_exec(c: &[char], e: usize, sep: char) -> (r: Option<(u32, usize)>)
    requires
        e <= c@.len(),
    ensures
        match r {
            Some((v, k)) => sep_then_number(c@, e as int, sep) == Some((v as nat, k as int)) && e < k <= c@.len(),
            None => sep_then_number(c@, e as int, sep) is None,
        },
{
    let s = skip_ws_exec(c, e);
    if s < c.len() && c[s] == sep {
        let n = skip_ws_exec(c, s + 1);
        number_at_exec(c, n)
    } else {
        None
    }
}

/// Parses a box group at `i`.
fn box_at_exec(c: &[char], i: usize) -> (r: Option<(BoxPoints, usize)>)
    requires
        i < c@.len(),
    ensures
        match r {
            Some((b, e)) => box_at(c@, i as int) == Some((b, e as int)) && i < e <= c@.len() && box_normalized(b),
            None => box_at(c@, i as int) is None,
        },
{
    if c[i] != '[' {
        return None;
    }
    let n0 = skip_ws_exec(c, i + 1);
    let (a, e1) = match number_at_exec(c, n0) {
        None => return None,
        Some(x) => x,
    };
    let (b, e2) = match sep_then_number_exec(c, e1, ',') {
        None => return None,
        Some(x) => x,
    };
    let (x, e3) = match sep_then_number_exec(c, e2, ',') {
        None => return None,
        Some(x) => x,
    };
    let (y, e4) = match sep_then_number_exec(c, e3, ',') {
        None => return None,
        Some(x) => x,
    };
    let s = skip_ws_exec(c, e4);
    if s < c.len() && c[s] == ']' {
        let bp = BoxPoints {
            x1: if a <= x { a } else { x },
            y1: if b <= y { b } else { y },
            x2: if a <= x { x } else { a },
            y2: if b <= y { y } else { b },
        };
        Some((bp, s + 1))
    } else {
        None
    }
}

/// Parses all box groups of `c`.
pub fn parse_boxes_exec(c: &[char]) -> (r: Vec<BoxPoints>)
    ensures
        r@ == parse_boxes(c@),
        forall|j: int| 0 <= j < r@.len() ==> box_normalized(#[trigger] r@[j]),
{
    assert(c@.len() == c.len());
    let mut out: Vec<BoxPoints> = Vec::new();
    let mut i: usize = 0;
    while i < c.len()
        invariant
            i <= c@.len(),
            c@.len() == c.len(),
            out@ + boxes_from(c@, i as int) == boxes_from(c@, 0),
            forall|j: int| 0 <= j < out@.len() ==> box_normalized(#[trigger] out@[j]),
        decreases c@.len() - i,
    {
        match box_at_exec(c, i) {
            Some((b, e)) => {
                assert(boxes_from(c@, i as int) == seq![b] + boxes_from(c@, e as int));
                out.push(b);
                i = e;
                assert(out@ + boxes_from(c@, i as int) =~= boxes_from(c@, 0));
            },
            None => {
                i = i + 1;
            },
        }
    }
    assert(out@ + boxes_from(c@, i as int) =~= out@);
    out
}

// ---------------------------------------------------------------------------
// Segments

/// A marker with at least one box: its character span, label and boxes.
pub struct Segment {
    pub start: int,
    pub end: int,
    pub label: Seq<char>,
    pub boxes: Seq<BoxPoints>,
    /// The raw text of the marker's geometry sidecar, if one follows it.
    pub geometry: Option<Seq<char>>,
}

/// Label-and-boxes matches that carry at least one box.
pub open spec fn ref_segments_from(ms: Seq<RefMatch>) -> Seq<Segment>
    decreases ms.len(),
{
    if ms.len() == 0 {
        seq![]
    } else {
        let prev = ref_segments_from(ms.drop_last());
        let m = ms.last();
        let bs = parse_boxes(m.content);
        if bs.len() > 0 {
            prev.push(Segment { start: m.start, end: m.end, label: trim_by(m.label, true), boxes: bs, geometry: m.geometry })
        } else {
            prev
        }
    }
}

/// `[start, end)` lies within one of `segs`.
pub open spec fn inside_any(start: int, end: int, segs: Seq<Segment>) -> bool {
    exists|i: int| 0 <= i < segs.len() && start >= segs[i].start && end <= (#[trigger] segs[i]).end
}

pub open spec fn det_default_label() -> Seq<char> {
    seq!['d', 'e', 't']
}

/// A standalone block `LABEL [..boxes..]`: boxes come from the first `[` on,
/// the label is the text before it (or `det` when empty).
pub open spec fn det_segment(m: DetMatch) -> Option<Segment> {
    let content = trim_by(m.content, true);
    match index_of_from(content, '[', 0) {
        None => None,
        Some(b) => {
            let bs = parse_boxes(content.subrange(b, content.len() as int));
            if bs.len() == 0 {
                None
            } else {
                let label = trim_by(content.subrange(0, b), true);
                Some(Segment {
                    start: m.start,
                    end: m.end,
                    label: if label.len() == 0 { det_default_label() } else { label },
                    boxes: bs,
                    geometry: m.geometry,
                })
            }
        },
    }
}

/// Standalone blocks that carry boxes and do not lie inside a label-and-boxes segment.
pub open spec fn det_segments_from(ms: Seq<DetMatch>, refs: Seq<Segment>) -> Seq<Segment>
    decreases ms.len(),
{
    if ms.len() == 0 {
        seq![]
    } else {
        let prev = det_segments_from(ms.drop_last(), refs);
        let m = ms.last();
        if inside_any(m.start, m.end, refs) {
            prev
        } else {
            match det_segment(m) {
                None => prev,
                Some(sg) => prev.push(sg),
            }
        }
    }
}

/// Merges two lists that are ordered by start, taking from `a` first on ties.
pub open spec fn merge_by_start(a: Seq<Segment>, b: Seq<Segment>) -> Seq<Segment>
    decreases a.len() + b.len(),
{
    if a.len() == 0 {
        b
    } else if b.len() == 0 {
        a
    } else if a[0].start <= b[0].start {
        seq![a[0]] + merge_by_start(a.drop_first(), b)
    } else {
        seq![b[0]] + merge_by_start(a, b.drop_first())
    }
}

pub open spec fn ref_segments(t: Seq<char>) -> Seq<Segment> {
    ref_segments_from(ref_matches(t, 0))
}

pub open spec fn det_segments(t: Seq<char>) -> Seq<Segment> {
    det_segments_from(det_matches(t, 0), ref_segments(t))
}

/// All segments of `t`, ordered by start (a stable sort of the
/// label-and-boxes segments followed by the standalone ones).
pub open spec fn collect_segments(t: Seq<char>) -> Seq<Segment> {
    merge_by_start(ref_segments(t), det_segments(t))
}

/// A segment lies within `n` characters and its boxes are normalised.
pub open spec fn seg_ok(s: SegmentAt, n: nat) -> bool {
    &&& s.start < s.end <= n
    &&& forall|j: int| 0 <= j < s.boxes@.len() ==> box_normalized(#[trigger] s.boxes@[j])
}

/// A segment with positions as indices into the scanned text.
pub struct SegmentAt {
    pub start: usize,
    pub end: usize,
    pub label: Vec<char>,
    pub boxes: Vec<BoxPoints>,
    pub geometry: Option<Vec<char>>,
}

/// The characters of an optional sidecar text.
pub open spec fn opt_chars(o: Option<Vec<char>>) -> Option<Seq<char>> {
    match o {
        Some(v) => Some(v@),
        None => None,
    }
}

/// Copies the optional range `r` of `t`.
fn copy_opt_range(t: &[char], r: Option<(usize, usize)>) -> (c: Option<Vec<char>>)
    requires
        range_ok(r, t@.len()),
    ensures
        opt_chars(c) == range_text(t@, r),
{
    match r {
        Some((a, b)) => Some(copy_range(t, a, b)),
        None => None,
    }
}

impl View for SegmentAt {
    type V = Segment;

    open spec fn view(&self) -> Segment {
        Segment {
            start: self.start as int,
            end: self.end as int,
            label: self.label@,
            boxes: self.boxes@,
            geometry: opt_chars(self.geometry),
        }
    }
}

pub open spec fn segs_view(v: Seq<SegmentAt>) -> Seq<Segment> {
    v.map_values(|s: SegmentAt| s@)
}

fn inside_any_exec(start: usize, end: usize, segs: &Vec<SegmentAt>) -> (r: bool)
    ensures
        r == inside_any(start as int, end as int, segs_view(segs@)),
{
    let mut i: usize = 0;
    while i < segs.len()
        invariant
            i <= segs@.len(),
            forall|k: int| 0 <= k < i ==> !(start >= segs@[k].start && end <= segs@[k].end),
        decreases segs@.len() - i,
    {
        if start >= segs[i].start && end <= segs[i].end {
            assert(segs_view(segs@)[i as int] == segs@[i as int]@);
            return true;
        }
        i = i + 1;
    }
    proof {
        if inside_any(start as int, end as int, segs_view(segs@)) {
            let k = choose|k: int| 0 <= k < segs_view(segs@).len() && start >= segs_view(segs@)[k].start
                && end <= (#[trigger] segs_view(segs@)[k]).end;
            assert(segs_view(segs@)[k] == segs@[k]@);
        }
    }
    false
}

fn ref_segments_exec(t: &[char], ms: &Vec<RefMatchAt>) -> (r: Vec<SegmentAt>)
    requires
        ms@.len() == ref_matches(t@, 0).len(),
        forall|i: int| 0 <= i < ms@.len() ==> {
            &&& ref_match_at_view(t@, #[trigger] ms@[i]) == ref_matches(t@, 0)[i]
            &&& ms@[i].content_start <= ms@[i].content_end <= t@.len()
            &&& ms@[i].label_start <= ms@[i].label_end <= t@.len()
            &&& range_ok(ms@[i].geometry, t@.len())
        },
        forall|i: int| 0 <= i < ms@.len() ==> (#[trigger] ms@[i]).start < ms@[i].end <= t@.len(),
    ensures
        segs_view(r@) == ref_segments(t@),
        forall|i: int| 0 <= i < r@.len() ==> seg_ok(#[trigger] r@[i], t@.len()),
{
    let ghost all = ref_matches(t@, 0);
    let mut out: Vec<SegmentAt> = Vec::new();
    let mut i: usize = 0;
    while i < ms.len()
        invariant
            i <= ms@.len(),
            all == ref_matches(t@, 0),
            ms@.len() == all.len(),
            forall|k: int| 0 <= k < ms@.len() ==> {
                &&& ref_match_at_view(t@, #[trigger] ms@[k]) == all[k]
                &&& ms@[k].content_start <= ms@[k].content_end <= t@.len()
                &&& ms@[k].label_start <= ms@[k].label_end <= t@.len()
                &&& range_ok(ms@[k].geometry, t@.len())
            },
            segs_view(out@) == ref_segments_from(all.take(i as int)),
            forall|k: int| 0 <= k < ms@.len() ==> (#[trigger] ms@[k]).start < ms@[k].end <= t@.len(),
            forall|k: int| 0 <= k < out@.len() ==> seg_ok(#[trigger] out@[k], t@.len()),
        decreases ms@.len() - i,
    {
        let m = &ms[i];
        let content = copy_range(t, m.content_start, m.content_end);
        let boxes = parse_boxes_exec(&content);
        proof {
            assert(all.take(i + 1).drop_last() =~= all.take(i as int));
            assert(all.take(i + 1).last() == all[i as int]);
            assert(ref_match_at_view(t@, ms@[i as int]) == all[i as int]);
        }
        if boxes.len() > 0 {
            let (la, lb) = trim_range(t, m.label_start, m.label_end, true);
            let label = copy_range(t, la, lb);
            let geometry = copy_opt_range(t, m.geometry);
            let sg = SegmentAt { start: m.start, end: m.end, label, boxes, geometry };
            out.push(sg);
            assert(segs_view(out@) =~= ref_segments_from(all.take(i as int)).push(sg@));
        }
        i = i + 1;
    }
    assert(all.take(ms@.len() as int) =~= all);
    out
}

fn det_segment_exec(t: &[char], m: &DetMatchAt) -> (r: Option<SegmentAt>)
    requires
        m.content_start <= m.content_end <= t@.len(),
        range_ok(m.geometry, t@.len()),
    ensures
        match r {
            Some(sg) => det_segment(det_match_at_view(t@, *m)) == Some(sg@) && sg.start == m.start && sg.end == m.end
            && forall|j: int| 0 <= j < sg.boxes@.len() ==> box_normalized(#[trigger] sg.boxes@[j]),
            None => det_segment(det_match_at_view(t@, *m)) is None,
        },
{
    let (a, b) = trim_range(t, m.content_start, m.content_end, true);
    let content = copy_range(t, a, b);
    let bpos = match index_of_from_exec(&content, '[', 0) {
        None => return None,
        Some(k) => k,
    };
    proof {
        lemma_index_of_from(content@, '[', 0);
    }
    let tail = copy_range(&content, bpos, content.len());
    let boxes = parse_boxes_exec(&tail);
    if boxes.len() == 0 {
        return None;
    }
    let (la, lb) = trim_range(&content, 0, bpos, true);
    let label = if la == lb {
        let v = vec!['d', 'e', 't'];
        assert(v@ =~= det_default_label());
        v
    } else {
        copy_range(&content, la, lb)
    };
    let geometry = copy_opt_range(t, m.geometry);
    Some(SegmentAt { start: m.start, end: m.end, label, boxes, geometry })
}

fn det_segments_exec(t: &[char], ms: &Vec<DetMatchAt>, refs: &Vec<SegmentAt>) -> (r: Vec<SegmentAt>)
    requires
        ms@.len() == det_matches(t@, 0).len(),
        forall|i: int| 0 <= i < ms@.len() ==> {
            &&& det_match_at_view(t@, #[trigger] ms@[i]) == det_matches(t@, 0)[i]
            &&& ms@[i].content_start <= ms@[i].content_end <= t@.len()
            &&& range_ok(ms@[i].geometry, t@.len())
        },
        segs_view(refs@) == ref_segments(t@),
        forall|i: int| 0 <= i < ms@.len() ==> (#[trigger] ms@[i]).start < ms@[i].end <= t@.len(),
    ensures
        segs_view(r@) == det_segments(t@),
        forall|i: int| 0 <= i < r@.len() ==> seg_ok(#[trigger] r@[i], t@.len()),
{
    let ghost all = det_matches(t@, 0);
    let mut out: Vec<SegmentAt> = Vec::new();
    let mut i: usize = 0;
    while i < ms.len()
        invariant
            i <= ms@.len(),
            all == det_matches(t@, 0),
            ms@.len() == all.len(),
            forall|k: int| 0 <= k < ms@.len() ==> {
                &&& det_match_at_view(t@, #[trigger] ms@[k]) == all[k]
                &&& ms@[k].content_start <= ms@[k].content_end <= t@.len()
                &&& range_ok(ms@[k].geometry, t@.len())
            },
            segs_view(refs@) == ref_segments(t@),
            segs_view(out@) == det_segments_from(all.take(i as int), ref_segments(t@)),
            forall|k: int| 0 <= k < ms@.len() ==> (#[trigger] ms@[k]).start < ms@[k].end <= t@.len(),
            forall|k: int| 0 <= k < out@.len() ==> seg_ok(#[trigger] out@[k], t@.len()),
        decreases ms@.len() - i,
    {
        let m = &ms[i];
        proof {
            assert(all.take(i + 1).drop_last() =~= all.take(i as int));
            assert(all.take(i + 1).last() == all[i as int]);
            assert(det_match_at_view(t@, ms@[i as int]) == all[i as int]);
        }
        if !inside_any_exec(m.start, m.end, refs) {
            match det_segment_exec(t, m) {
                Some(sg) => {
                    out.push(sg);
                    assert(segs_view(out@) =~= det_segments_from(all.take(i as int), ref_segments(t@)).push(sg@));
                },
                None => {},
            }
        }
        i = i + 1;
    }
    assert(all.take(ms@.len() as int) =~= all);
    out
}

/// Merges the two ordered lists, taking from `a` first on ties.
fn merge_by_start_exec(a: Vec<SegmentAt>, b: Vec<SegmentAt>, n: Ghost<nat>) -> (r: Vec<SegmentAt>)
    requires
        forall|i: int| 0 <= i < a@.len() ==> seg_ok(#[trigger] a@[i], n@),
        forall|i: int| 0 <= i < b@.len() ==> seg_ok(#[trigger] b@[i], n@),
    ensures
        segs_view(r@) == merge_by_start(segs_view(a@), segs_view(b@)),
        forall|i: int| 0 <= i < r@.len() ==> seg_ok(#[trigger] r@[i], n@),
{
    let ghost whole = merge_by_start(segs_view(a@), segs_view(b@));
    let mut a = a;
    let mut b = b;
    let mut out: Vec<SegmentAt> = Vec::new();
    while a.len() > 0 || b.len() > 0
        invariant
            segs_view(out@) + merge_by_start(segs_view(a@), segs_view(b@)) == whole,
            forall|i: int| 0 <= i < a@.len() ==> seg_ok(#[trigger] a@[i], n@),
            forall|i: int| 0 <= i < b@.len() ==> seg_ok(#[trigger] b@[i], n@),
            forall|i: int| 0 <= i < out@.len() ==> seg_ok(#[trigger] out@[i], n@),
        decreases a@.len() + b@.len(),
    {
        let take_a = b.len() == 0 || (a.len() > 0 && a[0].start <= b[0].start);
        proof {
            if a@.len() > 0 {
                assert(segs_view(a@)[0] == a@[0]@);
                assert(segs_view(a@).drop_first() =~= segs_view(a@.drop_first()));
            }
            if b@.len() > 0 {
                assert(segs_view(b@)[0] == b@[0]@);
                assert(segs_view(b@).drop_first() =~= segs_view(b@.drop_first()));
            }
        }
        if take_a {
            let x = a.remove(0);
            out.push(x);
            assert(segs_view(out@) =~= segs_view(out@.drop_last()).push(x@));
        } else {
            let x = b.remove(0);
            out.push(x);
            assert(segs_view(out@) =~= segs_view(out@.drop_last()).push(x@));
        }
    }
    assert(merge_by_start(segs_view(a@), segs_view(b@)) =~= seq![]);
    assert(segs_view(out@) =~= whole);
    out
}

/// Finds all segments of `t`, ordered by start.
pub fn collect_segments_exec(t: &[char]) -> (r: Vec<SegmentAt>)
    ensures
        segs_view(r@) == collect_segments(t@),
        forall|i: int| 0 <= i < r@.len() ==> seg_ok(#[trigger] r@[i], t@.len()),
{
    let rms = ref_matches_exec(t);
    let dms = det_matches_exec(t);
    let refs = ref_segments_exec(t, &rms);
    let dets = det_segments_exec(t, &dms, &refs);
    merge_by_start_exec(refs, dets, Ghost(t@.len()))
}
} // verus!
