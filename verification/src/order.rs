//! Ordering texts by a small rank and then by the text itself, as a sort by
//! the key `(rank, text)` does with Rust's ordering of tuples and strings.

use vstd::prelude::*;
use crate::text::chars_of;

verus! {

/// `a` comes no later than `b` in the order of strings: character by
/// character, a proper prefix first (for UTF-8 text the same as byte order).
pub open spec fn lex_le(a: Seq<char>, b: Seq<char>) -> bool
    decreases a.len(),
{
    if a.len() == 0 {
        true
    } else if b.len() == 0 {
        false
    } else if a[0] < b[0] {
        true
    } else if a[0] > b[0] {
        false
    } else {
        lex_le(a.drop_first(), b.drop_first())
    }
}

pub proof fn lemma_lex_total(a: Seq<char>, b: Seq<char>)
    ensures
        lex_le(a, b) || lex_le(b, a),
    decreases a.len(),
{
    if a.len() > 0 && b.len() > 0 && a[0] == b[0] {
        lemma_lex_total(a.drop_first(), b.drop_first());
    }
}

pub proof fn lemma_lex_antisym(a: Seq<char>, b: Seq<char>)
    requires
        lex_le(a, b),
        lex_le(b, a),
    ensures
        a == b,
    decreases a.len(),
{
    if a.len() > 0 && b.len() > 0 {
        assert(a[0] == b[0]);
        lemma_lex_antisym(a.drop_first(), b.drop_first());
        assert(a =~= seq![a[0]] + a.drop_first());
        assert(b =~= seq![b[0]] + b.drop_first());
    }
}

pub proof fn lemma_lex_trans(a: Seq<char>, b: Seq<char>, c: Seq<char>)
    requires
        lex_le(a, b),
        lex_le(b, c),
    ensures
        lex_le(a, c),
    decreases a.len(),
{
    if a.len() > 0 && b.len() > 0 && c.len() > 0 && a[0] == b[0] && b[0] == c[0] {
        lemma_lex_trans(a.drop_first(), b.drop_first(), c.drop_first());
    }
}

/// Whether `a` comes no later than `b` in the order of strings.
pub fn lex_le_exec(a: &str, b: &str) -> (r: bool)
    ensures
        r == lex_le(a@, b@),
{
    let x = chars_of(a);
    let y = chars_of(b);
    proof {
        assert(x@.subrange(0, x@.len() as int) =~= x@);
        assert(y@.subrange(0, y@.len() as int) =~= y@);
    }
    let mut i: usize = 0;
    while i < x.len() && i < y.len() && x[i] == y[i]
        invariant
            i <= x@.len(),
            i <= y@.len(),
            x@ == a@,
            y@ == b@,
            lex_le(a@, b@) == lex_le(x@.subrange(i as int, x@.len() as int), y@.subrange(i as int, y@.len() as int)),
        decreases x@.len() - i,
    {
        proof {
            let xs = x@.subrange(i as int, x@.len() as int);
            let ys = y@.subrange(i as int, y@.len() as int);
            assert(xs[0] == ys[0]);
            assert(xs.drop_first() =~= x@.subrange(i + 1, x@.len() as int));
            assert(ys.drop_first() =~= y@.subrange(i + 1, y@.len() as int));
        }
        i = i + 1;
    }
    proof {
        assert(x@.subrange(0, x@.len() as int) =~= x@);
        assert(y@.subrange(0, y@.len() as int) =~= y@);
    }
    let ghost xs = x@.subrange(i as int, x@.len() as int);
    let ghost ys = y@.subrange(i as int, y@.len() as int);
    if i == x.len() {
        assert(xs.len() == 0);
        true
    } else if i == y.len() {
        assert(ys.len() == 0 && xs.len() > 0);
        false
    } else {
        assert(xs[0] == x@[i as int] && ys[0] == y@[i as int]);
        x[i] < y[i]
    }
}

/// `(rank, text)` keys in tuple order.
pub open spec fn key_le(a: (u8, Seq<char>), b: (u8, Seq<char>)) -> bool {
    a.0 < b.0 || (a.0 == b.0 && lex_le(a.1, b.1))
}

/// Keys in ascending order.
pub open spec fn sorted_keys(s: Seq<(u8, Seq<char>)>) -> bool {
    forall|i: int, j: int| 0 <= i < j < s.len() ==> key_le(#[trigger] s[i], #[trigger] s[j])
}

pub open spec fn keys_view(v: Seq<(u8, String)>) -> Seq<(u8, Seq<char>)> {
    v.map_values(|p: (u8, String)| (p.0, p.1@))
}

proof fn lemma_key_total(a: (u8, Seq<char>), b: (u8, Seq<char>))
    ensures
        key_le(a, b) || key_le(b, a),
{
    lemma_lex_total(a.1, b.1);
}

proof fn lemma_key_trans(a: (u8, Seq<char>), b: (u8, Seq<char>), c: (u8, Seq<char>))
    requires
        key_le(a, b),
        key_le(b, c),
    ensures
        key_le(a, c),
{
    if a.0 == b.0 && b.0 == c.0 {
        lemma_lex_trans(a.1, b.1, c.1);
    }
}

fn key_le_exec(a: &(u8, String), b: &(u8, String)) -> (r: bool)
    ensures
        r == key_le((a.0, a.1@), (b.0, b.1@)),
{
    a.0 < b.0 || (a.0 == b.0 && lex_le_exec(a.1.as_str(), b.1.as_str()))
}

/// Sorts `(rank, text)` pairs by rank, then by text.
pub fn sort_by_rank_then_text(items: Vec<(u8, String)>) -> (r: Vec<(u8, String)>)
    ensures
        sorted_keys(keys_view(r@)),
        keys_view(r@).to_multiset() == keys_view(items@).to_multiset(),
{
    let mut out: Vec<(u8, String)> = Vec::new();
    let mut items = items;
    let ghost all = keys_view(items@);
    let mut taken: usize = 0;
    let n = items.len();
    proof {
        assert(all.take(0) =~= Seq::<(u8, Seq<char>)>::empty());
        assert(keys_view(out@) =~= Seq::<(u8, Seq<char>)>::empty());
    }
    while items.len() > 0
        invariant
            taken + items@.len() == n,
            n == all.len(),
            keys_view(items@) == all.subrange(taken as int, n as int),
            sorted_keys(keys_view(out@)),
            keys_view(out@).to_multiset() == all.take(taken as int).to_multiset(),
        decreases items@.len(),
    {
        let ghost old_items = items@;
        let item = items.remove(0);
        proof {
            assert(keys_view(old_items)[0] == (old_items[0].0, old_items[0].1@));
            assert(all.subrange(taken as int, n as int)[0] == all[taken as int]);
            assert(all[taken as int] == (item.0, item.1@));
            assert forall|k: int| 0 <= k < items@.len() implies #[trigger] keys_view(items@)[k] == all[taken + 1 + k] by {
                assert(items@[k] == old_items[k + 1]);
                assert(keys_view(old_items)[k + 1] == all.subrange(taken as int, n as int)[k + 1]);
            }
            assert(keys_view(items@) =~= all.subrange(taken + 1, n as int));
        }
        let ghost x = (item.0, item.1@);
        let ghost before = keys_view(out@);
        let mut p: usize = 0;
        while p < out.len() && key_le_exec(&out[p], &item)
            invariant
                p <= out@.len(),
                before == keys_view(out@),
                x == (item.0, item.1@),
                forall|k: int| 0 <= k < p ==> key_le(#[trigger] before[k], x),
            decreases out@.len() - p,
        {
            p = p + 1;
        }
        proof {
            if p < before.len() {
                lemma_key_total(before[p as int], x);
                assert(key_le(x, before[p as int]));
                assert forall|k: int| p <= k < before.len() implies key_le(x, #[trigger] before[k]) by {
                    if k > p {
                        lemma_key_trans(x, before[p as int], before[k]);
                    }
                }
            }
        }
        out.insert(p, item);
        proof {
            let after = keys_view(out@);
            assert(after =~= before.insert(p as int, x));
            assert forall|i: int, j: int| 0 <= i < j < after.len() implies key_le(#[trigger] after[i], #[trigger] after[j]) by {
                if j < p {
                } else if j == p {
                    assert(after[i] == before[i]);
                } else if i < p {
                    assert(after[j] == before[j - 1]);
                    assert(after[i] == before[i]);
                    assert(key_le(before[i], x));
                    assert(key_le(x, before[j - 1]));
                    lemma_key_trans(before[i], x, before[j - 1]);
                } else if i == p {
                    assert(after[j] == before[j - 1]);
                } else {
                    assert(after[i] == before[i - 1]);
                    assert(after[j] == before[j - 1]);
                }
            }
            vstd::seq_lib::to_multiset_insert(before, p as int, x);
            assert(all.take(taken + 1) =~= all.take(taken as int).push(x));
            vstd::seq_lib::to_multiset_build(all.take(taken as int), x);
        }
        taken = taken + 1;
    }
    proof {
        assert(all.take(n as int) =~= all);
    }
    out
}

pub open spec fn texts_view(v: Seq<String>) -> Seq<Seq<char>> {
    v.map_values(|t: String| t@)
}

/// Each text with its rank.
pub open spec fn ranked(texts: Seq<Seq<char>>, rank: spec_fn(Seq<char>) -> u8) -> Seq<(u8, Seq<char>)> {
    texts.map_values(|t: Seq<char>| (rank(t), t))
}

/// `out` holds the texts of `input`, each as often, ordered by rank and then text.
pub open spec fn sorted_by_rank(out: Seq<Seq<char>>, input: Seq<Seq<char>>, rank: spec_fn(Seq<char>) -> u8) -> bool {
    &&& sorted_keys(ranked(out, rank))
    &&& ranked(out, rank).to_multiset() == ranked(input, rank).to_multiset()
}


pub proof fn lemma_lex_refl(a: Seq<char>)
    ensures
        lex_le(a, a),
    decreases a.len(),
{
    if a.len() > 0 {
        lemma_lex_refl(a.drop_first());
    }
}

/// The tuple order of `(rank, text)` keys as a relation.
pub open spec fn key_leq() -> spec_fn((u8, Seq<char>), (u8, Seq<char>)) -> bool {
    |x: (u8, Seq<char>), y: (u8, Seq<char>)| key_le(x, y)
}

pub proof fn lemma_key_total_ordering()
    ensures
        vstd::relations::total_ordering(key_leq()),
{
    let leq = key_leq();
    assert forall|x: (u8, Seq<char>)| #[trigger] leq(x, x) by {
        lemma_lex_refl(x.1);
    }
    assert forall|x: (u8, Seq<char>), y: (u8, Seq<char>)| #[trigger] leq(x, y) && #[trigger] leq(y, x) implies x == y by {
        if x.0 == y.0 {
            lemma_lex_antisym(x.1, y.1);
        }
    }
    assert forall|x: (u8, Seq<char>), y: (u8, Seq<char>), z: (u8, Seq<char>)|
        #[trigger] leq(x, y) && #[trigger] leq(y, z) implies leq(x, z) by {
        lemma_key_trans(x, y, z);
    }
    assert forall|x: (u8, Seq<char>), y: (u8, Seq<char>)| #[trigger] leq(x, y) || #[trigger] leq(y, x) by {
        lemma_key_total(x, y);
    }
}

/// A text ranked by `rank` occurs in `ranked(a, rank)` as often as the text occurs in `a`.
pub proof fn lemma_ranked_count(a: Seq<Seq<char>>, rank: spec_fn(Seq<char>) -> u8, p: (u8, Seq<char>))
    ensures
        ranked(a, rank).to_multiset().count(p) == if p.0 == rank(p.1) { a.to_multiset().count(p.1) } else { 0 },
    decreases a.len(),
{
    broadcast use vstd::seq_lib::group_to_multiset_ensures;
    if a.len() == 0 {
        assert(ranked(a, rank) =~= Seq::<(u8, Seq<char>)>::empty());
    } else {
        let a0 = a.drop_last();
        lemma_ranked_count(a0, rank, p);
        assert(ranked(a, rank) =~= ranked(a0, rank).push((rank(a.last()), a.last())));
        assert(a =~= a0.push(a.last()));
        vstd::seq_lib::to_multiset_build(ranked(a0, rank), (rank(a.last()), a.last()));
        vstd::seq_lib::to_multiset_build(a0, a.last());
    }
}

/// Texts with the same members, each as often, rank to pairs with the same members.
pub proof fn lemma_ranked_multiset(a: Seq<Seq<char>>, b: Seq<Seq<char>>, rank: spec_fn(Seq<char>) -> u8)
    requires
        a.to_multiset() == b.to_multiset(),
    ensures
        ranked(a, rank).to_multiset() == ranked(b, rank).to_multiset(),
{
    assert forall|p: (u8, Seq<char>)| ranked(a, rank).to_multiset().count(p) == ranked(b, rank).to_multiset().count(p) by {
        lemma_ranked_count(a, rank, p);
        lemma_ranked_count(b, rank, p);
    }
    assert(ranked(a, rank).to_multiset() =~= ranked(b, rank).to_multiset());
}

/// Two orderings by rank and text of texts with the same members are the same.
pub proof fn lemma_sorted_by_rank_unique(
    o1: Seq<Seq<char>>,
    o2: Seq<Seq<char>>,
    a: Seq<Seq<char>>,
    b: Seq<Seq<char>>,
    rank: spec_fn(Seq<char>) -> u8,
)
    requires
        sorted_by_rank(o1, a, rank),
        sorted_by_rank(o2, b, rank),
        a.to_multiset() == b.to_multiset(),
    ensures
        o1 == o2,
{
    lemma_ranked_multiset(a, b, rank);
    lemma_key_total_ordering();
    let r1 = ranked(o1, rank);
    let r2 = ranked(o2, rank);
    assert(vstd::relations::sorted_by(r1, key_leq())) by {
        assert forall|i: int, j: int| 0 <= i < j < r1.len() implies #[trigger] key_leq()(r1[i], r1[j]) by {
            assert(key_le(r1[i], r1[j]));
        }
    }
    assert(vstd::relations::sorted_by(r2, key_leq())) by {
        assert forall|i: int, j: int| 0 <= i < j < r2.len() implies #[trigger] key_leq()(r2[i], r2[j]) by {
            assert(key_le(r2[i], r2[j]));
        }
    }
    vstd::seq_lib::lemma_sorted_unique(r1, r2, key_leq());
    assert(o1.len() == r1.len() && o2.len() == r2.len());
    assert forall|i: int| 0 <= i < o1.len() implies o1[i] == o2[i] by {
        assert(r1[i].1 == o1[i]);
        assert(r2[i].1 == o2[i]);
    }
    assert(o1 =~= o2);
}

/// Any texts can be ordered by rank and then text.
pub proof fn lemma_sorted_by_rank_exists(a: Seq<Seq<char>>, rank: spec_fn(Seq<char>) -> u8)
    ensures
        exists|o: Seq<Seq<char>>| sorted_by_rank(o, a, rank),
{
    broadcast use vstd::seq_lib::group_to_multiset_ensures;
    lemma_key_total_ordering();
    let ra = ranked(a, rank);
    let s = ra.sort_by(key_leq());
    ra.lemma_sort_by_ensures(key_leq());
    let o = s.map_values(|p: (u8, Seq<char>)| p.1);
    assert forall|i: int| 0 <= i < s.len() implies (#[trigger] s[i]).0 == rank(s[i].1) by {
        assert(s.to_multiset().count(s[i]) > 0);
        assert(ra.to_multiset().count(s[i]) > 0);
        assert(ra.contains(s[i]));
        let j = choose|j: int| 0 <= j < ra.len() && ra[j] == s[i];
        assert(ra[j] == (rank(a[j]), a[j]));
    }
    assert(ranked(o, rank) =~= s);
    assert(sorted_keys(ranked(o, rank))) by {
        assert forall|i: int, j: int| 0 <= i < j < s.len() implies key_le(#[trigger] s[i], #[trigger] s[j]) by {
            assert(key_leq()(s[i], s[j]));
        }
    }
    assert(sorted_by_rank(o, a, rank));
}

/// Drops the ranks of sorted pairs whose ranks are those of their texts.
pub fn strip_ranks(pairs: Vec<(u8, String)>, Ghost(rank): Ghost<spec_fn(Seq<char>) -> u8>) -> (r: Vec<String>)
    requires
        forall|k: int| 0 <= k < pairs@.len() ==> (#[trigger] pairs@[k]).0 == rank(pairs@[k].1@),
    ensures
        ranked(texts_view(r@), rank) == keys_view(pairs@),
{
    let ghost all = pairs@;
    let mut out: Vec<String> = Vec::new();
    let mut i: usize = 0;
    let n = pairs.len();
    while i < n
        invariant
            n == all.len(),
            i <= n,
            pairs@.len() == n,
            forall|k: int| i <= k < n ==> #[trigger] pairs@[k] == all[k],
            forall|k: int| 0 <= k < all.len() ==> (#[trigger] all[k]).0 == rank(all[k].1@),
            out@.len() == i,
            forall|k: int| 0 <= k < i ==> (#[trigger] out@[k])@ == all[k].1@,
        decreases n - i,
    {
        let text = pairs[i].1.clone();
        out.push(text);
        i = i + 1;
    }
    proof {
        assert(ranked(texts_view(out@), rank) =~= keys_view(all));
    }
    out
}

/// Sorting keeps every pair, so pairs ranked by their texts stay so.
pub proof fn lemma_sorted_stays_ranked(sorted: Seq<(u8, String)>, input: Seq<(u8, String)>, rank: spec_fn(Seq<char>) -> u8)
    requires
        keys_view(sorted).to_multiset() == keys_view(input).to_multiset(),
        forall|k: int| 0 <= k < input.len() ==> (#[trigger] input[k]).0 == rank(input[k].1@),
    ensures
        forall|k: int| 0 <= k < sorted.len() ==> (#[trigger] sorted[k]).0 == rank(sorted[k].1@),
{
    assert forall|k: int| 0 <= k < sorted.len() implies (#[trigger] sorted[k]).0 == rank(sorted[k].1@) by {
        let x = keys_view(sorted)[k];
        vstd::seq_lib::to_multiset_contains(keys_view(sorted), x);
        vstd::seq_lib::to_multiset_contains(keys_view(input), x);
        assert(keys_view(sorted).contains(x));
        assert(keys_view(input).contains(x));
        let j = choose|j: int| 0 <= j < keys_view(input).len() && keys_view(input)[j] == x;
        assert(input[j].0 == rank(input[j].1@));
    }
}

/// Orders texts by `rank` and then by text.
pub fn sort_texts_by_rank(texts: Vec<String>, ranks: Vec<u8>, Ghost(rank): Ghost<spec_fn(Seq<char>) -> u8>) -> (r: Vec<String>)
    requires
        ranks@.len() == texts@.len(),
        forall|k: int| 0 <= k < texts@.len() ==> #[trigger] ranks@[k] == rank(texts@[k]@),
    ensures
        sorted_by_rank(texts_view(r@), texts_view(texts@), rank),
{
    let mut pairs: Vec<(u8, String)> = Vec::new();
    let ghost tv = texts_view(texts@);
    let n = texts.len();
    let mut i: usize = 0;
    while i < n
        invariant
            n == tv.len(),
            i <= n,
            texts@.len() == n,
            ranks@.len() == n,
            forall|k: int| i <= k < n ==> (#[trigger] texts@[k])@ == tv[k],
            forall|k: int| 0 <= k < n ==> #[trigger] ranks@[k] == rank(tv[k]),
            keys_view(pairs@) == ranked(tv.take(i as int), rank),
            forall|k: int| 0 <= k < pairs@.len() ==> (#[trigger] pairs@[k]).0 == rank(pairs@[k].1@),
        decreases n - i,
    {
        let text = texts[i].clone();
        let ghost before = pairs@;
        pairs.push((ranks[i], text));
        proof {
            assert(keys_view(pairs@) =~= keys_view(before).push((rank(tv[i as int]), tv[i as int])));
            assert(ranked(tv.take(i + 1), rank) =~= ranked(tv.take(i as int), rank).push((rank(tv[i as int]), tv[i as int])));
        }
        i = i + 1;
    }
    proof {
        assert(tv.take(n as int) =~= tv);
    }
    let ghost unsorted = pairs@;
    let sorted = sort_by_rank_then_text(pairs);
    proof {
        lemma_sorted_stays_ranked(sorted@, unsorted, rank);
    }
    strip_ranks(sorted, Ghost(rank))
}

} // verus!
