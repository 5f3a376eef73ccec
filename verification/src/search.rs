//! Search hit sources: which index a hit came from, how sources rank, and
//! the label of a hit found by several.

use vstd::prelude::*;
use crate::native::{starts_with, starts_with_exec};
use crate::order::{lemma_sorted_by_rank_exists, lemma_sorted_by_rank_unique, sort_texts_by_rank, sorted_by_rank, texts_view};
use crate::text::{append_str, push_char, str_eq};

verus! {

/// The index family of a hit source: vector search, full-text search, or other.
pub open spec fn source_family_spec(source: Seq<char>) -> Seq<char> {
    if starts_with(source, "vss"@) {
        "vss"@
    } else if starts_with(source, "fts"@) {
        "fts"@
    } else {
        "other"@
    }
}

/// The family of a hit source.
pub fn source_family(source: &str) -> (r: &'static str)
    ensures
        r@ == source_family_spec(source@),
{
    if starts_with_exec(source, "vss") {
        "vss"
    } else if starts_with_exec(source, "fts") {
        "fts"
    } else {
        "other"
    }
}

/// Full-text sources come first in a label, vector sources next, others last.
pub open spec fn source_label_rank_spec(source: Seq<char>) -> u8 {
    if starts_with(source, "vss"@) {
        1
    } else if starts_with(source, "fts"@) {
        0
    } else {
        2
    }
}

/// The place of a source in a combined label.
pub fn source_label_rank(source: &str) -> (r: u8)
    ensures
        r == source_label_rank_spec(source@),
{
    if starts_with_exec(source, "vss") {
        1
    } else if starts_with_exec(source, "fts") {
        0
    } else {
        2
    }
}

/// Texts joined with `sep` between them.
pub open spec fn join_with(parts: Seq<Seq<char>>, sep: char) -> Seq<char>
    decreases parts.len(),
{
    if parts.len() == 0 {
        Seq::empty()
    } else if parts.len() == 1 {
        parts[0]
    } else {
        parts[0] + seq![sep] + join_with(parts.drop_first(), sep)
    }
}

fn join_strings(parts: &Vec<String>, sep: char) -> (s: String)
    ensures
        s@ == join_with(texts_view(parts@), sep),
{
    let ghost pv = texts_view(parts@);
    let n = parts.len();
    let mut i: usize = n;
    // Builds the join from the back: `acc` is the join of `parts[i..]`.
    let mut acc = String::new();
    while i > 0
        invariant
            i <= n,
            n == pv.len(),
            pv == texts_view(parts@),
            acc@ == join_with(pv.subrange(i as int, n as int), sep),
        decreases i,
    {
        let mut next = parts[i - 1].clone();
        let ghost rest = pv.subrange(i as int, n as int);
        if i < n {
            push_char(&mut next, sep);
            append_str(&mut next, acc.as_str());
        }
        proof {
            let whole = pv.subrange(i - 1, n as int);
            assert(whole[0] == pv[i - 1]);
            assert(whole.drop_first() =~= rest);
            if i < n {
                assert(next@ =~= whole[0] + seq![sep] + join_with(whole.drop_first(), sep));
            } else {
                assert(whole.len() == 1);
            }
        }
        acc = next;
        i = i - 1;
    }
    proof {
        assert(pv.subrange(0, n as int) =~= pv);
    }
    acc
}

/// The label rank as a function of the source.
pub open spec fn label_rank() -> spec_fn(Seq<char>) -> u8 {
    |s: Seq<char>| source_label_rank_spec(s)
}

/// The sources ordered by label rank and then by name, each as often as given.
pub open spec fn label_order(labels: Seq<Seq<char>>) -> Seq<Seq<char>> {
    choose|o: Seq<Seq<char>>| sorted_by_rank(o, labels, label_rank())
}

/// `o` is the ordering that [`label_order`] names.
pub proof fn lemma_label_order(o: Seq<Seq<char>>, labels: Seq<Seq<char>>)
    requires
        sorted_by_rank(o, labels, label_rank()),
    ensures
        label_order(labels) == o,
{
    let c = label_order(labels);
    assert(sorted_by_rank(c, labels, label_rank()));
    lemma_sorted_by_rank_unique(c, o, labels, labels, label_rank());
}

/// The sources of a hit, ordered by label rank and then by name, joined with `+`.
pub fn combined_source_label(source_labels: &[String]) -> (r: String)
    ensures
        sorted_by_rank(label_order(texts_view(source_labels@)), texts_view(source_labels@), label_rank()),
        r@ == join_with(label_order(texts_view(source_labels@)), '+'),
{
    let mut labels: Vec<String> = Vec::new();
    let mut ranks: Vec<u8> = Vec::new();
    let mut i: usize = 0;
    while i < source_labels.len()
        invariant
            i <= source_labels@.len(),
            labels@.len() == i,
            ranks@.len() == i,
            forall|k: int| 0 <= k < i ==> (#[trigger] labels@[k])@ == source_labels@[k]@,
            forall|k: int| 0 <= k < i ==> #[trigger] ranks@[k] == label_rank()(labels@[k]@),
        decreases source_labels@.len() - i,
    {
        labels.push(source_labels[i].clone());
        ranks.push(source_label_rank(source_labels[i].as_str()));
        i = i + 1;
    }
    proof {
        assert(texts_view(labels@) =~= texts_view(source_labels@));
    }
    let sorted = sort_texts_by_rank(labels, ranks, Ghost(label_rank()));
    let r = join_strings(&sorted, '+');
    proof {
        lemma_label_order(texts_view(sorted@), texts_view(source_labels@));
    }
    r
}

/// The combined label of a hit does not depend on the order in which its
/// sources were found: sources with the same members, each as often, give
/// the same label.
pub proof fn law_label_ignores_source_order(a: Seq<Seq<char>>, b: Seq<Seq<char>>)
    requires
        a.to_multiset() == b.to_multiset(),
    ensures
        join_with(label_order(a), '+') == join_with(label_order(b), '+'),
{
    lemma_sorted_by_rank_exists(a, label_rank());
    lemma_sorted_by_rank_exists(b, label_rank());
    let oa = choose|o: Seq<Seq<char>>| sorted_by_rank(o, a, label_rank());
    let ob = choose|o: Seq<Seq<char>>| sorted_by_rank(o, b, label_rank());
    lemma_label_order(oa, a);
    lemma_label_order(ob, b);
    lemma_sorted_by_rank_unique(oa, ob, a, b, label_rank());
}

/// How many hits of each source family were seen so far.
pub struct SourceRanks {
    pub vss: usize,
    pub fts: usize,
    pub other: usize,
}

pub open spec fn sat_inc(n: usize) -> usize {
    if n < usize::MAX { (n + 1) as usize } else { usize::MAX }
}

/// Counts one more hit of `family` and returns its rank within the family
/// (one for the first hit).
pub fn next_source_rank(ranks: &mut SourceRanks, family: &str) -> (r: usize)
    ensures
        family@ == "vss"@ ==> r == sat_inc(old(ranks).vss) && *final(ranks) == (SourceRanks { vss: r, ..*old(ranks) }),
        family@ != "vss"@ && family@ == "fts"@ ==> r == sat_inc(old(ranks).fts) && *final(ranks) == (SourceRanks {
            fts: r,
            ..*old(ranks)
        }),
        family@ != "vss"@ && family@ != "fts"@ ==> r == sat_inc(old(ranks).other) && *final(ranks) == (SourceRanks {
            other: r,
            ..*old(ranks)
        }),
{
    if str_eq(family, "vss") {
        ranks.vss = if ranks.vss < usize::MAX { ranks.vss + 1 } else { usize::MAX };
        ranks.vss
    } else if str_eq(family, "fts") {
        ranks.fts = if ranks.fts < usize::MAX { ranks.fts + 1 } else { usize::MAX };
        ranks.fts
    } else {
        ranks.other = if ranks.other < usize::MAX { ranks.other + 1 } else { usize::MAX };
        ranks.other
    }
}

} // verus!
