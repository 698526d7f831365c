use crate::assoc::{assoc, lemma_assoc_at};
use vstd::prelude::*;

verus! {

/// Strict lexicographic order on strings, character by character, by code point.
pub open spec fn lex_less(a: Seq<char>, b: Seq<char>) -> bool
    decreases a.len(),
{
    if b.len() == 0 {
        false
    } else if a.len() == 0 {
        true
    } else if a[0] != b[0] {
        a[0] < b[0]
    } else {
        lex_less(a.drop_first(), b.drop_first())
    }
}

/// The order of a ranking, on entries of a name and a line count: the higher count comes
/// first, and of two entries with the same count the one whose name is lexicographically
/// smaller.
pub open spec fn ranks_before(a: (Seq<char>, nat), b: (Seq<char>, nat)) -> bool {
    a.1 > b.1 || (a.1 == b.1 && lex_less(a.0, b.0))
}

/// `ranking` lists each entry of `counts` exactly once, in ranking order.
pub open spec fn is_ranking_of(ranking: Seq<(Seq<char>, nat)>, counts: Map<Seq<char>, nat>) -> bool {
    &&& forall|i: int|
        0 <= i < ranking.len() ==> counts.contains_pair(
            (#[trigger] ranking[i]).0,
            ranking[i].1,
        )
    &&& forall|name: Seq<char>| #[trigger]
        counts.dom().contains(name) ==> exists|i: int|
            0 <= i < ranking.len() && (#[trigger] ranking[i]).0 == name
    &&& forall|i: int, j: int|
        0 <= i < j < ranking.len() ==> ranks_before(#[trigger] ranking[i], #[trigger] ranking[j])
}

/// `order` holds each of the indices below `n` exactly once.
pub open spec fn is_index_order(order: Seq<usize>, n: nat) -> bool {
    &&& order.len() == n
    &&& order.no_duplicates()
    &&& forall|i: int| 0 <= i < order.len() ==> (#[trigger] order[i]) < n
    &&& forall|t: usize| t < n ==> #[trigger] order.contains(t)
}

/// The entry that index `t` stands for: its name and its count.
pub open spec fn key_at(counts: Seq<u32>, names: Seq<Vec<char>>, t: int) -> (Seq<char>, nat) {
    (names[t]@, counts[t] as nat)
}

proof fn lemma_split_first(a: Seq<char>)
    requires
        a.len() > 0,
    ensures
        a == seq![a[0]] + a.drop_first(),
{
    assert(a =~= seq![a[0]] + a.drop_first());
}

pub proof fn lemma_lex_less_irreflexive(a: Seq<char>)
    ensures
        !lex_less(a, a),
    decreases a.len(),
{
    if a.len() > 0 {
        lemma_lex_less_irreflexive(a.drop_first());
    }
}

pub proof fn lemma_lex_less_transitive(a: Seq<char>, b: Seq<char>, c: Seq<char>)
    requires
        lex_less(a, b),
        lex_less(b, c),
    ensures
        lex_less(a, c),
    decreases a.len(),
{
    if a.len() > 0 && a[0] == b[0] && b[0] == c[0] {
        lemma_lex_less_transitive(a.drop_first(), b.drop_first(), c.drop_first());
    }
}

/// Of two different strings one is lexicographically smaller than the other.
pub proof fn lemma_lex_less_total(a: Seq<char>, b: Seq<char>)
    requires
        a != b,
    ensures
        lex_less(a, b) || lex_less(b, a),
    decreases a.len(),
{
    if a.len() == 0 || b.len() == 0 {
        if a.len() == 0 && b.len() == 0 {
            assert(a =~= b);
        }
    } else if a[0] == b[0] {
        lemma_split_first(a);
        lemma_split_first(b);
        lemma_lex_less_total(a.drop_first(), b.drop_first());
    }
}

pub proof fn lemma_ranks_before_transitive(
    a: (Seq<char>, nat),
    b: (Seq<char>, nat),
    c: (Seq<char>, nat),
)
    requires
        ranks_before(a, b),
        ranks_before(b, c),
    ensures
        ranks_before(a, c),
{
    if a.1 == b.1 && b.1 == c.1 {
        lemma_lex_less_transitive(a.0, b.0, c.0);
    }
}

/// No entry ranks before itself, and no two entries rank before each other.
pub proof fn lemma_ranks_before_asymmetric(a: (Seq<char>, nat), b: (Seq<char>, nat))
    requires
        ranks_before(a, b),
    ensures
        !ranks_before(b, a),
{
    if ranks_before(b, a) {
        lemma_lex_less_transitive(a.0, b.0, a.0);
        lemma_lex_less_irreflexive(a.0);
    }
}

/// Of two entries with different names one ranks before the other.
pub proof fn lemma_ranks_before_total(a: (Seq<char>, nat), b: (Seq<char>, nat))
    requires
        a.0 != b.0,
    ensures
        ranks_before(a, b) || ranks_before(b, a),
{
    lemma_lex_less_total(a.0, b.0);
}

/// Whether `a` is lexicographically smaller than `b`.
pub fn text_before(a: &Vec<char>, b: &Vec<char>) -> (r: bool)
    ensures
        r == lex_less(a@, b@),
{
    let mut i: usize = 0;
    proof {
        assert(a@.skip(0) =~= a@);
        assert(b@.skip(0) =~= b@);
    }
    while i < a.len() && i < b.len() && a[i] == b[i]
        invariant
            i <= a.len(),
            i <= b.len(),
            lex_less(a@, b@) == lex_less(a@.skip(i as int), b@.skip(i as int)),
        decreases a.len() - i,
    {
        proof {
            assert(a@.skip(i as int).drop_first() =~= a@.skip(i + 1));
            assert(b@.skip(i as int).drop_first() =~= b@.skip(i + 1));
        }
        i += 1;
    }
    if i >= b.len() {
        false
    } else if i >= a.len() {
        true
    } else {
        a[i] < b[i]
    }
}

/// Whether the entry at index `a` ranks before the entry at index `b`.
fn entry_ranks_before(counts: &Vec<u32>, names: &Vec<Vec<char>>, a: usize, b: usize) -> (r: bool)
    requires
        counts.len() == names.len(),
        a < counts.len(),
        b < counts.len(),
    ensures
        r == ranks_before(key_at(counts@, names@, a as int), key_at(counts@, names@, b as int)),
{
    counts[a] > counts[b] || (counts[a] == counts[b] && text_before(&names[a], &names[b]))
}

/// The indices of the entries in ranking order: of two entries the one that ranks before
/// the other comes first, and of two entries with the same name and count the one with
/// the smaller index.
pub fn rank_order(counts: &Vec<u32>, names: &Vec<Vec<char>>) -> (order: Vec<usize>)
    requires
        counts.len() == names.len(),
    ensures
        is_index_order(order@, counts.len() as nat),
        forall|i: int, j: int|
            0 <= i < j < order.len() ==> !ranks_before(
                key_at(counts@, names@, #[trigger] order[j] as int),
                key_at(counts@, names@, #[trigger] order[i] as int),
            ),
        forall|i: int, j: int|
            0 <= i < j < order.len() && key_at(counts@, names@, #[trigger] order[i] as int)
                == key_at(counts@, names@, #[trigger] order[j] as int) ==> order[i] < order[j],
{
    let n = counts.len();
    let mut order: Vec<usize> = Vec::new();
    let mut k: usize = 0;
    while k < n
        invariant
            k <= n,
            n == counts.len(),
            n == names.len(),
            is_index_order(order@, k as nat),
            forall|i: int, j: int|
                0 <= i < j < order.len() ==> !ranks_before(
                    key_at(counts@, names@, #[trigger] order[j] as int),
                    key_at(counts@, names@, #[trigger] order[i] as int),
                ),
            forall|i: int, j: int|
                0 <= i < j < order.len() && key_at(counts@, names@, #[trigger] order[i] as int)
                    == key_at(counts@, names@, #[trigger] order[j] as int) ==> order[i]
                    < order[j],
        decreases n - k,
    {
        let mut p: usize = 0;
        while p < k && !entry_ranks_before(counts, names, k, order[p])
            invariant
                p <= k,
                k < n,
                n == counts.len(),
                n == names.len(),
                is_index_order(order@, k as nat),
                forall|i: int|
                    0 <= i < p ==> !ranks_before(
                        key_at(counts@, names@, k as int),
                        key_at(counts@, names@, #[trigger] order[i] as int),
                    ),
            decreases k - p,
        {
            p += 1;
        }
        let ghost before = order@;
        order.insert(p, k);
        proof {
            let after = order@;
            let new_key = key_at(counts@, names@, k as int);
            assert(after.len() == before.len() + 1);
            assert(after[p as int] == k);
            assert(forall|i: int| 0 <= i < p ==> after[i] == before[i]);
            assert(forall|i: int| p < i < after.len() ==> after[i] == before[i - 1]);
            assert forall|i: int| p <= i < before.len() implies !ranks_before(
                key_at(counts@, names@, #[trigger] before[i] as int),
                new_key,
            ) by {
                let here = key_at(counts@, names@, before[p as int] as int);
                let there = key_at(counts@, names@, before[i] as int);
                assert(ranks_before(new_key, here));
                if ranks_before(there, new_key) {
                    if i == p {
                        lemma_ranks_before_asymmetric(there, new_key);
                    } else {
                        lemma_ranks_before_transitive(there, new_key, here);
                    }
                }
            }
            assert forall|t: usize| t < k + 1 implies #[trigger] after.contains(t) by {
                if t == k {
                    assert(after[p as int] == t);
                } else {
                    assert(before.contains(t));
                    let i = choose|i: int| 0 <= i < before.len() && before[i] == t;
                    if i < p {
                        assert(after[i] == t);
                    } else {
                        assert(after[i + 1] == t);
                    }
                }
            }
            assert forall|i: int, j: int|
                0 <= i < after.len() && 0 <= j < after.len() && i != j implies after[i]
                != after[j] by {
                let bi = if i < p { i } else { i - 1 };
                let bj = if j < p { j } else { j - 1 };
                if i != p && j != p {
                    assert(before[bi] != before[bj]);
                }
            }
            assert forall|i: int, j: int| 0 <= i < j < after.len() implies !ranks_before(
                key_at(counts@, names@, #[trigger] after[j] as int),
                key_at(counts@, names@, #[trigger] after[i] as int),
            ) by {
                let bi = if i < p { i } else { i - 1 };
                let bj = if j < p { j } else { j - 1 };
                if i == p {
                    assert(after[j] == before[bj]);
                } else if j == p {
                    assert(after[i] == before[bi]);
                } else {
                    assert(after[i] == before[bi]);
                    assert(after[j] == before[bj]);
                }
            }
            assert forall|i: int, j: int|
                0 <= i < j < after.len() && key_at(counts@, names@, #[trigger] after[i] as int)
                    == key_at(counts@, names@, #[trigger] after[j] as int) implies after[i]
                < after[j] by {
                let bi = if i < p { i } else { i - 1 };
                let bj = if j < p { j } else { j - 1 };
                if i == p {
                    let here = key_at(counts@, names@, before[p as int] as int);
                    assert(after[j] == before[bj]);
                    assert(ranks_before(new_key, here));
                    lemma_ranks_before_asymmetric(new_key, here);
                    assert(!ranks_before(key_at(counts@, names@, before[bj] as int), new_key));
                    if bj > p {
                        assert(!ranks_before(key_at(counts@, names@, before[bj] as int), here));
                    }
                } else if j == p {
                    assert(after[i] == before[bi]);
                } else {
                    assert(after[i] == before[bi]);
                    assert(after[j] == before[bj]);
                }
            }
        }
        k += 1;
    }
    order
}

/// The names that the character vectors spell, in the same order.
pub open spec fn names_of(names: Seq<Vec<char>>) -> Seq<Seq<char>> {
    names.map_values(|name: Vec<char>| name@)
}

/// The counts as natural numbers, in the same order.
pub open spec fn counts_of(counts: Seq<u32>) -> Seq<nat> {
    counts.map_values(|count: u32| count as nat)
}

/// The entries that the indices of `order` stand for, in that order.
pub open spec fn in_order(counts: Seq<u32>, names: Seq<Vec<char>>, order: Seq<usize>) -> Seq<
    (Seq<char>, nat),
> {
    Seq::new(order.len(), |i: int| key_at(counts, names, order[i] as int))
}

/// Where no name occurs twice, the entries taken in an order without inversions form the
/// ranking of the mapping that the entries stand for.
pub proof fn lemma_order_is_ranking(counts: Seq<u32>, names: Seq<Vec<char>>, order: Seq<usize>)
    requires
        counts.len() == names.len(),
        counts.len() <= usize::MAX,
        names_of(names).no_duplicates(),
        is_index_order(order, counts.len()),
        forall|i: int, j: int|
            0 <= i < j < order.len() ==> !ranks_before(
                key_at(counts, names, #[trigger] order[j] as int),
                key_at(counts, names, #[trigger] order[i] as int),
            ),
    ensures
        is_ranking_of(in_order(counts, names, order), assoc(names_of(names), counts_of(counts))),
{
    let ranking = in_order(counts, names, order);
    let keys = names_of(names);
    let values = counts_of(counts);
    let mapping = assoc(keys, values);
    assert forall|i: int| 0 <= i < ranking.len() implies mapping.contains_pair(
        (#[trigger] ranking[i]).0,
        ranking[i].1,
    ) by {
        lemma_assoc_at(keys, values, order[i] as int);
    }
    assert forall|name: Seq<char>| #[trigger] mapping.dom().contains(name) implies exists|i: int|
        0 <= i < ranking.len() && (#[trigger] ranking[i]).0 == name by {
        assert(keys.contains(name));
        let t = keys.index_of(name);
        assert(0 <= t < keys.len() && keys[t] == name);
        assert(order.contains(t as usize));
        let i = choose|i: int| 0 <= i < order.len() && order[i] == t as usize;
        assert(order[i] as int == t);
        assert(ranking[i] == key_at(counts, names, t));
        assert(ranking[i].0 == name);
    }
    assert forall|i: int, j: int| 0 <= i < j < ranking.len() implies ranks_before(
        #[trigger] ranking[i],
        #[trigger] ranking[j],
    ) by {
        assert(order[i] != order[j]);
        assert(keys[order[i] as int] != keys[order[j] as int]);
        lemma_ranks_before_total(ranking[i], ranking[j]);
        assert(!ranks_before(
            key_at(counts, names, order[j] as int),
            key_at(counts, names, order[i] as int),
        ));
    }
}

/// In a ranking the counts never grow from one entry to a later one.
pub proof fn lemma_ranking_counts_fall(ranking: Seq<(Seq<char>, nat)>, counts: Map<Seq<char>, nat>)
    requires
        is_ranking_of(ranking, counts),
    ensures
        forall|i: int, j: int|
            0 <= i <= j < ranking.len() ==> (#[trigger] ranking[i]).1 >= (#[trigger] ranking[j]).1,
{
}

/// A mapping has one ranking only.
pub proof fn lemma_ranking_is_unique(
    one: Seq<(Seq<char>, nat)>,
    other: Seq<(Seq<char>, nat)>,
    counts: Map<Seq<char>, nat>,
)
    requires
        is_ranking_of(one, counts),
        is_ranking_of(other, counts),
    ensures
        one == other,
    decreases one.len(),
{
    if one.len() == 0 {
        if other.len() > 0 {
            assert(counts.dom().contains(other[0].0));
        }
        assert(one =~= other);
    } else if other.len() == 0 {
        assert(counts.dom().contains(one[0].0));
    } else {
        // The entry that ranks first in one ranking ranks first in the other.
        let a = one[0];
        let b = other[0];
        assert(counts.dom().contains(a.0));
        assert(counts.dom().contains(b.0));
        let i = choose|i: int| 0 <= i < other.len() && (#[trigger] other[i]).0 == a.0;
        let j = choose|j: int| 0 <= j < one.len() && (#[trigger] one[j]).0 == b.0;
        assert(other[i] == a);
        assert(one[j] == b);
        if i != 0 && j != 0 {
            assert(ranks_before(other[0], other[i]));
            assert(ranks_before(one[0], one[j]));
            lemma_ranks_before_asymmetric(a, b);
        }
        if i != 0 && j == 0 {
            assert(ranks_before(other[0], other[i]));
            lemma_ranks_before_asymmetric(a, a);
        }
        if i == 0 && j != 0 {
            assert(ranks_before(one[0], one[j]));
            lemma_ranks_before_asymmetric(b, b);
        }
        assert(a == b);
        let rest = counts.remove(a.0);
        lemma_rest_of_ranking(one, counts);
        lemma_rest_of_ranking(other, counts);
        lemma_ranking_is_unique(one.drop_first(), other.drop_first(), rest);
        assert(one =~= seq![a] + one.drop_first());
        assert(other =~= seq![b] + other.drop_first());
    }
}

/// A ranking without its first entry is the ranking of the mapping without that entry.
proof fn lemma_rest_of_ranking(ranking: Seq<(Seq<char>, nat)>, counts: Map<Seq<char>, nat>)
    requires
        is_ranking_of(ranking, counts),
        ranking.len() > 0,
    ensures
        is_ranking_of(ranking.drop_first(), counts.remove(ranking[0].0)),
{
    let rest = ranking.drop_first();
    let fewer = counts.remove(ranking[0].0);
    assert forall|i: int| 0 <= i < rest.len() implies fewer.contains_pair(
        (#[trigger] rest[i]).0,
        rest[i].1,
    ) by {
        assert(rest[i] == ranking[i + 1]);
        assert(ranks_before(ranking[0], ranking[i + 1]));
        lemma_lex_less_irreflexive(ranking[0].0);
    }
    assert forall|name: Seq<char>| #[trigger] fewer.dom().contains(name) implies exists|i: int|
        0 <= i < rest.len() && (#[trigger] rest[i]).0 == name by {
        assert(counts.dom().contains(name));
        let i = choose|i: int| 0 <= i < ranking.len() && (#[trigger] ranking[i]).0 == name;
        assert(rest[i - 1] == ranking[i]);
    }
    assert forall|i: int, j: int| 0 <= i < j < rest.len() implies ranks_before(
        #[trigger] rest[i],
        #[trigger] rest[j],
    ) by {
        assert(rest[i] == ranking[i + 1]);
        assert(rest[j] == ranking[j + 1]);
    }
}

} // verus!
