use vstd::prelude::*;

verus! {

/// The mapping that a list of entries stands for, given as the entries' keys and, in the
/// same order, their values. It is meant for lists in which no key occurs twice.
pub open spec fn assoc<V>(keys: Seq<Seq<char>>, values: Seq<V>) -> Map<Seq<char>, V> {
    Map::new(|k: Seq<char>| keys.contains(k), |k: Seq<char>| values[keys.index_of(k)])
}

/// Each entry of the list is an entry of the mapping.
pub proof fn lemma_assoc_at<V>(keys: Seq<Seq<char>>, values: Seq<V>, i: int)
    requires
        keys.no_duplicates(),
        keys.len() == values.len(),
        0 <= i < keys.len(),
    ensures
        assoc(keys, values).dom().contains(keys[i]),
        assoc(keys, values)[keys[i]] == values[i],
        keys.index_of(keys[i]) == i,
{
    assert(keys.contains(keys[i]));
}

/// An entry with a new key, put at the end of the list, is inserted into the mapping.
pub proof fn lemma_assoc_push<V>(keys: Seq<Seq<char>>, values: Seq<V>, k: Seq<char>, v: V)
    requires
        keys.no_duplicates(),
        keys.len() == values.len(),
        !keys.contains(k),
    ensures
        keys.push(k).no_duplicates(),
        assoc(keys.push(k), values.push(v)) == assoc(keys, values).insert(k, v),
{
    let longer = keys.push(k);
    let n = keys.len() as int;
    assert forall|x: Seq<char>| longer.contains(x) <==> (keys.contains(x) || x == k) by {
        if keys.contains(x) {
            let j = keys.index_of(x);
            assert(longer[j] == x);
        }
        if x == k {
            assert(longer[n] == x);
        }
    }
    assert forall|x: Seq<char>| longer.contains(x) implies values.push(v)[longer.index_of(x)] == (
    if x == k {
        v
    } else {
        values[keys.index_of(x)]
    }) by {
        let j = longer.index_of(x);
        if x != k {
            assert(j < n);
            lemma_assoc_at(keys, values, j);
        }
    }
    assert(assoc(longer, values.push(v)) =~= assoc(keys, values).insert(k, v));
}

/// A new value for the entry at one place of the list is a new value for its key.
pub proof fn lemma_assoc_update<V>(keys: Seq<Seq<char>>, values: Seq<V>, i: int, v: V)
    requires
        keys.no_duplicates(),
        keys.len() == values.len(),
        0 <= i < keys.len(),
    ensures
        assoc(keys, values.update(i, v)) == assoc(keys, values).insert(keys[i], v),
{
    lemma_assoc_at(keys, values, i);
    assert forall|x: Seq<char>| keys.contains(x) implies values.update(i, v)[keys.index_of(x)]
        == (if x == keys[i] {
        v
    } else {
        values[keys.index_of(x)]
    }) by {
        let j = keys.index_of(x);
        lemma_assoc_at(keys, values, j);
    }
    assert(assoc(keys, values.update(i, v)) =~= assoc(keys, values).insert(keys[i], v));
}

} // verus!
