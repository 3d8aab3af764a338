//! Association lists with string keys, viewed as finite maps.
//!
//! The object store and the staging area both keep their entries in a vector
//! and are specified through the map that the vector denotes; the lemmas here
//! connect the two.

use vstd::prelude::*;

verus! {

/// The map denoted by an association list; a later binding wins.
pub open spec fn assoc_map<V>(s: Seq<(Seq<char>, V)>) -> Map<Seq<char>, V>
    decreases s.len(),
{
    if s.len() == 0 {
        Map::empty()
    } else {
        assoc_map(s.drop_last()).insert(s.last().0, s.last().1)
    }
}

/// No key occurs twice in the list.
pub open spec fn distinct_keys<V>(s: Seq<(Seq<char>, V)>) -> bool {
    forall|i: int, j: int| 0 <= i < j < s.len() ==> (#[trigger] s[i]).0 != (#[trigger] s[j]).0
}

/// The denoted map holds a key exactly when some list entry carries it.
pub proof fn lemma_assoc_map_contains<V>(s: Seq<(Seq<char>, V)>, k: Seq<char>)
    ensures
        assoc_map(s).contains_key(k) <==> exists|i: int| 0 <= i < s.len() && (#[trigger] s[i]).0 == k,
    decreases s.len(),
{
    if s.len() > 0 {
        let s0 = s.drop_last();
        lemma_assoc_map_contains(s0, k);
        assert(forall|i: int| 0 <= i < s0.len() ==> s0[i] == #[trigger] s[i]);
        if assoc_map(s).contains_key(k) {
            if k == s.last().0 {
                assert((s[s.len() - 1]).0 == k);
            }
        }
        if exists|i: int| 0 <= i < s.len() && (#[trigger] s[i]).0 == k {
            let i = choose|i: int| 0 <= i < s.len() && (#[trigger] s[i]).0 == k;
            if i == s.len() - 1 {
                assert(assoc_map(s).contains_key(k));
            } else {
                assert(s0[i].0 == k);
            }
        }
    }
}

/// With distinct keys, the denoted map sends each entry's key to its value.
pub proof fn lemma_assoc_map_index<V>(s: Seq<(Seq<char>, V)>, i: int)
    requires
        distinct_keys(s),
        0 <= i < s.len(),
    ensures
        assoc_map(s).contains_key(s[i].0),
        assoc_map(s)[s[i].0] == s[i].1,
    decreases s.len(),
{
    let s0 = s.drop_last();
    assert(forall|j: int| 0 <= j < s0.len() ==> s0[j] == #[trigger] s[j]);
    if i < s.len() - 1 {
        assert(distinct_keys(s0));
        lemma_assoc_map_index(s0, i);
        assert(s[i].0 != s.last().0);
    }
}

/// Appending a binding inserts it into the denoted map.
pub proof fn lemma_assoc_map_push<V>(s: Seq<(Seq<char>, V)>, k: Seq<char>, v: V)
    ensures
        assoc_map(s.push((k, v))) == assoc_map(s).insert(k, v),
{
    let s2 = s.push((k, v));
    assert(s2.drop_last() =~= s);
    assert(s2.last() == (k, v));
}

/// With distinct keys, the list and the denoted map have the same size.
pub proof fn lemma_assoc_map_len<V>(s: Seq<(Seq<char>, V)>)
    requires
        distinct_keys(s),
    ensures
        assoc_map(s).dom().len() == s.len(),
        assoc_map(s).dom().finite(),
    decreases s.len(),
{
    if s.len() > 0 {
        let s0 = s.drop_last();
        assert(forall|i: int| 0 <= i < s0.len() ==> s0[i] == #[trigger] s[i]);
        assert(distinct_keys(s0));
        lemma_assoc_map_len(s0);
        lemma_assoc_map_contains(s0, s.last().0);
        assert(!assoc_map(s0).contains_key(s.last().0));
        assert(assoc_map(s).dom() =~= assoc_map(s0).dom().insert(s.last().0));
        vstd::set::axiom_set_insert_len(assoc_map(s0).dom(), s.last().0);
    } else {
        assert(assoc_map(s).dom() =~= Set::<Seq<char>>::empty());
    }
}

/// With distinct keys, overwriting the entry that carries a key updates the
/// denoted map at that key alone.
pub proof fn lemma_assoc_map_update<V>(s: Seq<(Seq<char>, V)>, i: int, v: V)
    requires
        distinct_keys(s),
        0 <= i < s.len(),
    ensures
        assoc_map(s.update(i, (s[i].0, v))) =~= assoc_map(s).insert(s[i].0, v),
    decreases s.len(),
{
    let k = s[i].0;
    let s2 = s.update(i, (k, v));
    let s0 = s.drop_last();
    assert(forall|j: int| 0 <= j < s0.len() ==> s0[j] == #[trigger] s[j]);
    if i == s.len() - 1 {
        assert(s2.drop_last() =~= s0);
        assert(s2.last() == (k, v));
    } else {
        assert(distinct_keys(s0));
        lemma_assoc_map_update(s0, i, v);
        assert(s2.drop_last() =~= s0.update(i, (k, v)));
        assert(s2.last() == s.last());
        assert(s.last().0 != k);
        assert(assoc_map(s2) == assoc_map(s0.update(i, (k, v))).insert(s.last().0, s.last().1));
    }
}

} // verus!
