//! Association sequences as maps.
//!
//! The session structures hold their entries in vectors of key-value
//! pairs with pairwise-distinct keys; their contracts speak about the
//! [`Map`] such a sequence denotes.  This module defines that denotation
//! and the facts the operations on the vectors rely on.

use vstd::prelude::*;

verus! {

/// The map denoted by an association sequence; a later entry for the
/// same key wins, so on sequences with distinct keys every entry is
/// visible.
pub open spec fn map_of<K, V>(s: Seq<(K, V)>) -> Map<K, V>
    decreases s.len(),
{
    if s.len() == 0 {
        Map::empty()
    } else {
        map_of(s.drop_last()).insert(s.last().0, s.last().1)
    }
}

/// No two entries share a key.
pub open spec fn distinct_keys<K, V>(s: Seq<(K, V)>) -> bool {
    forall|i: int, j: int| 0 <= i < j < s.len()
        ==> (#[trigger] s[i]).0 != (#[trigger] s[j]).0
}

/// A key is in the map exactly when some entry holds it.
pub proof fn lemma_map_of_contains<K, V>(s: Seq<(K, V)>, a: K)
    ensures
        map_of(s).contains_key(a) <==> exists|i: int| 0 <= i < s.len() && (#[trigger] s[i]).0 == a,
    decreases s.len(),
{
    if s.len() > 0 {
        lemma_map_of_contains(s.drop_last(), a);
        assert(forall|i: int| 0 <= i < s.len() - 1 ==> (#[trigger] s[i]) == s.drop_last()[i]);
        if s.last().0 == a {
            assert(s[s.len() - 1].0 == a);
        } else if map_of(s).contains_key(a) {
            let i = choose|i: int| 0 <= i < s.drop_last().len() && (#[trigger] s.drop_last()[i]).0 == a;
            assert(s[i] == s.drop_last()[i]);
            assert(s[i].0 == a);
        } else {
            assert(forall|i: int| 0 <= i < s.len() ==> (#[trigger] s[i]).0 != a) by {
                assert(s[s.len() - 1].0 != a);
                assert(forall|i: int| 0 <= i < s.len() - 1
                    ==> (#[trigger] s[i]).0 == s.drop_last()[i].0);
            }
        }
    }
}

/// On distinct keys, the entry at `i` is what the map holds for its key.
pub proof fn lemma_map_of_value<K, V>(s: Seq<(K, V)>, i: int)
    requires
        distinct_keys(s),
        0 <= i < s.len(),
    ensures
        map_of(s).contains_key(s[i].0),
        map_of(s)[s[i].0] == s[i].1,
    decreases s.len(),
{
    if i == s.len() - 1 {
        assert(s.last() == s[i]);
    } else {
        assert(forall|x: int, y: int| 0 <= x < y < s.drop_last().len()
            ==> (#[trigger] s.drop_last()[x]).0 != (#[trigger] s.drop_last()[y]).0);
        lemma_map_of_value(s.drop_last(), i);
        assert(s.drop_last()[i] == s[i]);
        assert(s[i].0 != s.last().0);
    }
}

/// The map is finite, with one key per entry when keys are distinct.
pub proof fn lemma_map_of_dom<K, V>(s: Seq<(K, V)>)
    ensures
        map_of(s).dom().finite(),
        distinct_keys(s) ==> map_of(s).dom().len() == s.len(),
    decreases s.len(),
{
    if s.len() == 0 {
        assert(map_of(s).dom() =~= Set::<K>::empty());
    } else {
        lemma_map_of_dom(s.drop_last());
        if distinct_keys(s) {
            assert(forall|x: int, y: int| 0 <= x < y < s.drop_last().len()
                ==> (#[trigger] s.drop_last()[x]).0 != (#[trigger] s.drop_last()[y]).0);
            lemma_map_of_contains(s.drop_last(), s.last().0);
            assert(forall|i: int| 0 <= i < s.drop_last().len()
                ==> (#[trigger] s.drop_last()[i]).0 == (#[trigger] s[i]).0);
            assert(!map_of(s.drop_last()).contains_key(s.last().0));
        }
    }
}

/// Appending a fresh entry inserts its binding.
pub proof fn lemma_map_of_push<K, V>(s: Seq<(K, V)>, a: K, v: V)
    ensures
        map_of(s.push((a, v))) == map_of(s).insert(a, v),
{
    assert(s.push((a, v)).drop_last() =~= s);
    assert(s.push((a, v)).last() == (a, v));
}

/// Removing the entry at `i` removes its key's binding.
pub proof fn lemma_map_of_remove<K, V>(s: Seq<(K, V)>, i: int)
    requires
        distinct_keys(s),
        0 <= i < s.len(),
    ensures
        map_of(s.remove(i)) == map_of(s).remove(s[i].0),
        distinct_keys(s.remove(i)),
    decreases s.len(),
{
    assert(forall|x: int, y: int| 0 <= x < y < s.remove(i).len()
        ==> (#[trigger] s.remove(i)[x]).0 != (#[trigger] s.remove(i)[y]).0) by {
        assert(forall|x: int| 0 <= x < s.remove(i).len()
            ==> (#[trigger] s.remove(i)[x]) == (if x < i { s[x] } else { s[x + 1] }));
    }
    assert(forall|x: int, y: int| 0 <= x < y < s.drop_last().len()
        ==> (#[trigger] s.drop_last()[x]).0 != (#[trigger] s.drop_last()[y]).0);
    if i == s.len() - 1 {
        assert(s.remove(i) =~= s.drop_last());
        lemma_map_of_contains(s.drop_last(), s.last().0);
        assert(forall|x: int| 0 <= x < s.drop_last().len()
            ==> (#[trigger] s.drop_last()[x]).0 == (#[trigger] s[x]).0);
        assert(!map_of(s.drop_last()).contains_key(s.last().0));
        assert(map_of(s.drop_last()).insert(s.last().0, s.last().1).remove(s.last().0)
            =~= map_of(s.drop_last()));
    } else {
        assert(s.remove(i).drop_last() =~= s.drop_last().remove(i));
        assert(s.remove(i).last() == s.last());
        lemma_map_of_remove(s.drop_last(), i);
        assert(s.drop_last()[i] == s[i]);
        assert(s[i].0 != s.last().0);
        assert(map_of(s.drop_last()).remove(s[i].0).insert(s.last().0, s.last().1)
            =~= map_of(s.drop_last()).insert(s.last().0, s.last().1).remove(s[i].0));
    }
}

/// Replacing the value at `i`, keeping its key, updates its binding.
pub proof fn lemma_map_of_update<K, V>(s: Seq<(K, V)>, i: int, v: V)
    requires
        distinct_keys(s),
        0 <= i < s.len(),
    ensures
        map_of(s.update(i, (s[i].0, v))) == map_of(s).insert(s[i].0, v),
        distinct_keys(s.update(i, (s[i].0, v))),
    decreases s.len(),
{
    let t = s.update(i, (s[i].0, v));
    assert(forall|x: int| 0 <= x < t.len()
        ==> (#[trigger] t[x]).0 == (#[trigger] s[x]).0);
    assert(forall|x: int, y: int| 0 <= x < y < s.drop_last().len()
        ==> (#[trigger] s.drop_last()[x]).0 != (#[trigger] s.drop_last()[y]).0);
    if i == s.len() - 1 {
        assert(t.drop_last() =~= s.drop_last());
        assert(t.last() == (s[i].0, v));
        assert(map_of(s.drop_last()).insert(s[i].0, v)
            =~= map_of(s.drop_last()).insert(s.last().0, s.last().1).insert(s[i].0, v));
    } else {
        assert(t.drop_last() =~= s.drop_last().update(i, (s[i].0, v)));
        assert(t.last() == s.last());
        lemma_map_of_update(s.drop_last(), i, v);
        assert(s.drop_last()[i] == s[i]);
        assert(s[i].0 != s.last().0);
        assert(map_of(s.drop_last()).insert(s[i].0, v).insert(s.last().0, s.last().1)
            =~= map_of(s.drop_last()).insert(s.last().0, s.last().1).insert(s[i].0, v));
    }
}

} // verus!
