//! A sequence of key-value pairs with distinct keys, viewed as a `Map`.
//!
//! Both the user table of the store and the translation memo hold their
//! entries this way; their contracts speak of the map alone.

use vstd::prelude::*;

verus! {

/// The map a pair sequence denotes; a later entry for the same key wins.
pub open spec fn pairs_map<K, V>(s: Seq<(K, V)>) -> Map<K, V>
    decreases s.len(),
{
    if s.len() == 0 {
        Map::empty()
    } else {
        pairs_map(s.drop_last()).insert(s.last().0, s.last().1)
    }
}

/// No two entries share a key.
pub open spec fn keys_unique<K, V>(s: Seq<(K, V)>) -> bool {
    forall|i: int, j: int| 0 <= i < j < s.len() ==> (#[trigger] s[i]).0 != (#[trigger] s[j]).0
}

/// Replacing the value at position `i` is an insert for that entry's key.
pub proof fn lemma_pairs_map_update<K, V>(s: Seq<(K, V)>, i: int, v: V)
    requires
        0 <= i < s.len(),
        keys_unique(s),
    ensures
        pairs_map(s.update(i, (s[i].0, v))) == pairs_map(s).insert(s[i].0, v),
    decreases s.len(),
{
    let row = (s[i].0, v);
    let t = s.update(i, row);
    if i == s.len() - 1 {
        assert(t.drop_last() =~= s.drop_last());
        assert(t.last() == row);
        assert(pairs_map(s.drop_last()).insert(s[i].0, s[i].1).insert(s[i].0, v)
            =~= pairs_map(s.drop_last()).insert(s[i].0, v));
    } else {
        assert(t.drop_last() =~= s.drop_last().update(i, row));
        assert(t.last() == s.last());
        lemma_pairs_map_update(s.drop_last(), i, v);
        assert(s.drop_last()[i] == s[i]);
        // the final insert is for a different key, so the two inserts commute
        assert(s.last().0 != s[i].0);
        assert(pairs_map(s.drop_last()).insert(s[i].0, v).insert(s.last().0, s.last().1)
            =~= pairs_map(s.drop_last()).insert(s.last().0, s.last().1).insert(s[i].0, v));
    }
}

/// A key is in the map exactly when some entry carries it.
pub proof fn lemma_pairs_map_key<K, V>(s: Seq<(K, V)>, key: K)
    ensures
        pairs_map(s).contains_key(key) <==> exists|k: int|
            0 <= k < s.len() && (#[trigger] s[k]).0 == key,
    decreases s.len(),
{
    if s.len() > 0 {
        lemma_pairs_map_key(s.drop_last(), key);
        if pairs_map(s).contains_key(key) && s.last().0 != key {
            let k = choose|k: int|
                0 <= k < s.drop_last().len() && (#[trigger] s.drop_last()[k]).0 == key;
            assert(s[k].0 == key);
        }
        if exists|k: int| 0 <= k < s.len() && (#[trigger] s[k]).0 == key {
            let k = choose|k: int| 0 <= k < s.len() && (#[trigger] s[k]).0 == key;
            if k < s.len() - 1 {
                assert(s.drop_last()[k].0 == key);
            }
        }
    }
}

/// With distinct keys, the entry at `i` gives its key's map value.
pub proof fn lemma_pairs_map_at<K, V>(s: Seq<(K, V)>, i: int)
    requires
        0 <= i < s.len(),
        keys_unique(s),
    ensures
        pairs_map(s).contains_key(s[i].0),
        pairs_map(s)[s[i].0] == s[i].1,
    decreases s.len(),
{
    if i == s.len() - 1 {
    } else {
        lemma_pairs_map_at(s.drop_last(), i);
        assert(s.drop_last()[i] == s[i]);
        assert(s.last().0 != s[i].0);
    }
}

} // verus!
