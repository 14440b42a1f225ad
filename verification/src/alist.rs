//! Association lists: ordered sequences of key-value pairs with unique keys,
//! and their interpretation as maps.
use vstd::prelude::*;

verus! {

/// The map an association list denotes; later entries win, but under
/// `alist_unique` each key occurs at most once.
pub open spec fn alist_map<K, V>(s: Seq<(K, V)>) -> Map<K, V>
    decreases s.len(),
{
    if s.len() == 0 {
        Map::empty()
    } else {
        alist_map(s.drop_last()).insert(s.last().0, s.last().1)
    }
}

/// No key occurs twice in the list.
pub open spec fn alist_unique<K, V>(s: Seq<(K, V)>) -> bool {
    forall|i: int, j: int| 0 <= i < j < s.len() ==> #[trigger] s[i].0 != #[trigger] s[j].0
}

/// The denoted map contains exactly the keys of the list's entries.
pub proof fn lemma_alist_map_dom<K, V>(s: Seq<(K, V)>)
    ensures
        forall|k: K|
            alist_map(s).contains_key(k) <==> exists|i: int|
                0 <= i < s.len() && #[trigger] s[i].0 == k,
    decreases s.len(),
{
    if s.len() > 0 {
        lemma_alist_map_dom(s.drop_last());
        assert(alist_map(s) == alist_map(s.drop_last()).insert(s.last().0, s.last().1));
        assert forall|k: K|
            alist_map(s).contains_key(k) implies exists|i: int|
            0 <= i < s.len() && #[trigger] s[i].0 == k by {
            if s.last().0 == k {
                assert(s[s.len() - 1].0 == k);
            } else {
                let i = choose|i: int| 0 <= i < s.drop_last().len() && #[trigger] s.drop_last()[i].0 == k;
                assert(s.drop_last()[i] == s[i]);
                assert(s[i].0 == k);
            }
        }
        assert forall|k: K|
            (exists|i: int| 0 <= i < s.len() && #[trigger] s[i].0 == k) implies alist_map(
            s,
        ).contains_key(k) by {
            let i = choose|i: int| 0 <= i < s.len() && #[trigger] s[i].0 == k;
            if i < s.len() - 1 {
                assert(s.drop_last()[i].0 == k);
            }
        }
    }
}

/// In a unique association list, each entry gives the denoted map's value at
/// its key.
pub proof fn lemma_alist_map_index<K, V>(s: Seq<(K, V)>, i: int)
    requires
        alist_unique(s),
        0 <= i < s.len(),
    ensures
        alist_map(s).contains_key(s[i].0),
        alist_map(s)[s[i].0] == s[i].1,
    decreases s.len(),
{
    if i == s.len() - 1 {
        lemma_alist_map_dom(s);
    } else {
        assert(alist_unique(s.drop_last()));
        lemma_alist_map_index(s.drop_last(), i);
        assert(s.drop_last()[i] == s[i]);
        assert(s[i].0 != s[s.len() - 1].0);
    }
}

/// A key absent from every entry is absent from the denoted map.
pub proof fn lemma_alist_map_absent<K, V>(s: Seq<(K, V)>, k: K)
    requires
        forall|i: int| 0 <= i < s.len() ==> #[trigger] s[i].0 != k,
    ensures
        !alist_map(s).contains_key(k),
    decreases s.len(),
{
    if s.len() > 0 {
        assert(forall|i: int|
            0 <= i < s.drop_last().len() ==> #[trigger] s.drop_last()[i].0 != k);
        lemma_alist_map_absent(s.drop_last(), k);
        assert(s[s.len() - 1].0 != k);
    }
}

/// Replacing the entry at `j` by one with the same key updates the denoted
/// map at that key.
pub proof fn lemma_alist_map_update<K, V>(s: Seq<(K, V)>, j: int, v: V)
    requires
        alist_unique(s),
        0 <= j < s.len(),
    ensures
        alist_map(s.update(j, (s[j].0, v))) == alist_map(s).insert(s[j].0, v),
    decreases s.len(),
{
    let t = s.update(j, (s[j].0, v));
    if j == s.len() - 1 {
        assert(t.drop_last() =~= s.drop_last());
        assert(t.last() == (s[j].0, v));
    } else {
        assert(alist_unique(s.drop_last()));
        lemma_alist_map_update(s.drop_last(), j, v);
        assert(t.drop_last() =~= s.drop_last().update(j, (s[j].0, v)));
        assert(t.last() == s.last());
        assert(s[j].0 != s.last().0);
        assert(alist_map(t) == alist_map(s.drop_last()).insert(s[j].0, v).insert(
            s.last().0,
            s.last().1,
        ));
        assert(alist_map(s.drop_last()).insert(s[j].0, v).insert(s.last().0, s.last().1)
            =~= alist_map(s.drop_last()).insert(s.last().0, s.last().1).insert(s[j].0, v));
    }
}

/// Appending one entry with a fresh key inserts it into the denoted map.
pub proof fn lemma_alist_map_push<K, V>(s: Seq<(K, V)>, k: K, v: V)
    ensures
        alist_map(s.push((k, v))) == alist_map(s).insert(k, v),
{
    assert(s.push((k, v)).drop_last() =~= s);
}

} // verus!
