//! Association lists as finite maps.
//!
//! The index stores its mappings as vectors of key/value pairs with pairwise
//! distinct keys. This module gives such a sequence its meaning as a
//! [`Map`], and proves the handful of facts the rest of the crate needs to
//! move between the two levels.

use vstd::prelude::*;

verus! {

/// The finite map denoted by a sequence of key/value pairs. Later pairs win,
/// but throughout the crate the sequences carry pairwise distinct keys, so
/// the order never matters.
pub open spec fn assoc_map<K, V>(s: Seq<(K, V)>) -> Map<K, V>
    decreases s.len(),
{
    if s.len() == 0 {
        Map::empty()
    } else {
        assoc_map(s.drop_last()).insert(s.last().0, s.last().1)
    }
}

/// All keys of the pair sequence are pairwise distinct.
pub open spec fn unique_keys<K, V>(s: Seq<(K, V)>) -> bool {
    forall|i: int, j: int| 0 <= i < j < s.len() ==> s[i].0 != s[j].0
}

/// A key is in the map exactly when some pair of the sequence carries it.
pub proof fn lemma_assoc_map_contains<K, V>(s: Seq<(K, V)>)
    ensures
        forall|k: K|
            #[trigger] assoc_map(s).contains_key(k) <==> exists|i: int|
                0 <= i < s.len() && #[trigger] s[i].0 == k,
    decreases s.len(),
{
    if s.len() > 0 {
        lemma_assoc_map_contains(s.drop_last());
        assert forall|k: K| #[trigger] assoc_map(s).contains_key(k) implies exists|i: int|
            0 <= i < s.len() && #[trigger] s[i].0 == k by {
            if k == s.last().0 {
                assert(s[s.len() - 1].0 == k);
            } else {
                assert(assoc_map(s) == assoc_map(s.drop_last()).insert(s.last().0, s.last().1));
                assert(assoc_map(s.drop_last()).contains_key(k));
                let i = choose|i: int| 0 <= i < s.drop_last().len() && #[trigger] s.drop_last()[i].0 == k;
                assert(s.drop_last()[i] == s[i]);
                assert(s[i].0 == k);
            }
        }
        assert forall|k: K| (exists|i: int| 0 <= i < s.len() && #[trigger] s[i].0 == k)
            implies #[trigger] assoc_map(s).contains_key(k) by {
            let i = choose|i: int| 0 <= i < s.len() && #[trigger] s[i].0 == k;
            assert(assoc_map(s) == assoc_map(s.drop_last()).insert(s.last().0, s.last().1));
            if i < s.len() - 1 {
                assert(s.drop_last()[i].0 == k);
                assert(assoc_map(s.drop_last()).contains_key(k));
            } else {
                assert(k == s.last().0);
            }
        }
    }
}

/// With distinct keys, the map sends each listed key to its listed value.
pub proof fn lemma_assoc_map_get<K, V>(s: Seq<(K, V)>)
    requires
        unique_keys(s),
    ensures
        forall|i: int|
            0 <= i < s.len() ==> assoc_map(s).contains_key(#[trigger] s[i].0)
                && assoc_map(s)[s[i].0] == s[i].1,
    decreases s.len(),
{
    if s.len() > 0 {
        lemma_assoc_map_get(s.drop_last());
        lemma_assoc_map_contains(s);
        assert forall|i: int| 0 <= i < s.len() implies assoc_map(s).contains_key(#[trigger] s[i].0)
            && assoc_map(s)[s[i].0] == s[i].1 by {
            if i < s.len() - 1 {
                assert(s.drop_last()[i] == s[i]);
                assert(s[i].0 != s.last().0);
            }
        }
    }
}

/// The domain of the denoted map is finite, with one element per listed key
/// when the keys are distinct.
pub proof fn lemma_assoc_map_len<K, V>(s: Seq<(K, V)>)
    requires
        unique_keys(s),
    ensures
        assoc_map(s).dom().finite(),
        assoc_map(s).dom().len() == s.len(),
    decreases s.len(),
{
    if s.len() == 0 {
        assert(assoc_map(s).dom() =~= Set::<K>::empty());
    } else {
        lemma_assoc_map_len(s.drop_last());
        lemma_assoc_map_contains(s.drop_last());
        assert forall|i: int| 0 <= i < s.drop_last().len()
            implies #[trigger] s.drop_last()[i].0 != s.last().0 by {
            assert(s[i].0 != s[s.len() - 1].0);
        }
        assert(!assoc_map(s.drop_last()).contains_key(s.last().0));
        assert(assoc_map(s).dom() =~= assoc_map(s.drop_last()).dom().insert(s.last().0));
    }
}

/// Appending a pair is insertion into the denoted map.
pub proof fn lemma_assoc_map_push<K, V>(s: Seq<(K, V)>, k: K, v: V)
    ensures
        assoc_map(s.push((k, v))) == assoc_map(s).insert(k, v),
{
    assert(s.push((k, v)).drop_last() =~= s);
    assert(s.push((k, v)).last() == (k, v));
}

/// Removing a pair and re-appending it with a new value updates the denoted
/// map at that key, provided the keys are distinct.
pub proof fn lemma_assoc_map_remove_push<K, V>(s: Seq<(K, V)>, i: int, v: V)
    requires
        unique_keys(s),
        0 <= i < s.len(),
    ensures
        unique_keys(s.remove(i).push((s[i].0, v))),
        assoc_map(s.remove(i).push((s[i].0, v))) == assoc_map(s).insert(s[i].0, v),
{
    let k = s[i].0;
    let t = s.remove(i).push((k, v));
    assert forall|a: int, b: int| 0 <= a < b < t.len() implies t[a].0 != t[b].0 by {
        if b < t.len() - 1 {
            // both from s.remove(i): map back to distinct indices of s
            let a0: int = if a < i { a } else { a + 1 };
            let b0: int = if b < i { b } else { b + 1 };
            assert(t[a] == s[a0] && t[b] == s[b0]);
        } else {
            let a0: int = if a < i { a } else { a + 1 };
            assert(t[a] == s[a0]);
            assert(a0 != i);
        }
    }
    lemma_assoc_map_contains(s);
    lemma_assoc_map_contains(t);
    lemma_assoc_map_get(s);
    lemma_assoc_map_get(t);
    assert forall|kk: K| #[trigger] assoc_map(t).contains_key(kk)
        implies assoc_map(s).insert(k, v).contains_key(kk)
            && assoc_map(t)[kk] == assoc_map(s).insert(k, v)[kk] by {
        let j = choose|j: int| 0 <= j < t.len() && #[trigger] t[j].0 == kk;
        if j == t.len() - 1 {
            assert(assoc_map(t)[kk] == v);
        } else {
            let j0: int = if j < i { j } else { j + 1 };
            assert(t[j] == s[j0]);
            assert(j0 != i);
            assert(s[j0].0 != k);
            assert(assoc_map(t)[kk] == t[j].1);
            assert(assoc_map(s)[kk] == s[j0].1);
        }
    }
    assert forall|kk: K| assoc_map(s).insert(k, v).contains_key(kk)
        implies #[trigger] assoc_map(t).contains_key(kk) by {
        if kk == k {
            assert(t[t.len() - 1].0 == kk);
        } else {
            let j = choose|j: int| 0 <= j < s.len() && #[trigger] s[j].0 == kk;
            assert(j != i);
            let j1: int = if j < i { j } else { j - 1 };
            assert(t[j1] == s[j]);
        }
    }
    assert(assoc_map(t) =~= assoc_map(s).insert(k, v));
}

} // verus!
