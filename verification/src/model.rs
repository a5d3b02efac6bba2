//! The mathematical model of the cache: a recency sequence of key/value
//! pairs, most recently used first. The public contracts of the cache
//! speak entirely in terms of these functions.

use vstd::prelude::*;

verus! {

/// No key occurs twice in the recency sequence.
pub open spec fn keys_distinct<K, V>(s: Seq<(K, V)>) -> bool {
    forall|i: int, j: int| 0 <= i < j < s.len() ==> s[i].0 != s[j].0
}

/// Some resident pair carries the key `k`.
pub open spec fn has_key<K, V>(s: Seq<(K, V)>, k: K) -> bool {
    exists|i: int| 0 <= i < s.len() && s[i].0 == k
}

/// The position of the pair carrying `k` (meaningful when `has_key` holds
/// and the keys are distinct).
pub open spec fn key_at<K, V>(s: Seq<(K, V)>, k: K) -> int {
    choose|i: int| 0 <= i < s.len() && s[i].0 == k
}

/// The value stored under `k`, if any.
pub open spec fn lookup<K, V>(s: Seq<(K, V)>, k: K) -> Option<V> {
    if has_key(s, k) {
        Some(s[key_at(s, k)].1)
    } else {
        None
    }
}

/// The recency sequence after an access of the pair at position `i`: the
/// pair moves to the front, everything else keeps its relative order.
pub open spec fn bump_to_front<K, V>(s: Seq<(K, V)>, i: int) -> Seq<(K, V)> {
    seq![s[i]] + s.remove(i)
}

/// What a `get` of `k` leaves behind: a hit moves the pair to the front,
/// a miss changes nothing.
pub open spec fn touched<K, V>(s: Seq<(K, V)>, k: K) -> Seq<(K, V)> {
    if has_key(s, k) {
        bump_to_front(s, key_at(s, k))
    } else {
        s
    }
}

/// What a `put` of `v` under `k` leaves behind, for a cache of capacity
/// `cap`: an existing key is rebound and moves to the front; a fresh key
/// is inserted at the front, evicting the least recently used pair when
/// the cache is full; with capacity zero nothing is ever stored.
pub open spec fn updated<K, V>(s: Seq<(K, V)>, cap: nat, k: K, v: V) -> Seq<(K, V)> {
    if has_key(s, k) {
        seq![(k, v)] + s.remove(key_at(s, k))
    } else if cap == 0 {
        s
    } else if s.len() >= cap {
        seq![(k, v)] + s.drop_last()
    } else {
        seq![(k, v)] + s
    }
}

/// When the keys of `s` are distinct, any position holding `k` is the
/// position `key_at` picks.
pub proof fn lemma_key_at_unique<K, V>(s: Seq<(K, V)>, k: K, i: int)
    requires
        keys_distinct(s),
        0 <= i < s.len(),
        s[i].0 == k,
    ensures
        has_key(s, k),
        key_at(s, k) == i,
{
    assert(has_key(s, k));
    let j = key_at(s, k);
    if i < j {
        assert(s[i].0 != s[j].0);
    } else if j < i {
        assert(s[j].0 != s[i].0);
    }
}

} // verus!
