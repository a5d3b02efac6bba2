//! Cache-wide laws, stated and proved over the recency-sequence model.
//! Each law speaks about the model functions (`updated`, `touched`,
//! `lookup`) that the contracts of `put` and `get` use, so it applies to
//! every reachable cache state: `new` establishes a well-formed cache
//! whose view has distinct keys and a length within the capacity, and
//! `put` and `get` keep both, with views related by exactly these
//! functions.

use vstd::prelude::*;

use crate::model::{has_key, key_at, keys_distinct, lookup, touched, updated};
use crate::model::lemma_key_at_unique;

verus! {

/// Capacity bound: a `put` never leaves more resident pairs than the
/// capacity allows, so no sequence of operations can exceed it.
pub proof fn lemma_capacity_bound<K, V>(s: Seq<(K, V)>, cap: nat, k: K, v: V)
    requires
        s.len() <= cap,
    ensures
        updated(s, cap, k, v).len() <= cap,
{
}

/// LRU eviction: a `put` of a fresh key into a full cache evicts exactly
/// the least recently used key — the last of the recency sequence, which
/// under a run of fresh `put`s with no intervening accesses is always the
/// earliest-inserted key still resident — and keeps every other resident
/// key as well as the new one.
pub proof fn lemma_lru_eviction<K, V>(s: Seq<(K, V)>, cap: nat, k: K, v: V)
    requires
        keys_distinct(s),
        !has_key(s, k),
        s.len() == cap,
        cap > 0,
    ensures
        updated(s, cap, k, v).len() == cap,
        !has_key(updated(s, cap, k, v), s.last().0),
        has_key(updated(s, cap, k, v), k),
        forall|i: int| 0 <= i < s.len() - 1 ==> has_key(updated(s, cap, k, v), #[trigger] s[i].0),
{
    let t = updated(s, cap, k, v);
    assert(t == seq![(k, v)] + s.drop_last());
    assert(t[0] == (k, v));
    assert forall|j: int| 1 <= j < t.len() implies #[trigger] t[j] == s[j - 1] by {
        assert(t[j] == s.drop_last()[j - 1]);
    }
    assert forall|j: int| 0 <= j < t.len() implies #[trigger] t[j].0 != s.last().0 by {
        if j == 0 {
            assert(s[s.len() - 1].0 != k);
        } else {
            assert(s[j - 1].0 != s[s.len() - 1].0);
        }
    }
    assert forall|i: int| 0 <= i < s.len() - 1 implies has_key(t, #[trigger] s[i].0) by {
        assert(t[i + 1] == s[i]);
    }
}

/// Recency bump on a read: a `get` of a resident key moves its pair to
/// the front of the recency sequence — the position evicted last — while
/// every other pair stays, in the same relative order.
pub proof fn lemma_recency_bump_get<K, V>(s: Seq<(K, V)>, k: K)
    requires
        keys_distinct(s),
        has_key(s, k),
    ensures
        touched(s, k).len() == s.len(),
        touched(s, k)[0] == s[key_at(s, k)],
        touched(s, k)[0].0 == k,
        touched(s, k).subrange(1, touched(s, k).len() as int) == s.remove(key_at(s, k)),
        forall|i: int| 0 <= i < s.len() ==> has_key(touched(s, k), #[trigger] s[i].0),
{
    let p = key_at(s, k);
    let t = touched(s, k);
    assert(t == seq![s[p]] + s.remove(p));
    assert(t.subrange(1, t.len() as int) =~= s.remove(p));
    assert forall|i: int| 0 <= i < s.len() implies has_key(t, #[trigger] s[i].0) by {
        if i == p {
            assert(t[0] == s[p]);
        } else if i < p {
            assert(t[i + 1] == s.remove(p)[i]);
        } else {
            assert(t[i] == s.remove(p)[i - 1]);
        }
    }
}

/// Recency bump on a write: a `put` over a resident key rebinds its value
/// and moves the pair to the front, while every other pair stays, in the
/// same relative order.
pub proof fn lemma_recency_bump_put<K, V>(s: Seq<(K, V)>, cap: nat, k: K, v: V)
    requires
        keys_distinct(s),
        has_key(s, k),
    ensures
        updated(s, cap, k, v).len() == s.len(),
        updated(s, cap, k, v)[0] == (k, v),
        updated(s, cap, k, v).subrange(1, updated(s, cap, k, v).len() as int)
            == s.remove(key_at(s, k)),
        forall|i: int| 0 <= i < s.len() ==> has_key(updated(s, cap, k, v), #[trigger] s[i].0),
{
    let p = key_at(s, k);
    let t = updated(s, cap, k, v);
    assert(t == seq![(k, v)] + s.remove(p));
    assert(t.subrange(1, t.len() as int) =~= s.remove(p));
    assert forall|i: int| 0 <= i < s.len() implies has_key(t, #[trigger] s[i].0) by {
        if i == p {
            assert(t[0].0 == s[p].0);
        } else if i < p {
            assert(t[i + 1] == s.remove(p)[i]);
        } else {
            assert(t[i] == s.remove(p)[i - 1]);
        }
    }
}

/// The cache contents after the pairs of `ops` are `put`, in order, into
/// an initially empty cache of capacity `cap`.
pub open spec fn filled<K, V>(ops: Seq<(K, V)>, cap: nat) -> Seq<(K, V)>
    decreases ops.len(),
{
    if ops.len() == 0 {
        Seq::empty()
    } else {
        updated(filled(ops.drop_last(), cap), cap, ops.last().0, ops.last().1)
    }
}

/// A run of distinct `put`s with no intervening reads lays the pairs out
/// in reverse insertion order and keeps the latest `cap` of them: the
/// recency sequence reads the run backwards, so its last pair — the next
/// eviction candidate — is always the earliest-inserted pair still
/// resident.
pub proof fn lemma_fill_order<K, V>(ops: Seq<(K, V)>, cap: nat)
    requires
        cap > 0,
        keys_distinct(ops),
    ensures
        filled(ops, cap).len() == (if ops.len() <= cap { ops.len() } else { cap }),
        forall|i: int| 0 <= i < filled(ops, cap).len() ==>
            #[trigger] filled(ops, cap)[i] == ops[ops.len() - 1 - i],
    decreases ops.len(),
{
    if ops.len() > 0 {
        let n = ops.len() as int;
        let prefix = ops.drop_last();
        assert(keys_distinct(prefix)) by {
            assert forall|i: int, j: int| 0 <= i < j < prefix.len() implies
                prefix[i].0 != prefix[j].0 by {
                assert(ops[i].0 != ops[j].0);
            }
        }
        lemma_fill_order(prefix, cap);
        let s = filled(prefix, cap);
        let k = ops.last().0;
        let v = ops.last().1;
        let t = filled(ops, cap);
        assert(t == updated(s, cap, k, v));
        assert(!has_key(s, k)) by {
            if has_key(s, k) {
                let i = choose|i: int| 0 <= i < s.len() && s[i].0 == k;
                assert(s[i] == prefix[prefix.len() - 1 - i]);
                assert(ops[n - 2 - i].0 == ops[n - 1].0);
            }
        }
        if s.len() >= cap {
            assert(t == seq![(k, v)] + s.drop_last());
            assert forall|i: int| 0 <= i < t.len() implies
                #[trigger] t[i] == ops[n - 1 - i] by {
                if i > 0 {
                    assert(t[i] == s.drop_last()[i - 1]);
                    assert(s[i - 1] == prefix[prefix.len() - 1 - (i - 1)]);
                    assert(prefix[n - 1 - i] == ops[n - 1 - i]);
                }
            }
        } else {
            assert(t == seq![(k, v)] + s);
            assert forall|i: int| 0 <= i < t.len() implies
                #[trigger] t[i] == ops[n - 1 - i] by {
                if i > 0 {
                    assert(t[i] == s[i - 1]);
                    assert(s[i - 1] == prefix[prefix.len() - 1 - (i - 1)]);
                    assert(prefix[n - 1 - i] == ops[n - 1 - i]);
                }
            }
        }
    }
}

/// At each overflow of a run of distinct `put`s with no intervening
/// reads, the evicted key is the earliest-inserted key still resident:
/// after `ops` fill the cache beyond its capacity, the residents are the
/// latest `cap` pairs, the least recently used of them is the
/// earliest-inserted one, and the next fresh `put` evicts exactly it.
pub proof fn lemma_fill_eviction<K, V>(ops: Seq<(K, V)>, cap: nat, k: K, v: V)
    requires
        cap > 0,
        ops.len() >= cap,
        keys_distinct(ops.push((k, v))),
    ensures
        filled(ops, cap).last() == ops[ops.len() - cap],
        forall|j: int| ops.len() - cap <= j < ops.len() ==>
            has_key(filled(ops, cap), #[trigger] ops[j].0),
        forall|j: int| 0 <= j < ops.len() - cap ==>
            !has_key(filled(ops, cap), #[trigger] ops[j].0),
        !has_key(filled(ops.push((k, v)), cap), ops[ops.len() - cap].0),
{
    let n = ops.len() as int;
    assert(keys_distinct(ops)) by {
        assert forall|i: int, j: int| 0 <= i < j < ops.len() implies
            ops[i].0 != ops[j].0 by {
            assert(ops.push((k, v))[i].0 != ops.push((k, v))[j].0);
        }
    }
    lemma_fill_order(ops, cap);
    let s = filled(ops, cap);
    assert(s.last() == ops[n - cap]);
    assert forall|j: int| n - cap <= j < n implies has_key(s, #[trigger] ops[j].0) by {
        assert(s[n - 1 - j] == ops[j]);
    }
    assert forall|j: int| 0 <= j < n - cap implies !has_key(s, #[trigger] ops[j].0) by {
        if has_key(s, ops[j].0) {
            let i = choose|i: int| 0 <= i < s.len() && s[i].0 == ops[j].0;
            assert(s[i] == ops[n - 1 - i]);
            assert(ops[j].0 != ops[n - 1 - i].0);
        }
    }
    let run = ops.push((k, v));
    assert(keys_distinct(run));
    lemma_fill_order(run, cap);
    let t = filled(run, cap);
    assert forall|i: int| 0 <= i < t.len() implies #[trigger] t[i].0 != ops[n - cap].0 by {
        assert(t[i] == run[run.len() - 1 - i]);
        let j = run.len() - 1 - i;
        assert(n - cap < j <= n);
        if j < n {
            assert(ops[n - cap].0 != ops[j].0);
        } else {
            assert(run[n - cap].0 != run[j].0);
            assert(run[n - cap] == ops[n - cap]);
        }
    }
}

/// Round trip: after `put(k, v)` a `get` of `k` returns `v` — except with
/// capacity zero, where nothing is ever stored and the `get` misses. With
/// a positive capacity the key just put is never the one evicted by its
/// own `put`, so no further exception arises.
pub proof fn lemma_round_trip<K, V>(s: Seq<(K, V)>, cap: nat, k: K, v: V)
    requires
        keys_distinct(s),
        s.len() <= cap,
    ensures
        cap > 0 ==> lookup(updated(s, cap, k, v), k) == Some(v),
        cap == 0 ==> lookup(updated(s, cap, k, v), k) == None::<V>,
{
    let t = updated(s, cap, k, v);
    if cap == 0 {
        assert(!has_key(s, k));
        assert(t == s);
    } else {
        assert(t[0] == (k, v));
        assert forall|j: int| 1 <= j < t.len() implies #[trigger] t[j].0 != k by {
            if has_key(s, k) {
                let p = key_at(s, k);
                assert(t[j] == s.remove(p)[j - 1]);
                let j0: int = if j - 1 < p { j - 1 } else { j };
                assert(t[j] == s[j0]);
                if s[j0].0 == k {
                    lemma_key_at_unique(s, k, j0);
                }
            } else if s.len() >= cap {
                assert(t[j] == s.drop_last()[j - 1]);
                assert(t[j] == s[j - 1]);
            } else {
                assert(t[j] == s[j - 1]);
            }
        }
        assert(has_key(t, k));
        assert(key_at(t, k) == 0);
        assert(lookup(t, k) == Some(v));
    }
}

/// Idempotent miss: a `get` of a key that is not resident — never
/// inserted, or already evicted — misses and leaves the recency sequence
/// exactly as it was, however often it is repeated.
pub proof fn lemma_idempotent_miss<K, V>(s: Seq<(K, V)>, k: K)
    requires
        !has_key(s, k),
    ensures
        lookup(s, k) == None::<V>,
        touched(s, k) == s,
{
}

} // verus!
