//! The cache itself: an arena of nodes forming a circular doubly-linked
//! recency list around a sentinel, coupled with a hash index from key to
//! arena slot. Links are arena indices, never addresses, so no dangling
//! reference can arise; a ghost sequence of slots records the recency
//! order and ties the links, the arena and the index together.

use vstd::prelude::*;

use std::collections::HashMap;
use std::hash::Hash;

use crate::model::{bump_to_front, has_key, key_at, keys_distinct, lookup, touched, updated};
use crate::model::lemma_key_at_unique;
use vstd::std_specs::hash::obeys_key_model;

verus! {

/// One arena slot: a cached key/value pair and the slots of its two
/// neighbours in the recency list. Slot 0 of the arena is the sentinel:
/// its `key` and `val` carry no meaning, its `next` names the most
/// recently used slot and its `prev` the least recently used one (both 0
/// when the cache is empty).
#[derive(Clone, Copy)]
struct Node<K, V> {
    key: K,
    val: V,
    prev: usize,
    next: usize,
}

/// A fixed-capacity cache from keys `K` to values `V`, evicting the
/// least recently used pair when a new key arrives at full capacity.
pub struct LRUCacheBase<K, V> {
    /// Slot 0 is the sentinel; every other slot holds a resident pair.
    arena: Vec<Node<K, V>>,
    /// Key to arena slot, for constant-time lookup.
    index: HashMap<K, usize>,
    /// Fixed at construction; the number of resident pairs never exceeds it.
    capacity: usize,
    /// The recency order: arena slots, most recently used first.
    order: Ghost<Seq<int>>,
}

impl<K, V> LRUCacheBase<K, V> where K: Copy + Eq + Hash + Default, V: Copy + Default {
    /// The links of the arena `a` trace out exactly the cycle
    /// sentinel, ord[0], ord[1], ..., ord[len-1], sentinel.
    spec fn links_wf(a: Seq<Node<K, V>>, ord: Seq<int>) -> bool {
        &&& forall|i: int| 0 <= i < ord.len() ==> 1 <= #[trigger] ord[i] < a.len()
        &&& forall|i: int, j: int| 0 <= i < j < ord.len() ==> ord[i] != ord[j]
        &&& a[0].next as int == (if ord.len() == 0 { 0int } else { ord[0] })
        &&& a[0].prev as int == (if ord.len() == 0 { 0int } else { ord[ord.len() - 1] })
        &&& forall|i: int| 0 <= i < ord.len() ==>
            (#[trigger] a[ord[i]]).prev as int == (if i == 0 { 0int } else { ord[i - 1] })
        &&& forall|i: int| 0 <= i < ord.len() ==>
            (#[trigger] a[ord[i]]).next as int == (if i == ord.len() - 1 { 0int } else { ord[i + 1] })
    }

    /// The hash index and the recency list agree on membership: every
    /// listed slot is indexed under its key, and every indexed key names
    /// a listed slot holding that key.
    spec fn index_wf(self) -> bool {
        let a = self.arena@;
        let ord = self.order@;
        let m = self.index@;
        &&& forall|i: int| 0 <= i < ord.len() ==> {
            &&& m.contains_key(a[#[trigger] ord[i]].key)
            &&& m[a[ord[i]].key] as int == ord[i]
        }
        &&& forall|k: K| #[trigger] m.contains_key(k) ==> {
            &&& 1 <= m[k] < a.len()
            &&& a[m[k] as int].key == k
            &&& ord.contains(m[k] as int)
        }
    }

    /// The internal invariant: consistent links, an arena with no spare
    /// slots, an index in bijection with the list, and a resident count
    /// within the capacity.
    pub closed spec fn wf(self) -> bool {
        &&& obeys_key_model::<K>()
        &&& Self::links_wf(self.arena@, self.order@)
        &&& self.arena@.len() == self.order@.len() + 1
        &&& self.index_wf()
        &&& self.order@.len() <= self.capacity
    }

    /// The abstraction: the resident pairs in recency order, most
    /// recently used first.
    pub closed spec fn view(self) -> Seq<(K, V)> {
        Seq::new(
            self.order@.len(),
            |i: int| (self.arena@[self.order@[i]].key, self.arena@[self.order@[i]].val),
        )
    }

    /// The capacity the cache was constructed with.
    pub closed spec fn cap(self) -> nat {
        self.capacity as nat
    }

    /// A well-formed cache has distinct resident keys.
    proof fn lemma_view_keys_distinct(self)
        requires
            self.wf(),
        ensures
            keys_distinct(self@),
    {
        assert forall|i: int, j: int| 0 <= i < j < self@.len() implies self@[i].0 != self@[j].0 by {
            if self@[i].0 == self@[j].0 {
                assert(self.index@[self.arena@[self.order@[i]].key] as int == self.order@[i]);
                assert(self.index@[self.arena@[self.order@[j]].key] as int == self.order@[j]);
            }
        }
    }

    /// Creates an empty cache that will never hold more than `capacity`
    /// pairs at once.
    pub fn new(capacity: usize) -> (r: Self)
        requires
            obeys_key_model::<K>(),
        ensures
            r.wf(),
            r@ == Seq::<(K, V)>::empty(),
            r.cap() == capacity,
    {
        let mut arena: Vec<Node<K, V>> = Vec::new();
        arena.push(Node { key: K::default(), val: V::default(), prev: 0, next: 0 });
        let r = LRUCacheBase {
            arena,
            index: HashMap::new(),
            capacity,
            order: Ghost(Seq::empty()),
        };
        proof {
            assert(r@ =~= Seq::<(K, V)>::empty());
        }
        r
    }

    /// Unlinks the node at `slot` (which sits at position `pos` of the
    /// recency order) by relinking its two neighbours to each other.
    #[verifier::rlimit(50)]
    fn detach(&mut self, slot: usize, Ghost(pos): Ghost<int>)
        requires
            Self::links_wf(old(self).arena@, old(self).order@),
            0 <= pos < old(self).order@.len(),
            old(self).order@[pos] == slot,
        ensures
            Self::links_wf(final(self).arena@, final(self).order@),
            final(self).order@ == old(self).order@.remove(pos),
            final(self).arena@.len() == old(self).arena@.len(),
            forall|s: int| 0 <= s < old(self).arena@.len() ==> {
                &&& (#[trigger] final(self).arena@[s]).key == old(self).arena@[s].key
                &&& final(self).arena@[s].val == old(self).arena@[s].val
            },
            final(self).index == old(self).index,
            final(self).capacity == old(self).capacity,
    {
        let ghost a0 = self.arena@;
        let ghost ord0 = self.order@;
        let p = self.arena[slot].prev;
        let n = self.arena[slot].next;
        proof {
            assert(p as int == (if pos == 0 { 0int } else { ord0[pos - 1] }));
            assert(n as int == (if pos == ord0.len() - 1 { 0int } else { ord0[pos + 1] }));
            assert(p as int != slot as int);
            assert(n as int != slot as int);
        }
        self.arena[p].next = n;
        self.arena[n].prev = p;
        self.order = Ghost(self.order@.remove(pos));
        proof {
            let a = self.arena@;
            let ord = self.order@;
            // Every slot keeps its place; only the link fields of p and n changed.
            assert forall|s: int| 0 <= s < a0.len() && s != p as int && s != n as int implies
                a[s] == a0[s] by {}
            assert(a[p as int].next == n);
            assert(a[n as int].prev == p);
            assert(a[p as int].prev == (if p as int == n as int { p } else { a0[p as int].prev }));
            assert(a[n as int].next == (if p as int == n as int { n } else { a0[n as int].next }));
            // How the shortened order reads off the old one.
            assert forall|i: int| 0 <= i < ord.len() implies
                #[trigger] ord[i] == (if i < pos { ord0[i] } else { ord0[i + 1] }) by {}
            assert forall|i: int| 0 <= i < ord.len() implies
                a[#[trigger] ord[i]].prev as int == (if i == 0 { 0int } else { ord[i - 1] }) by {
                let s = ord[i];
                let i0: int = if i < pos { i } else { i + 1 };
                assert(s == ord0[i0]);
                assert(a0[s].prev as int == (if i0 == 0 { 0int } else { ord0[i0 - 1] }));
                if s != p as int && s != n as int {
                    assert(a[s] == a0[s]);
                } else if s == n as int {
                    assert(i0 == pos + 1);
                    assert(i == pos);
                } else {
                    assert(s == p as int && i0 == pos - 1 && i == pos - 1);
                }
            }
            assert forall|i: int| 0 <= i < ord.len() implies
                a[#[trigger] ord[i]].next as int == (if i == ord.len() - 1 { 0int } else { ord[i + 1] }) by {
                let s = ord[i];
                let i0: int = if i < pos { i } else { i + 1 };
                assert(s == ord0[i0]);
                assert(a0[s].next as int == (if i0 == ord0.len() - 1 { 0int } else { ord0[i0 + 1] }));
                if s != p as int && s != n as int {
                    assert(a[s] == a0[s]);
                } else if s == p as int {
                    assert(i0 == pos - 1);
                    assert(i == pos - 1);
                } else {
                    assert(s == n as int && i0 == pos + 1 && i == pos);
                }
            }
            assert(a[0].next as int == (if ord.len() == 0 { 0int } else { ord[0] }));
            assert(a[0].prev as int == (if ord.len() == 0 { 0int } else { ord[ord.len() - 1] }));
        }
    }

    /// Links the currently unlinked node at `slot` immediately after the
    /// sentinel, making it the most recently used.
    #[verifier::rlimit(50)]
    fn push_front(&mut self, slot: usize)
        requires
            Self::links_wf(old(self).arena@, old(self).order@),
            1 <= slot < old(self).arena@.len(),
            !old(self).order@.contains(slot as int),
        ensures
            Self::links_wf(final(self).arena@, final(self).order@),
            final(self).order@ == old(self).order@.insert(0, slot as int),
            final(self).arena@.len() == old(self).arena@.len(),
            forall|s: int| 0 <= s < old(self).arena@.len() ==> {
                &&& (#[trigger] final(self).arena@[s]).key == old(self).arena@[s].key
                &&& final(self).arena@[s].val == old(self).arena@[s].val
            },
            final(self).index == old(self).index,
            final(self).capacity == old(self).capacity,
    {
        let ghost a0 = self.arena@;
        let ghost ord0 = self.order@;
        let first = self.arena[0].next;
        proof {
            assert(first as int == (if ord0.len() == 0 { 0int } else { ord0[0] }));
            assert(first as int != slot as int);
        }
        self.arena[slot].prev = 0;
        self.arena[slot].next = first;
        self.arena[0].next = slot;
        self.arena[first].prev = slot;
        self.order = Ghost(self.order@.insert(0, slot as int));
        proof {
            let a = self.arena@;
            let ord = self.order@;
            assert forall|s: int|
                0 <= s < a0.len() && s != slot as int && s != 0 && s != first as int implies
                a[s] == a0[s] by {}
            assert forall|i: int| 0 <= i < ord0.len() implies ord0[i] == #[trigger] ord[i + 1] by {}
            assert(ord[0] == slot as int);
            assert forall|i: int| 0 <= i < ord.len() implies
                a[#[trigger] ord[i]].prev as int == (if i == 0 { 0int } else { ord[i - 1] }) by {
                if i == 0 {
                    assert(a[slot as int].prev == 0);
                } else {
                    let s = ord[i];
                    assert(s == ord0[i - 1]);
                    if i == 1 {
                        assert(s == first as int);
                        assert(a[s].prev == slot);
                    } else {
                        assert(s != slot as int && s != 0 && s != first as int);
                        assert(a[s] == a0[s]);
                        assert(a0[s].prev as int == ord0[i - 2]);
                        assert(ord[i - 1] == ord0[i - 2]);
                    }
                }
            }
            assert forall|i: int| 0 <= i < ord.len() implies
                a[#[trigger] ord[i]].next as int == (if i == ord.len() - 1 { 0int } else { ord[i + 1] }) by {
                if i == 0 {
                    assert(a[slot as int].next == first);
                } else {
                    let s = ord[i];
                    assert(s == ord0[i - 1]);
                    assert(s != slot as int && s != 0);
                    if s == first as int {
                        assert(i == 1);
                        assert(a[s].next == a0[s].next);
                    } else {
                        assert(a[s] == a0[s]);
                    }
                    assert(a0[s].next as int == (if i - 1 == ord0.len() - 1 { 0int } else { ord0[i] }));
                }
            }
            assert(a[0].next as int == ord[0]);
            assert(a[0].prev as int == ord[ord.len() - 1]);
        }
    }

    /// Detaches and returns the least recently used slot, the one just
    /// before the sentinel.
    fn pop_back(&mut self) -> (slot: usize)
        requires
            Self::links_wf(old(self).arena@, old(self).order@),
            old(self).order@.len() > 0,
        ensures
            Self::links_wf(final(self).arena@, final(self).order@),
            slot as int == old(self).order@.last(),
            final(self).order@ == old(self).order@.drop_last(),
            final(self).arena@.len() == old(self).arena@.len(),
            forall|s: int| 0 <= s < old(self).arena@.len() ==> {
                &&& (#[trigger] final(self).arena@[s]).key == old(self).arena@[s].key
                &&& final(self).arena@[s].val == old(self).arena@[s].val
            },
            final(self).index == old(self).index,
            final(self).capacity == old(self).capacity,
            1 <= slot < final(self).arena@.len(),
    {
        let ghost ord0 = self.order@;
        let slot = self.arena[0].prev;
        proof {
            assert(slot as int == ord0[ord0.len() - 1]);
        }
        self.detach(slot, Ghost(ord0.len() - 1));
        proof {
            assert(self.order@ =~= ord0.drop_last());
        }
        slot
    }

    /// Relocates the resident key held in `slot` to the front of the
    /// recency order and returns its value.
    #[verifier::rlimit(100)]
    fn get_hit(&mut self, key: &K, slot: usize) -> (v: V)
        requires
            old(self).wf(),
            old(self).index@.contains_key(*key),
            old(self).index@[*key] == slot,
        ensures
            final(self).wf(),
            final(self).cap() == old(self).cap(),
            has_key(old(self)@, *key),
            v == old(self)@[key_at(old(self)@, *key)].1,
            final(self)@ == bump_to_front(old(self)@, key_at(old(self)@, *key)),
    {
        let ghost pre = *self;
        proof {
            pre.lemma_view_keys_distinct();
            assert(pre.order@.contains(slot as int));
        }
        let ghost pos = choose|i: int|
            0 <= i < pre.order@.len() && pre.order@[i] == slot as int;
        proof {
            assert(pre@[pos] == (pre.arena@[slot as int].key, pre.arena@[slot as int].val));
            lemma_key_at_unique(pre@, *key, pos);
        }
        self.detach(slot, Ghost(pos));
        proof {
            assert forall|i: int| 0 <= i < self.order@.len() implies
                #[trigger] self.order@[i] != slot as int by {
                if i < pos {
                    assert(self.order@[i] == pre.order@[i]);
                } else {
                    assert(self.order@[i] == pre.order@[i + 1]);
                }
            }
            assert(!self.order@.contains(slot as int));
        }
        self.push_front(slot);
        let v = self.arena[slot].val;
        proof {
            self.lemma_relink_wf(pre, slot as int, pos);
            self.lemma_relink_view(pre, slot as int, pos);
            assert(v == pre@[pos].1);
        }
        v
    }

    /// Returns the value stored under `key` and marks that key the most
    /// recently used; an absent key is an ordinary miss and leaves the
    /// cache unchanged.
    pub fn get(&mut self, key: &K) -> (r: Option<V>)
        requires
            old(self).wf(),
        ensures
            final(self).wf(),
            final(self).cap() == old(self).cap(),
            final(self)@.len() <= final(self).cap(),
            r == lookup(old(self)@, *key),
            final(self)@ == touched(old(self)@, *key),
    {
        let slot_opt: Option<usize> = match self.index.get(key) {
            Some(s) => Some(*s),
            None => None,
        };
        match slot_opt {
            Some(slot) => {
                let v = self.get_hit(key, slot);
                Some(v)
            },
            None => {
                proof {
                    assert(!old(self).index@.contains_key(*key));
                    old(self).lemma_absent_key(*key);
                }
                None
            },
        }
    }

    /// The hash index still agrees with the arena and the order after a
    /// mutation that kept the index, every key and value, and the set of
    /// linked slots, and only rearranged the order.
    proof fn lemma_index_preserved(self, pre: Self)
        requires
            pre.index_wf(),
            self.index == pre.index,
            self.arena@.len() == pre.arena@.len(),
            forall|s: int| 0 <= s < pre.arena@.len() ==> {
                &&& (#[trigger] self.arena@[s]).key == pre.arena@[s].key
                &&& self.arena@[s].val == pre.arena@[s].val
            },
            forall|i: int| 0 <= i < self.order@.len() ==> 1 <= #[trigger] self.order@[i] < self.arena@.len(),
            forall|s: int| #[trigger] self.order@.contains(s) ==> pre.order@.contains(s),
            forall|s: int| #[trigger] pre.order@.contains(s) ==> self.order@.contains(s),
        ensures
            self.index_wf(),
    {
        let a0 = pre.arena@;
        let a = self.arena@;
        let ord0 = pre.order@;
        let ord = self.order@;
        let m = self.index@;
        assert forall|i: int| 0 <= i < ord.len() implies {
            &&& m.contains_key(a[#[trigger] ord[i]].key)
            &&& m[a[ord[i]].key] as int == ord[i]
        } by {
            let s = ord[i];
            assert(ord.contains(s));
            let j = choose|j: int| 0 <= j < ord0.len() && ord0[j] == s;
            assert(m.contains_key(a0[ord0[j]].key) && m[a0[ord0[j]].key] as int == ord0[j]);
            assert(a[s].key == a0[s].key);
        }
        assert forall|k: K| #[trigger] m.contains_key(k) implies {
            &&& 1 <= m[k] < a.len()
            &&& a[m[k] as int].key == k
            &&& ord.contains(m[k] as int)
        } by {
            assert(ord0.contains(pre.index@[k] as int));
            assert(a[m[k] as int].key == a0[m[k] as int].key);
        }
    }

    /// An order that was rearranged by moving the element at `pos` to the
    /// front keeps exactly the same set of elements.
    proof fn lemma_relink_same_slots(ord0: Seq<int>, pos: int)
        requires
            0 <= pos < ord0.len(),
        ensures
            forall|s: int| #[trigger] ord0.remove(pos).insert(0, ord0[pos]).contains(s)
                <==> ord0.contains(s),
    {
        let ord = ord0.remove(pos).insert(0, ord0[pos]);
        assert forall|i: int| 1 <= i < ord.len() implies
            #[trigger] ord[i] == (if i - 1 < pos { ord0[i - 1] } else { ord0[i] }) by {
            assert(ord[i] == ord0.remove(pos)[i - 1]);
        }
        assert forall|s: int| #[trigger] ord.contains(s) implies ord0.contains(s) by {
            let i = choose|i: int| 0 <= i < ord.len() && ord[i] == s;
            if i == 0 {
                assert(ord0[pos] == s);
            } else if i - 1 < pos {
                assert(ord0[i - 1] == s);
            } else {
                assert(ord0[i] == s);
            }
        }
        assert forall|s: int| #[trigger] ord0.contains(s) implies ord.contains(s) by {
            let i = choose|i: int| 0 <= i < ord0.len() && ord0[i] == s;
            if i == pos {
                assert(ord[0] == s);
            } else if i < pos {
                assert(ord[i + 1] == s);
            } else {
                assert(ord[i] == s);
            }
        }
    }

    /// After a detach at `pos` followed by a push of the same `slot` to
    /// the front, the cache is well formed again.
    #[verifier::rlimit(50)]
    proof fn lemma_relink_wf(self, pre: Self, slot: int, pos: int)
        requires
            pre.wf(),
            0 <= pos < pre.order@.len(),
            pre.order@[pos] == slot,
            self.order@ == pre.order@.remove(pos).insert(0, slot),
            self.arena@.len() == pre.arena@.len(),
            forall|s: int| 0 <= s < pre.arena@.len() ==> {
                &&& (#[trigger] self.arena@[s]).key == pre.arena@[s].key
                &&& self.arena@[s].val == pre.arena@[s].val
            },
            Self::links_wf(self.arena@, self.order@),
            self.index == pre.index,
            self.capacity == pre.capacity,
        ensures
            self.wf(),
    {
        Self::lemma_relink_same_slots(pre.order@, pos);
        self.lemma_index_preserved(pre);
    }

    /// The view after moving the order element at `pos` to the front,
    /// with every key and value in place, is the old view with the pair
    /// at `pos` moved to the front.
    #[verifier::rlimit(50)]
    proof fn lemma_relink_view(self, pre: Self, slot: int, pos: int)
        requires
            0 <= pos < pre.order@.len(),
            pre.order@[pos] == slot,
            self.order@ == pre.order@.remove(pos).insert(0, slot),
            self.arena@.len() == pre.arena@.len(),
            forall|i: int| 0 <= i < pre.order@.len() ==> 0 <= #[trigger] pre.order@[i] < pre.arena@.len(),
            forall|s: int| 0 <= s < pre.arena@.len() ==> {
                &&& (#[trigger] self.arena@[s]).key == pre.arena@[s].key
                &&& self.arena@[s].val == pre.arena@[s].val
            },
        ensures
            self@ == crate::model::bump_to_front(pre@, pos),
    {
        let ord0 = pre.order@;
        let ord = self.order@;
        assert(ord.len() == ord0.len());
        assert(ord[0] == slot);
        assert forall|i: int| 1 <= i < ord.len() implies
            #[trigger] ord[i] == (if i - 1 < pos { ord0[i - 1] } else { ord0[i] }) by {
            assert(ord[i] == ord0.remove(pos)[i - 1]);
        }
        assert forall|i: int| 0 <= i < self@.len() implies
            #[trigger] self@[i] == crate::model::bump_to_front(pre@, pos)[i] by {
            if i == 0 {
                assert(self@[0] == (self.arena@[slot].key, self.arena@[slot].val));
                assert(pre@[pos] == (pre.arena@[slot].key, pre.arena@[slot].val));
            } else {
                let i0: int = if i - 1 < pos { i - 1 } else { i };
                assert(ord[i] == ord0[i0]);
                assert(self@[i] == (self.arena@[ord0[i0]].key, self.arena@[ord0[i0]].val));
                assert(pre@[i0] == (pre.arena@[ord0[i0]].key, pre.arena@[ord0[i0]].val));
                assert(pre@.remove(pos)[i - 1] == (if i - 1 < pos { pre@[i - 1] } else { pre@[i] }));
            }
        }
        assert(self@ =~= crate::model::bump_to_front(pre@, pos));
    }

    /// A key the index does not know is not resident.
    proof fn lemma_absent_key(self, k: K)
        requires
            self.wf(),
            !self.index@.contains_key(k),
        ensures
            !has_key(self@, k),
    {
        if has_key(self@, k) {
            let i = choose|i: int| 0 <= i < self@.len() && self@[i].0 == k;
            assert(self.index@.contains_key(self.arena@[self.order@[i]].key));
        }
    }

    /// Rebinding the value of the most recently used slot keeps the cache
    /// well formed and rewrites the front of the view.
    #[verifier::rlimit(50)]
    proof fn lemma_set_front_val(self, mid: Self, slot: int, v: V)
        requires
            mid.wf(),
            mid.order@.len() > 0,
            mid.order@[0] == slot,
            self.order == mid.order,
            self.index == mid.index,
            self.capacity == mid.capacity,
            self.arena@.len() == mid.arena@.len(),
            forall|s: int| 0 <= s < mid.arena@.len() && s != slot ==>
                #[trigger] self.arena@[s] == mid.arena@[s],
            self.arena@[slot].key == mid.arena@[slot].key,
            self.arena@[slot].prev == mid.arena@[slot].prev,
            self.arena@[slot].next == mid.arena@[slot].next,
            self.arena@[slot].val == v,
        ensures
            self.wf(),
            self@ == mid@.update(0, (mid@[0].0, v)),
    {
        let a0 = mid.arena@;
        let a = self.arena@;
        let ord = self.order@;
        assert forall|i: int| 0 <= i < ord.len() implies {
            &&& (#[trigger] a[ord[i]]).prev == a0[ord[i]].prev
            &&& a[ord[i]].next == a0[ord[i]].next
            &&& a[ord[i]].key == a0[ord[i]].key
        } by {
            if ord[i] != slot {
                assert(a[ord[i]] == a0[ord[i]]);
            }
        }
        assert(a[0] == a0[0]);
        assert forall|k: K| #[trigger] self.index@.contains_key(k) implies
            a[self.index@[k] as int].key == a0[self.index@[k] as int].key by {
            if self.index@[k] as int != slot {
                assert(a[self.index@[k] as int] == a0[self.index@[k] as int]);
            }
        }
        assert(self.wf());
        assert forall|i: int| 0 <= i < self@.len() implies
            #[trigger] self@[i] == mid@.update(0, (mid@[0].0, v))[i] by {
            if i == 0 {
                assert(self@[0] == (a[slot].key, a[slot].val));
                assert(mid@[0] == (a0[slot].key, a0[slot].val));
            } else {
                assert(ord[i] != slot);
                assert(a[ord[i]] == a0[ord[i]]);
                assert(self@[i] == (a0[ord[i]].key, a0[ord[i]].val));
                assert(mid@[i] == (a0[ord[i]].key, a0[ord[i]].val));
            }
        }
        assert(self@ =~= mid@.update(0, (mid@[0].0, v)));
    }

    /// Inserts a fresh key when the cache is full: reuses the slot of the
    /// least recently used pair, whose key leaves the index.
    #[verifier::rlimit(100)]
    fn put_fresh_full(&mut self, key: K, value: V)
        requires
            old(self).wf(),
            !old(self).index@.contains_key(key),
            old(self).order@.len() == old(self).capacity,
            old(self).capacity > 0,
        ensures
            final(self).wf(),
            final(self).cap() == old(self).cap(),
            final(self)@ == seq![(key, value)] + old(self)@.drop_last(),
    {
        let ghost pre = *self;
        let tail = self.pop_back();
        let ghost mid = *self;
        let victim = self.arena[tail].key;
        proof {
            assert(victim == pre.arena@[pre.order@.last()].key);
            assert(pre.index@.contains_key(victim) && pre.index@[victim] as int == pre.order@.last());
        }
        self.index.remove(&victim);
        self.arena[tail] = Node { key, val: value, prev: 0, next: 0 };
        proof {
            let ghost cur = *self;
            assert(cur.index@ == pre.index@.remove(victim));
            // The tail slot left the order, so relinking facts survive the overwrite.
            assert forall|i: int| 0 <= i < cur.order@.len() implies
                #[trigger] cur.order@[i] == pre.order@[i] && cur.order@[i] != tail as int by {
                assert(mid.order@[i] == pre.order@.drop_last()[i]);
            }
            assert forall|i: int| 0 <= i < cur.order@.len() implies
                #[trigger] cur.arena@[cur.order@[i]] == mid.arena@[cur.order@[i]] by {}
            assert(cur.arena@[0] == mid.arena@[0]);
            assert(Self::links_wf(cur.arena@, cur.order@));
            assert(!cur.order@.contains(tail as int));
        }
        self.push_front(tail);
        self.index.insert(key, tail);
        proof {
            self.lemma_full_insert_wf(pre, tail as int, key, value, victim);
        }
    }

    /// The well-formedness and view of the cache after a full-capacity
    /// insertion: the old tail slot, re-keyed and relinked at the front.
    #[verifier::rlimit(100)]
    proof fn lemma_full_insert_wf(self, pre: Self, tail: int, key: K, value: V, victim: K)
        requires
            pre.wf(),
            pre.order@.len() > 0,
            !pre.index@.contains_key(key),
            tail == pre.order@.last(),
            victim == pre.arena@[tail].key,
            self.order@ == pre.order@.drop_last().insert(0, tail),
            self.index@ == pre.index@.remove(victim).insert(key, tail as usize),
            self.capacity == pre.capacity,
            self.arena@.len() == pre.arena@.len(),
            self.arena@[tail].key == key,
            self.arena@[tail].val == value,
            forall|s: int| 0 <= s < pre.arena@.len() && s != tail ==> {
                &&& (#[trigger] self.arena@[s]).key == pre.arena@[s].key
                &&& self.arena@[s].val == pre.arena@[s].val
            },
            Self::links_wf(self.arena@, self.order@),
        ensures
            self.wf(),
            self@ == seq![(key, value)] + pre@.drop_last(),
    {
        let a0 = pre.arena@;
        let a = self.arena@;
        let ord0 = pre.order@;
        let ord = self.order@;
        let m0 = pre.index@;
        let m = self.index@;
        let last = ord0.len() - 1;
        assert(m0[victim] as int == tail);
        assert forall|i: int| 1 <= i < ord.len() implies
            #[trigger] ord[i] == ord0[i - 1] && ord0[i - 1] != tail by {
            assert(ord[i] == ord0.drop_last()[i - 1]);
            if ord0[i - 1] == tail {
                assert(ord0[i - 1] == ord0[last]);
            }
        }
        assert forall|i: int| 0 <= i < ord.len() implies {
            &&& m.contains_key(a[#[trigger] ord[i]].key)
            &&& m[a[ord[i]].key] as int == ord[i]
        } by {
            if i == 0 {
                assert(a[tail].key == key);
            } else {
                let s = ord0[i - 1];
                assert(a[s].key == a0[s].key);
                assert(m0.contains_key(a0[s].key) && m0[a0[s].key] as int == s);
                if a0[s].key == victim {
                    assert(m0[victim] as int == s);
                }
                assert(a0[s].key != victim);
                assert(!m0.contains_key(key));
                assert(a0[s].key != key);
            }
        }
        assert forall|k: K| #[trigger] m.contains_key(k) implies {
            &&& 1 <= m[k] < a.len()
            &&& a[m[k] as int].key == k
            &&& ord.contains(m[k] as int)
        } by {
            if k == key {
                assert(m[key] as int == tail);
                assert(ord[0] == tail);
            } else {
                assert(m0.contains_key(k) && k != victim);
                assert(a0[m0[k] as int].key == k);
                if m0[k] as int == tail {
                    assert(a0[tail].key == k);
                }
                assert(m0[k] as int != tail);
                assert(a[m0[k] as int].key == k);
                let j = choose|j: int| 0 <= j < ord0.len() && ord0[j] == m0[k] as int;
                assert(j != last);
                assert(ord[j + 1] == ord0[j]);
                assert(ord.contains(m0[k] as int));
            }
        }
        assert(self.wf());
        assert forall|i: int| 0 <= i < self@.len() implies
            #[trigger] self@[i] == (seq![(key, value)] + pre@.drop_last())[i] by {
            if i == 0 {
                assert(self@[0] == (a[tail].key, a[tail].val));
            } else {
                let s = ord0[i - 1];
                assert(self@[i] == (a[s].key, a[s].val));
                assert(pre@[i - 1] == (a0[s].key, a0[s].val));
                assert(pre@.drop_last()[i - 1] == pre@[i - 1]);
            }
        }
        assert(self@ =~= seq![(key, value)] + pre@.drop_last());
    }

    /// Inserts a fresh key while spare capacity remains: the pair takes a
    /// brand-new arena slot at the front of the order.
    #[verifier::rlimit(100)]
    fn put_fresh_spare(&mut self, key: K, value: V)
        requires
            old(self).wf(),
            !old(self).index@.contains_key(key),
            old(self).order@.len() < old(self).capacity,
        ensures
            final(self).wf(),
            final(self).cap() == old(self).cap(),
            final(self)@ == seq![(key, value)] + old(self)@,
    {
        let ghost pre = *self;
        let slot = self.arena.len();
        self.arena.push(Node { key, val: value, prev: 0, next: 0 });
        proof {
            let ghost cur = *self;
            assert forall|i: int| 0 <= i < cur.order@.len() implies
                #[trigger] cur.arena@[cur.order@[i]] == pre.arena@[cur.order@[i]]
                && cur.order@[i] != slot as int by {}
            assert(cur.arena@[0] == pre.arena@[0]);
            assert(Self::links_wf(cur.arena@, cur.order@));
            assert(!cur.order@.contains(slot as int));
        }
        self.push_front(slot);
        self.index.insert(key, slot);
        proof {
            self.lemma_spare_insert_wf(pre, slot as int, key, value);
        }
    }

    /// The well-formedness and view of the cache after an insertion into
    /// a fresh arena slot linked at the front.
    #[verifier::rlimit(100)]
    proof fn lemma_spare_insert_wf(self, pre: Self, slot: int, key: K, value: V)
        requires
            pre.wf(),
            pre.order@.len() < pre.capacity,
            !pre.index@.contains_key(key),
            slot == pre.arena@.len(),
            self.order@ == pre.order@.insert(0, slot),
            self.index@ == pre.index@.insert(key, slot as usize),
            self.capacity == pre.capacity,
            self.arena@.len() == pre.arena@.len() + 1,
            self.arena@[slot].key == key,
            self.arena@[slot].val == value,
            forall|s: int| 0 <= s < pre.arena@.len() ==> {
                &&& (#[trigger] self.arena@[s]).key == pre.arena@[s].key
                &&& self.arena@[s].val == pre.arena@[s].val
            },
            Self::links_wf(self.arena@, self.order@),
        ensures
            self.wf(),
            self@ == seq![(key, value)] + pre@,
    {
        let a0 = pre.arena@;
        let a = self.arena@;
        let ord0 = pre.order@;
        let ord = self.order@;
        let m0 = pre.index@;
        let m = self.index@;
        assert forall|i: int| 1 <= i < ord.len() implies
            #[trigger] ord[i] == ord0[i - 1] && ord0[i - 1] != slot by {}
        assert forall|i: int| 0 <= i < ord.len() implies {
            &&& m.contains_key(a[#[trigger] ord[i]].key)
            &&& m[a[ord[i]].key] as int == ord[i]
        } by {
            if i == 0 {
                assert(a[slot].key == key);
            } else {
                let s = ord0[i - 1];
                assert(a[s].key == a0[s].key);
                assert(m0.contains_key(a0[s].key) && m0[a0[s].key] as int == s);
                assert(!m0.contains_key(key));
                assert(a0[s].key != key);
            }
        }
        assert forall|k: K| #[trigger] m.contains_key(k) implies {
            &&& 1 <= m[k] < a.len()
            &&& a[m[k] as int].key == k
            &&& ord.contains(m[k] as int)
        } by {
            if k == key {
                assert(m[key] as int == slot);
                assert(ord[0] == slot);
            } else {
                assert(m0.contains_key(k));
                assert((m0[k] as int) < slot);
                assert(a[m0[k] as int].key == a0[m0[k] as int].key);
                let j = choose|j: int| 0 <= j < ord0.len() && ord0[j] == m0[k] as int;
                assert(ord[j + 1] == ord0[j]);
                assert(ord.contains(m0[k] as int));
            }
        }
        assert(self.wf());
        assert forall|i: int| 0 <= i < self@.len() implies
            #[trigger] self@[i] == (seq![(key, value)] + pre@)[i] by {
            if i == 0 {
                assert(self@[0] == (a[slot].key, a[slot].val));
            } else {
                let s = ord0[i - 1];
                assert(self@[i] == (a[s].key, a[s].val));
                assert(pre@[i - 1] == (a0[s].key, a0[s].val));
            }
        }
        assert(self@ =~= seq![(key, value)] + pre@);
    }

    /// Rebinds the value of the resident key held in `slot` and makes it
    /// the most recently used.
    #[verifier::rlimit(100)]
    fn put_hit(&mut self, key: K, value: V, slot: usize)
        requires
            old(self).wf(),
            old(self).index@.contains_key(key),
            old(self).index@[key] == slot,
        ensures
            final(self).wf(),
            final(self).cap() == old(self).cap(),
            has_key(old(self)@, key),
            final(self)@ == seq![(key, value)] + old(self)@.remove(key_at(old(self)@, key)),
    {
        let ghost pre = *self;
        proof {
            pre.lemma_view_keys_distinct();
            assert(pre.order@.contains(slot as int));
        }
        let ghost pos = choose|i: int|
            0 <= i < pre.order@.len() && pre.order@[i] == slot as int;
        proof {
            assert(pre@[pos] == (pre.arena@[slot as int].key, pre.arena@[slot as int].val));
            lemma_key_at_unique(pre@, key, pos);
        }
        self.detach(slot, Ghost(pos));
        proof {
            assert forall|i: int| 0 <= i < self.order@.len() implies
                #[trigger] self.order@[i] != slot as int by {
                if i < pos {
                    assert(self.order@[i] == pre.order@[i]);
                } else {
                    assert(self.order@[i] == pre.order@[i + 1]);
                }
            }
            assert(!self.order@.contains(slot as int));
        }
        self.push_front(slot);
        let ghost mid = *self;
        proof {
            mid.lemma_relink_wf(pre, slot as int, pos);
            mid.lemma_relink_view(pre, slot as int, pos);
        }
        self.arena[slot].val = value;
        proof {
            self.lemma_set_front_val(mid, slot as int, value);
            assert(mid@[0] == pre@[pos]);
            assert(pre@[pos].0 == key);
            let t = seq![(key, value)] + pre@.remove(pos);
            assert forall|i: int| 0 <= i < self@.len() implies #[trigger] self@[i] == t[i] by {
                if i > 0 {
                    assert(self@[i] == mid@[i]);
                    assert(mid@[i] == (seq![pre@[pos]] + pre@.remove(pos))[i]);
                }
            }
            assert(self@ =~= t);
        }
    }

    /// Stores `value` under `key` and makes that key the most recently
    /// used. An existing key is rebound in place; a fresh key evicts the
    /// least recently used pair when the cache is already full; with
    /// capacity zero nothing is ever stored.
    pub fn put(&mut self, key: K, value: V)
        requires
            old(self).wf(),
        ensures
            final(self).wf(),
            final(self).cap() == old(self).cap(),
            final(self)@.len() <= final(self).cap(),
            final(self)@ == updated(old(self)@, old(self).cap(), key, value),
    {
        let slot_opt: Option<usize> = match self.index.get(&key) {
            Some(s) => Some(*s),
            None => None,
        };
        match slot_opt {
            Some(slot) => {
                self.put_hit(key, value, slot);
            },
            None => {
                proof {
                    assert(!old(self).index@.contains_key(key));
                    old(self).lemma_absent_key(key);
                }
                if self.capacity == 0 {
                    return;
                }
                let size = self.arena.len() - 1;
                if size == self.capacity {
                    self.put_fresh_full(key, value);
                } else {
                    self.put_fresh_spare(key, value);
                }
            },
        }
    }

    /// The number of resident pairs.
    pub fn len(&self) -> (r: usize)
        requires
            self.wf(),
        ensures
            r == self@.len(),
    {
        self.arena.len() - 1
    }
}

/// The cache specialised to 32-bit integer keys and values. A miss is
/// reported as -1, as its callers expect; a stored value of -1 is
/// therefore indistinguishable from a miss through `get`.
pub struct LRUCache {
    cache: LRUCacheBase<i32, i32>,
}

impl LRUCache {
    /// The internal invariant of the underlying cache.
    pub closed spec fn wf(self) -> bool {
        self.cache.wf()
    }

    /// The resident pairs in recency order, most recently used first.
    pub closed spec fn view(self) -> Seq<(i32, i32)> {
        self.cache@
    }

    /// The capacity the cache was constructed with.
    pub closed spec fn cap(self) -> nat {
        self.cache.cap()
    }

    /// Creates an empty cache holding at most `capacity` pairs.
    pub fn new(capacity: i32) -> (r: Self)
        requires
            capacity >= 0,
        ensures
            r.wf(),
            r@ == Seq::<(i32, i32)>::empty(),
            r.cap() == capacity,
    {
        LRUCache { cache: LRUCacheBase::new(capacity as usize) }
    }

    /// Returns the value stored under `key`, or -1 on a miss; a hit
    /// marks the key the most recently used.
    pub fn get(&mut self, key: i32) -> (r: i32)
        requires
            old(self).wf(),
        ensures
            final(self).wf(),
            final(self).cap() == old(self).cap(),
            r == (match lookup(old(self)@, key) {
                Some(v) => v,
                None => -1i32,
            }),
            final(self)@ == touched(old(self)@, key),
    {
        match self.cache.get(&key) {
            Some(v) => v,
            None => -1,
        }
    }

    /// Stores `value` under `key`, evicting the least recently used pair
    /// if a fresh key arrives at full capacity.
    pub fn put(&mut self, key: i32, value: i32)
        requires
            old(self).wf(),
        ensures
            final(self).wf(),
            final(self).cap() == old(self).cap(),
            final(self)@.len() <= final(self).cap(),
            final(self)@ == updated(old(self)@, old(self).cap(), key, value),
    {
        self.cache.put(key, value);
    }

    /// The number of resident pairs.
    pub fn len(&self) -> (r: usize)
        requires
            self.wf(),
        ensures
            r == self@.len(),
    {
        self.cache.len()
    }
}

} // verus!