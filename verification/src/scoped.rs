//! The process-wide cache: one [`Queue`] per scope, created lazily.
//!
//! A scope key names an independent deduplication namespace (for example one
//! chat community).  Scopes are created on first insert and never removed,
//! so every scope present holds at least one identifier.  The abstract state
//! is a map from scope key to that scope's stored sequence.

use vstd::prelude::*;
use std::collections::HashMap;
use crate::dedup::Queue;
use crate::dedup::effective_cap;
use crate::dedup::push_model;
use crate::dedup::push_evicted;
use crate::dedup::lemma_push_to_set;
use crate::dedup::lemma_push_no_duplicates;

verus! {

broadcast use vstd::std_specs::hash::group_hash_axioms;

/// Membership over the abstract state: false for an absent scope.
pub open spec fn cache_contains(m: Map<u64, Seq<u64>>, scope: u64, id: u64) -> bool {
    m.contains_key(scope) && m[scope].contains(id)
}

/// The sequence a scope currently stores; empty when the scope is absent.
pub open spec fn scope_seq(m: Map<u64, Seq<u64>>, scope: u64) -> Seq<u64> {
    if m.contains_key(scope) {
        m[scope]
    } else {
        Seq::<u64>::empty()
    }
}

/// What one insert does to the abstract state: the scope's sequence —
/// empty if the scope is new — after one push.
pub open spec fn cache_insert(m: Map<u64, Seq<u64>>, cap: nat, scope: u64, id: u64) -> Map<
    u64,
    Seq<u64>,
> {
    m.insert(scope, push_model(scope_seq(m, scope), cap, id))
}

/// All scopes' dedup sets, reached through a hash index on the scope key.
/// The key list remembers creation order, which fixes the order scopes are
/// persisted in.
pub struct ScopedCache {
    keys: Vec<u64>,
    sets: Vec<Queue>,
    index: HashMap<u64, usize>,
    cap: usize,
}

impl View for ScopedCache {
    type V = Map<u64, Seq<u64>>;

    closed spec fn view(&self) -> Map<u64, Seq<u64>> {
        Map::new(|k: u64| self.keys@.contains(k), |k: u64| self.sets@[self.index@[k] as int]@)
    }
}

impl ScopedCache {
    /// The capacity every scope's set is created with.
    pub closed spec fn capacity(&self) -> nat {
        self.cap as nat
    }

    /// The persistable entries: scope keys in creation order, each with its
    /// stored sequence.
    pub closed spec fn entries(&self) -> Seq<(u64, Seq<u64>)> {
        Seq::new(self.keys@.len(), |i: int| (self.keys@[i], self.sets@[i]@))
    }

    /// Well-formed: key list and set list run in parallel, the hash index
    /// maps each key to its position, every set is well-formed with the
    /// shared capacity, and no scope is empty.
    pub closed spec fn wf(&self) -> bool {
        &&& self.keys@.len() == self.sets@.len()
        &&& self.keys@.no_duplicates()
        &&& self.index@.dom() == self.keys@.to_set()
        &&& forall|i: int|
            0 <= i < self.keys@.len() ==> self.index@[#[trigger] self.keys@[i]] as int == i
        &&& forall|k: u64|
            self.index@.dom().contains(k) ==> ((#[trigger] self.index@[k]) as int)
                < self.keys@.len() && self.keys@[self.index@[k] as int] == k
        &&& forall|i: int| 0 <= i < self.sets@.len() ==> (#[trigger] self.sets@[i]).wf()
        &&& forall|i: int|
            0 <= i < self.sets@.len() ==> (#[trigger] self.sets@[i]).capacity() == self.cap as nat
        &&& forall|i: int| 0 <= i < self.sets@.len() ==> (#[trigger] self.sets@[i])@.len() > 0
    }

    /// An empty cache whose scopes will each hold at most `capacity`
    /// identifiers.
    pub fn new(capacity: usize) -> (c: ScopedCache)
        ensures
            c.wf(),
            c@ == Map::<u64, Seq<u64>>::empty(),
            c.entries() == Seq::<(u64, Seq<u64>)>::empty(),
            c.capacity() == capacity as nat,
    {
        let c = ScopedCache {
            keys: Vec::new(),
            sets: Vec::new(),
            index: HashMap::new(),
            cap: capacity,
        };
        proof {
            assert(c.keys@.to_set() =~= Set::<u64>::empty());
            assert(c@ =~= Map::<u64, Seq<u64>>::empty());
            assert(c.entries() =~= Seq::<(u64, Seq<u64>)>::empty());
        }
        c
    }

    /// Whether `scope` was created already.
    pub fn has_scope(&self, scope: u64) -> (present: bool)
        requires
            self.wf(),
        ensures
            present == self@.contains_key(scope),
    {
        self.index.contains_key(&scope)
    }

    /// Whether `id` was seen in `scope`; false for an absent scope.
    pub fn contains(&self, scope: u64, id: u64) -> (present: bool)
        requires
            self.wf(),
        ensures
            present == cache_contains(self@, scope, id),
    {
        let position: Option<usize> = match self.index.get(&scope) {
            Some(i) => Some(*i),
            None => None,
        };
        match position {
            Some(i) => {
                proof {
                    assert(self.index@.dom().contains(scope));
                    assert(self.keys@[i as int] == scope);
                    assert(i < self.sets@.len());
                    assert(self@[scope] == self.sets@[i as int]@);
                }
                self.sets[i].contains(&id)
            },
            None => {
                proof {
                    assert(!self.keys@.to_set().contains(scope));
                }
                false
            },
        }
    }

    /// Records `id` as seen in `scope`, creating the scope's set at the
    /// shared capacity on first use, and returns the identifier this insert
    /// evicted, if any.
    pub fn insert(&mut self, scope: u64, id: u64) -> (evicted: Option<u64>)
        requires
            old(self).wf(),
        ensures
            final(self).wf(),
            final(self).capacity() == old(self).capacity(),
            final(self)@ == cache_insert(old(self)@, old(self).capacity(), scope, id),
            evicted == push_evicted(scope_seq(old(self)@, scope), old(self).capacity(), id),
            cache_contains(final(self)@, scope, id),
            cache_contains(old(self)@, scope, id) ==> final(self)@ == old(self)@ && evicted
                is None,
    {
        let position: Option<usize> = match self.index.get(&scope) {
            Some(i) => Some(*i),
            None => None,
        };
        match position {
            Some(i) => {
                proof {
                    assert(self.index@.dom().contains(scope));
                    assert(self.keys@[i as int] == scope);
                    assert(i < self.sets@.len());
                    assert(self@[scope] == self.sets@[i as int]@);
                }
                let ghost pre = *self;
                let set_ref = &mut self.sets[i];
                let dropped = set_ref.push(id);
                proof {
                    if cache_contains(pre@, scope, id) {
                        assert(pre@.insert(scope, pre@[scope]) =~= pre@);
                    }
                }
                proof {
                    assert(self.keys@ == pre.keys@);
                    assert(self.index@ == pre.index@);
                    assert(self.sets@ == pre.sets@.update(i as int, self.sets@[i as int]));
                    assert(self.sets@[i as int]@ == push_model(pre@[scope], pre.capacity(), id));
                    assert forall|k: u64|
                        self@.contains_key(k) implies self@[k] == cache_insert(
                        pre@,
                        pre.capacity(),
                        scope,
                        id,
                    )[k] by {
                        assert(self.keys@.to_set().contains(k));
                        assert(self.index@.dom().contains(k));
                        let p = self.index@[k] as int;
                        assert(self.keys@[p] == k);
                        assert(self@[k] == self.sets@[p]@);
                        if k == scope {
                            if p != i as int {
                                assert(self.keys@[p] != self.keys@[i as int]);
                                assert(false);
                            }
                        } else {
                            assert(p != i as int);
                            assert(self.sets@[p] == pre.sets@[p]);
                            assert(pre@[k] == pre.sets@[p]@);
                        }
                    }
                    assert(self@ =~= cache_insert(pre@, pre.capacity(), scope, id));
                }
                dropped
            },
            None => {
                proof {
                    assert(!self.keys@.to_set().contains(scope));
                    assert(!self.keys@.contains(scope));
                    assert(!self@.contains_key(scope));
                }
                let ghost pre = *self;
                let mut fresh = Queue::with_capacity(self.cap);
                let dropped = fresh.push(id);
                let pos = self.sets.len();
                self.index.insert(scope, pos);
                self.keys.push(scope);
                self.sets.push(fresh);
                proof {
                    lemma_push_to_set(pre.keys@, scope);
                    lemma_push_no_duplicates(pre.keys@, scope);
                    assert(self.index@.dom() =~= self.keys@.to_set());
                    assert forall|k: int|
                        0 <= k < self.keys@.len() implies self.index@[#[trigger] self.keys@[k]]
                        as int == k by {
                        if k < pre.keys@.len() {
                            assert(pre.keys@[k] != scope);
                            assert(pre.index@.dom().contains(pre.keys@[k]));
                        }
                    }
                    assert forall|k: u64|
                        self.index@.dom().contains(k) implies ((self.index@[k]) as int)
                        < self.keys@.len() && self.keys@[self.index@[k] as int] == k by {
                        if k != scope {
                            assert(pre.index@.dom().contains(k));
                            assert((pre.index@[k] as int) < pre.keys@.len());
                        }
                    }
                    assert forall|k: u64|
                        self@.contains_key(k) implies self@[k] == cache_insert(
                        pre@,
                        pre.capacity(),
                        scope,
                        id,
                    )[k] by {
                        assert(self.index@.dom().contains(k));
                        let p = self.index@[k] as int;
                        assert(self.keys@[p] == k);
                        assert(self@[k] == self.sets@[p]@);
                        if k == scope {
                            if p < pre.keys@.len() {
                                assert(pre.keys@[p] == scope);
                                assert(false);
                            }
                            assert(p == pos as int);
                        } else {
                            if p == pos as int {
                                assert(false);
                            }
                            assert(p < pre.keys@.len());
                            assert(self.sets@[p] == pre.sets@[p]);
                            assert(pre@[k] == pre.sets@[p]@);
                        }
                    }
                    assert(self@ =~= cache_insert(pre@, pre.capacity(), scope, id));
                }
                dropped
            },
        }
    }

    /// Sum of all scopes' element counts, for diagnostics; clipped at
    /// `u64::MAX`.
    pub fn total_entries(&self) -> (total: u64)
        requires
            self.wf(),
        ensures
            total as int == vstd::math::min(total_model(self.entries()), u64::MAX as int),
    {
        let mut total: u64 = 0;
        let n = self.keys.len();
        let mut i: usize = 0;
        while i < n
            invariant
                self.wf(),
                n == self.sets@.len(),
                i <= n,
                total as int == vstd::math::min(
                    total_model(self.entries().subrange(0, i as int)),
                    u64::MAX as int,
                ),
            decreases n - i,
        {
            let count = self.sets[i].len() as u64;
            proof {
                assert(self.entries().subrange(0, i as int + 1).drop_last() =~= self.entries()
                    .subrange(0, i as int));
                assert(total_model(self.entries().subrange(0, i as int + 1)) == total_model(
                    self.entries().subrange(0, i as int),
                ) + self.sets@[i as int]@.len());
            }
            if total > u64::MAX - count {
                total = u64::MAX;
            } else {
                total = total + count;
            }
            i = i + 1;
        }
        proof {
            assert(self.entries().subrange(0, n as int) =~= self.entries());
        }
        total
    }

    /// How many scopes exist.
    pub fn scope_count(&self) -> (n: usize)
        ensures
            n == self.entries().len(),
    {
        self.keys.len()
    }

    /// The key of the scope at `position` in creation order.
    pub fn scope_key(&self, position: usize) -> (key: u64)
        requires
            position < self.entries().len(),
        ensures
            key == self.entries()[position as int].0,
    {
        self.keys[position]
    }

    /// The dedup set of the scope at `position` in creation order.
    pub fn scope_set(&self, position: usize) -> (q: &Queue)
        requires
            self.wf(),
            position < self.entries().len(),
        ensures
            q.wf(),
            q@ == self.entries()[position as int].1,
    {
        &self.sets[position]
    }

    /// Adds a scope loaded from persisted data: the stored sequence is kept
    /// as it stands and its index is rebuilt before first use.
    pub(crate) fn insert_scope(&mut self, key: u64, items: Vec<u64>)
        requires
            old(self).wf(),
            !old(self)@.contains_key(key),
            items@.no_duplicates(),
            0 < items@.len() <= effective_cap(old(self).capacity()),
        ensures
            final(self).wf(),
            final(self).capacity() == old(self).capacity(),
            final(self)@ == old(self)@.insert(key, items@),
            final(self).entries() == old(self).entries().push((key, items@)),
    {
        proof {
            assert(!self.keys@.to_set().contains(key));
            assert(!self.keys@.contains(key));
        }
        let ghost pre = *self;
        let mut fresh = Queue::from_sequence(items, self.cap);
        fresh.optimize();
        let pos = self.sets.len();
        self.index.insert(key, pos);
        self.keys.push(key);
        self.sets.push(fresh);
        proof {
            lemma_push_to_set(pre.keys@, key);
            lemma_push_no_duplicates(pre.keys@, key);
            assert(self.index@.dom() =~= self.keys@.to_set());
            assert forall|k: int|
                0 <= k < self.keys@.len() implies self.index@[#[trigger] self.keys@[k]] as int
                == k by {
                if k < pre.keys@.len() {
                    assert(pre.keys@[k] != key);
                    assert(pre.index@.dom().contains(pre.keys@[k]));
                }
            }
            assert forall|k: u64|
                self.index@.dom().contains(k) implies ((self.index@[k]) as int)
                    < self.keys@.len() && self.keys@[self.index@[k] as int] == k by {
                if k != key {
                    assert(pre.index@.dom().contains(k));
                    assert((pre.index@[k] as int) < pre.keys@.len());
                }
            }
            assert(self.entries() =~= pre.entries().push((key, items@)));
            assert forall|k: u64| self@.contains_key(k) implies self@[k] == pre@.insert(
                key,
                items@,
            )[k] by {
                assert(self.index@.dom().contains(k));
                let p = self.index@[k] as int;
                assert(self.keys@[p] == k);
                assert(self@[k] == self.sets@[p]@);
                if k == key {
                    if p < pre.keys@.len() {
                        assert(pre.keys@[p] == key);
                        assert(false);
                    }
                } else {
                    if p == pos as int {
                        assert(false);
                    }
                    assert(p < pre.keys@.len());
                    assert(self.sets@[p] == pre.sets@[p]);
                    assert(pre@[k] == pre.sets@[p]@);
                }
            }
            assert(self@ =~= pre@.insert(key, items@));
        }
    }

    /// How the persistable entries determine the abstract state: the entry
    /// keys are exactly the scopes, pairwise distinct, each mapped to its
    /// stored sequence, and every stored sequence is sound and non-empty.
    pub proof fn lemma_entries_characterize_view(&self)
        requires
            self.wf(),
        ensures
            self.capacity() <= u64::MAX,
            forall|k: u64|
                self@.contains_key(k) <==> exists|i: int|
                    0 <= i < self.entries().len() && (#[trigger] self.entries()[i]).0 == k,
            forall|i: int|
                0 <= i < self.entries().len() ==> self@.contains_key(
                    (#[trigger] self.entries()[i]).0,
                ) && self@[self.entries()[i].0] == self.entries()[i].1,
            forall|i: int, j: int|
                0 <= i < j < self.entries().len() ==> (#[trigger] self.entries()[i]).0 != (
                #[trigger] self.entries()[j]).0,
            forall|i: int|
                0 <= i < self.entries().len() ==> (#[trigger] self.entries()[i]).1.no_duplicates()
                    && 0 < self.entries()[i].1.len() <= effective_cap(self.capacity()),
    {
        assert forall|k: u64| self@.contains_key(k) implies exists|i: int|
            0 <= i < self.entries().len() && (#[trigger] self.entries()[i]).0 == k by {
            let j = choose|j: int| 0 <= j < self.keys@.len() && self.keys@[j] == k;
            assert(self.entries()[j].0 == k);
        }
        assert forall|i: int|
            0 <= i < self.entries().len() implies self@.contains_key(
            (#[trigger] self.entries()[i]).0,
        ) && self@[self.entries()[i].0] == self.entries()[i].1 by {
            assert(self.keys@.contains(self.keys@[i]));
            assert(self.index@.dom().contains(self.keys@[i]));
            assert(self.index@[self.keys@[i]] as int == i);
            assert(self@[self.keys@[i]] == self.sets@[i]@);
        }
    }
}

/// Sum of the element counts of a sequence of persistable entries.
pub open spec fn total_model(es: Seq<(u64, Seq<u64>)>) -> int
    decreases es.len(),
{
    if es.len() == 0 {
        0
    } else {
        total_model(es.drop_last()) + es.last().1.len()
    }
}

} // verus!
