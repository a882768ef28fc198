//! One scope's bounded "seen before" set.
//!
//! A [`Queue`] stores identifiers in insertion order and keeps a hash index
//! over the same identifiers, so membership tests cost one hash lookup while
//! eviction follows strict FIFO order.  Inserting an identifier that is
//! already present changes nothing: the structure records whether something
//! was seen, not how recently.  That the sequence and the index always hold
//! the same identifiers, and never more of them than the capacity allows,
//! is part of the verified invariant rather than a runtime check.

use vstd::prelude::*;
use std::collections::HashSet;
use std::collections::VecDeque;

verus! {

broadcast use {vstd::std_specs::hash::group_hash_axioms, vstd::seq_lib::seq_to_set_is_finite};

/// Number of identifiers a dedup set retains when no explicit capacity is
/// chosen.
pub const DEFAULT_CAPACITY: usize = 128;

/// The bound actually enforced on the stored sequence.  Every insert of a
/// fresh identifier appends it, even at capacity zero, so the sequence can
/// always hold one element.
pub open spec fn effective_cap(cap: nat) -> nat {
    if cap == 0 {
        1
    } else {
        cap
    }
}

/// What inserting `item` does to a stored sequence under capacity `cap`:
/// nothing if present; otherwise append, evicting the oldest element first
/// when the sequence is full.
pub open spec fn push_model(s: Seq<u64>, cap: nat, item: u64) -> Seq<u64> {
    if s.contains(item) {
        s
    } else if s.len() >= effective_cap(cap) {
        s.drop_first().push(item)
    } else {
        s.push(item)
    }
}

/// The identifier evicted by inserting `item`, if any: the oldest element,
/// exactly when `item` is fresh and the sequence is full.
pub open spec fn push_evicted(s: Seq<u64>, cap: nat, item: u64) -> Option<u64> {
    if !s.contains(item) && s.len() >= effective_cap(cap) {
        Some(s[0])
    } else {
        None
    }
}

/// One scope's fixed-capacity set of previously seen identifiers: the
/// insertion-ordered sequence, the derived hash index over the same
/// identifiers, and the capacity chosen at construction.
pub struct Queue {
    queue: VecDeque<u64>,
    lookup: HashSet<u64>,
    cap: usize,
}

impl View for Queue {
    type V = Seq<u64>;

    closed spec fn view(&self) -> Seq<u64> {
        self.queue@
    }
}

impl Queue {
    /// The contents of the derived hash index.
    pub closed spec fn index(&self) -> Set<u64> {
        self.lookup@
    }

    /// The capacity fixed at construction; it never changes afterwards.
    pub closed spec fn capacity(&self) -> nat {
        self.cap as nat
    }

    /// The stored sequence on its own is sound: no identifier twice, and no
    /// more elements than the capacity allows.
    pub open spec fn seq_invariant(&self) -> bool {
        &&& self@.no_duplicates()
        &&& self@.len() <= effective_cap(self.capacity())
    }

    /// Well-formed: the sequence is sound and the index holds exactly the
    /// identifiers of the sequence.
    pub open spec fn wf(&self) -> bool {
        &&& self.seq_invariant()
        &&& self.index() == self@.to_set()
    }

    /// An empty set with the default capacity.
    pub fn new() -> (q: Queue)
        ensures
            q.wf(),
            q@ == Seq::<u64>::empty(),
            q.capacity() == DEFAULT_CAPACITY as nat,
    {
        let q = Queue { queue: VecDeque::new(), lookup: HashSet::new(), cap: DEFAULT_CAPACITY };
        proof {
            assert(q@.to_set() =~= Set::<u64>::empty());
        }
        q
    }

    /// An empty set that will hold at most `capacity` identifiers.
    pub fn with_capacity(capacity: usize) -> (q: Queue)
        ensures
            q.wf(),
            q@ == Seq::<u64>::empty(),
            q.capacity() == capacity as nat,
    {
        let q = Queue { queue: VecDeque::new(), lookup: HashSet::new(), cap: capacity };
        proof {
            assert(q@.to_set() =~= Set::<u64>::empty());
        }
        q
    }

    /// Pre-allocates room for at least `capacity` identifiers.  Allocation
    /// only: membership, order, the capacity and with it the eviction point
    /// are untouched.
    pub fn reserve(&mut self, capacity: usize)
        requires
            old(self).wf(),
        ensures
            final(self).wf(),
            final(self)@ == old(self)@,
            final(self).index() == old(self).index(),
            final(self).capacity() == old(self).capacity(),
    {
        self.queue.reserve(capacity);
        self.lookup.reserve(capacity);
    }

    /// How many identifiers are currently stored.
    pub fn len(&self) -> (n: usize)
        ensures
            n == self@.len(),
    {
        self.queue.len()
    }

    /// Records `item` as seen.  A present identifier is left alone (no move
    /// in eviction order); a fresh one is appended, evicting and returning
    /// the oldest identifier when the set is full.
    pub fn push(&mut self, item: u64) -> (dropped: Option<u64>)
        requires
            old(self).wf(),
        ensures
            final(self).wf(),
            final(self).capacity() == old(self).capacity(),
            final(self)@ == push_model(old(self)@, old(self).capacity(), item),
            dropped == push_evicted(old(self)@, old(self).capacity(), item),
            final(self)@.contains(item),
            old(self)@.contains(item) ==> *final(self) == *old(self) && dropped is None,
    {
        if self.lookup.contains(&item) {
            proof {
                assert(self@.contains(item));
            }
            return None;
        }
        proof {
            assert(!self@.to_set().contains(item));
            assert(!self@.contains(item));
        }
        let mut dropped: Option<u64> = None;
        if self.queue.len() >= self.cap && self.queue.len() > 0 {
            let ghost pre = self.queue@;
            let first = self.queue.pop_front().unwrap();
            self.lookup.remove(&first);
            dropped = Some(first);
            proof {
                lemma_drop_first_to_set(pre);
                assert(self.lookup@ =~= self.queue@.to_set());
                assert(self.queue@.no_duplicates());
            }
        }
        let ghost mid = self.queue@;
        self.queue.push_back(item);
        self.lookup.insert(item);
        proof {
            lemma_push_to_set(mid, item);
            assert(self.lookup@ =~= self.queue@.to_set());
            assert(!mid.contains(item));
            lemma_push_no_duplicates(mid, item);
            assert(self.queue@[mid.len() as int] == item);
        }
        dropped
    }

    /// The identifier at `position` in insertion order, oldest first.
    pub fn get(&self, position: usize) -> (item: u64)
        requires
            position < self@.len(),
        ensures
            item == self@[position as int],
    {
        self.queue[position]
    }

    /// Whether `item` was seen before, answered from the hash index alone.
    pub fn contains(&self, item: &u64) -> (present: bool)
        requires
            self.wf(),
        ensures
            present == self@.contains(*item),
    {
        self.lookup.contains(item)
    }

    /// Forgets everything; afterwards every membership test fails.
    pub fn clear(&mut self)
        requires
            old(self).wf(),
        ensures
            final(self).wf(),
            final(self)@ == Seq::<u64>::empty(),
            final(self).capacity() == old(self).capacity(),
    {
        self.queue.clear();
        self.lookup.clear();
        proof {
            assert(self.queue@.to_set() =~= Set::<u64>::empty());
        }
    }

    /// A set rebuilt from a persisted sequence: the sequence as it was
    /// stored, the index left empty until [`Queue::optimize`] recomputes it.
    pub(crate) fn from_sequence(items: Vec<u64>, cap: usize) -> (q: Queue)
        requires
            items@.no_duplicates(),
            items@.len() <= effective_cap(cap as nat),
        ensures
            q.seq_invariant(),
            q@ == items@,
            q.capacity() == cap as nat,
    {
        let mut queue: VecDeque<u64> = VecDeque::new();
        let n = items.len();
        let mut i: usize = 0;
        while i < n
            invariant
                n == items@.len(),
                i <= n,
                queue@ == items@.subrange(0, i as int),
            decreases n - i,
        {
            queue.push_back(items[i]);
            proof {
                assert(items@.subrange(0, i as int + 1) =~= items@.subrange(0, i as int).push(
                    items@[i as int],
                ));
            }
            i = i + 1;
        }
        proof {
            assert(items@.subrange(0, n as int) =~= items@);
        }
        Queue { queue, lookup: HashSet::new(), cap }
    }

    /// Discards the hash index and recomputes it from the stored sequence.
    /// The index is a pure cache of the sequence and is never persisted, so
    /// a freshly deserialized set calls this before first use.
    pub fn optimize(&mut self)
        requires
            old(self).seq_invariant(),
        ensures
            final(self).wf(),
            final(self)@ == old(self)@,
            final(self).capacity() == old(self).capacity(),
            rebuild_rel(*old(self), *final(self)),
    {
        self.lookup.clear();
        proof {
            assert(self.lookup@ =~= self.queue@.subrange(0, 0).to_set());
        }
        let n = self.queue.len();
        let mut i: usize = 0;
        while i < n
            invariant
                self.queue@ == old(self)@,
                self.cap == old(self).cap,
                n == self.queue@.len(),
                i <= n,
                self.lookup@ == self.queue@.subrange(0, i as int).to_set(),
            decreases n - i,
        {
            let ghost prefix = self.queue@.subrange(0, i as int);
            let e = self.queue[i];
            self.lookup.insert(e);
            proof {
                lemma_push_to_set(prefix, e);
                assert(self.queue@.subrange(0, i as int + 1) =~= prefix.push(e));
            }
            i = i + 1;
        }
        proof {
            assert(self.queue@.subrange(0, n as int) =~= self.queue@);
        }
    }
}

/// The relation between a set's state before and after one index rebuild:
/// sequence and capacity are kept, and the index holds exactly the
/// sequence's identifiers afterwards.
pub open spec fn rebuild_rel(pre: Queue, post: Queue) -> bool {
    &&& post@ == pre@
    &&& post.capacity() == pre.capacity()
    &&& post.index() == post@.to_set()
}

/// Law: rebuilding the index twice in a row leaves the same stored sequence
/// and the same index — and with them the same membership answers — as
/// rebuilding it once.
pub proof fn lemma_rebuild_idempotent(a: Queue, b: Queue, c: Queue)
    requires
        rebuild_rel(a, b),
        rebuild_rel(b, c),
    ensures
        c@ == b@,
        c.index() == b.index(),
        c.capacity() == b.capacity(),
{
}

/// Folding a whole sequence of inserts, oldest first, over a stored
/// sequence.
pub open spec fn push_all(s: Seq<u64>, cap: nat, ids: Seq<u64>) -> Seq<u64>
    decreases ids.len(),
{
    if ids.len() == 0 {
        s
    } else {
        push_all(push_model(s, cap, ids[0]), cap, ids.drop_first())
    }
}

/// How one insert changes a sound sequence: soundness is preserved, and the
/// element set and length change exactly as the eviction policy dictates.
pub proof fn lemma_push_model_properties(s: Seq<u64>, cap: nat, item: u64)
    requires
        s.no_duplicates(),
        s.len() <= effective_cap(cap),
    ensures
        push_model(s, cap, item).no_duplicates(),
        push_model(s, cap, item).len() <= effective_cap(cap),
        push_model(s, cap, item).to_set() == if s.contains(item) {
            s.to_set()
        } else if s.len() >= effective_cap(cap) {
            s.to_set().remove(s[0]).insert(item)
        } else {
            s.to_set().insert(item)
        },
        push_model(s, cap, item).len() == if !s.contains(item) && s.len() < effective_cap(cap) {
            s.len() + 1
        } else {
            s.len()
        },
{
    if s.contains(item) {
    } else if s.len() >= effective_cap(cap) {
        lemma_drop_first_to_set(s);
        let rest = s.drop_first();
        assert(!rest.contains(item)) by {
            if rest.contains(item) {
                let i = choose|i: int| 0 <= i < rest.len() && rest[i] == item;
                assert(s[i + 1] == item);
            }
        }
        lemma_push_to_set(rest, item);
        lemma_push_no_duplicates(rest, item);
    } else {
        lemma_push_to_set(s, item);
        lemma_push_no_duplicates(s, item);
    }
}

/// The element set of a non-empty sequence is its head plus the element set
/// of the rest.
pub(crate) proof fn lemma_to_set_drop_first(ids: Seq<u64>)
    requires
        ids.len() > 0,
    ensures
        ids.to_set() == ids.drop_first().to_set().insert(ids[0]),
{
    let rest = ids.drop_first();
    assert forall|y: u64| ids.to_set().contains(y) implies rest.to_set().insert(ids[0]).contains(
        y,
    ) by {
        let i = choose|i: int| 0 <= i < ids.len() && ids[i] == y;
        if i > 0 {
            assert(rest[i - 1] == y);
        }
    }
    assert forall|y: u64| rest.to_set().insert(ids[0]).contains(y) implies ids.to_set().contains(
        y,
    ) by {
        if rest.to_set().contains(y) {
            let i = choose|i: int| 0 <= i < rest.len() && rest[i] == y;
            assert(ids[i + 1] == y);
        } else {
            assert(ids[0] == y);
        }
    }
    assert(ids.to_set() =~= rest.to_set().insert(ids[0]));
}

/// Induction step for the size law.  `seen` collects every identifier
/// inserted so far; the stored sequence holds the `seen` identifiers,
/// clipped at the capacity.
proof fn lemma_push_all_size_rec(s: Seq<u64>, seen: Set<u64>, cap: nat, ids: Seq<u64>)
    requires
        cap >= 1,
        s.no_duplicates(),
        s.len() <= cap,
        seen.finite(),
        s.to_set().subset_of(seen),
        s.len() == vstd::math::min(cap as int, seen.len() as int),
        s.len() < cap ==> s.to_set() == seen,
    ensures
        push_all(s, cap, ids).len() == vstd::math::min(
            cap as int,
            seen.union(ids.to_set()).len() as int,
        ),
    decreases ids.len(),
{
    if ids.len() == 0 {
        assert(ids.to_set() =~= Set::<u64>::empty());
        assert(seen.union(ids.to_set()) =~= seen);
    } else {
        let x = ids[0];
        let s2 = push_model(s, cap, x);
        let seen2 = seen.insert(x);
        lemma_push_model_properties(s, cap, x);
        if s.contains(x) {
            assert(seen.contains(x));
            assert(seen2 =~= seen);
        } else if s.len() >= cap {
            assert(seen.len() >= cap);
            assert(s2.to_set().subset_of(seen2));
        } else {
            assert(s.to_set() == seen);
            assert(!seen.contains(x));
            assert(seen2.len() == seen.len() + 1);
            assert(s2.to_set() =~= seen2);
        }
        lemma_push_all_size_rec(s2, seen2, cap, ids.drop_first());
        lemma_to_set_drop_first(ids);
        assert(seen2.union(ids.drop_first().to_set()) =~= seen.union(ids.to_set()));
    }
}

/// Law: after any sequence of inserts into one empty scope with capacity
/// `cap` (at least one), the number of stored identifiers equals the number
/// of distinct identifiers inserted, clipped at the capacity — so it never
/// exceeds the capacity.
pub proof fn lemma_insert_sequence_size(cap: nat, ids: Seq<u64>)
    requires
        cap >= 1,
    ensures
        push_all(Seq::<u64>::empty(), cap, ids).len() == vstd::math::min(
            cap as int,
            ids.to_set().len() as int,
        ),
        push_all(Seq::<u64>::empty(), cap, ids).len() <= cap,
{
    let s0 = Seq::<u64>::empty();
    assert(s0.to_set() =~= Set::<u64>::empty());
    lemma_push_all_size_rec(s0, Set::<u64>::empty(), cap, ids);
    assert(Set::<u64>::empty().union(ids.to_set()) =~= ids.to_set());
}

/// Appending a fresh element extends the element set by exactly that element.
pub(crate) proof fn lemma_push_to_set(s: Seq<u64>, x: u64)
    ensures
        s.push(x).to_set() == s.to_set().insert(x),
{
    assert forall|y: u64| s.push(x).to_set().contains(y) implies s.to_set().insert(x).contains(
        y,
    ) by {
        let i = choose|i: int| 0 <= i < s.push(x).len() && s.push(x)[i] == y;
        if i < s.len() {
            assert(s[i] == y);
        }
    }
    assert forall|y: u64| s.to_set().insert(x).contains(y) implies s.push(x).to_set().contains(
        y,
    ) by {
        if s.to_set().contains(y) {
            let i = choose|i: int| 0 <= i < s.len() && s[i] == y;
            assert(s.push(x)[i] == y);
        } else {
            assert(s.push(x)[s.len() as int] == x);
        }
    }
    assert(s.push(x).to_set() =~= s.to_set().insert(x));
}

/// Appending a fresh element keeps the sequence free of duplicates.
pub(crate) proof fn lemma_push_no_duplicates(s: Seq<u64>, x: u64)
    requires
        s.no_duplicates(),
        !s.contains(x),
    ensures
        s.push(x).no_duplicates(),
{
    assert forall|i: int, j: int|
        0 <= i < s.push(x).len() && 0 <= j < s.push(x).len() && i != j implies s.push(x)[i]
        != s.push(x)[j] by {
        if i < s.len() && j < s.len() {
            assert(s[i] != s[j]);
        } else if i < s.len() {
            assert(s[i] != x);
        } else if j < s.len() {
            assert(s[j] != x);
        }
    }
}

/// Dropping the head of a duplicate-free sequence removes exactly the head
/// from its element set, and keeps the rest duplicate-free.
pub(crate) proof fn lemma_drop_first_to_set(s: Seq<u64>)
    requires
        s.no_duplicates(),
        s.len() > 0,
    ensures
        s.drop_first().to_set() == s.to_set().remove(s[0]),
        s.drop_first().no_duplicates(),
{
    let rest = s.drop_first();
    assert forall|y: u64| rest.to_set().contains(y) implies s.to_set().remove(s[0]).contains(
        y,
    ) by {
        let i = choose|i: int| 0 <= i < rest.len() && rest[i] == y;
        assert(s[i + 1] == y);
        assert(s[i + 1] != s[0]);
    }
    assert forall|y: u64| s.to_set().remove(s[0]).contains(y) implies rest.to_set().contains(
        y,
    ) by {
        let i = choose|i: int| 0 <= i < s.len() && s[i] == y;
        assert(i != 0);
        assert(rest[i - 1] == y);
    }
    assert(rest.to_set() =~= s.to_set().remove(s[0]));
}

} // verus!
