use vstd::prelude::*;

use crate::ring::EventRing;
use crate::timed::Timed;

verus! {

/// How many events the renderer can hold back for later blocks.
pub const PENDING_CAPACITY: usize = 256;

/// The events of `s` are in non-decreasing sample order.
pub open spec fn sorted_by_sample<K>(s: Seq<Timed<K>>) -> bool {
    forall|i: int, j: int| 0 <= i <= j < s.len() ==> #[trigger] s[i].sample <= #[trigger] s[j].sample
}

/// Where an event stamped `sample` goes when it is inserted scanning from
/// the back: before the trailing run of events stamped strictly later.
pub open spec fn insertion_point<K>(s: Seq<Timed<K>>, sample: u64) -> int
    decreases s.len(),
{
    if s.len() == 0 {
        0
    } else if s.last().sample > sample {
        insertion_point(s.drop_last(), sample)
    } else {
        s.len() as int
    }
}

/// `s` with `e` inserted after every event stamped at or before it.
pub open spec fn insert_sorted<K>(s: Seq<Timed<K>>, e: Timed<K>) -> Seq<Timed<K>> {
    s.insert(insertion_point(s, e.sample), e)
}

/// `s` with the events of `arrivals` inserted one after the other.
pub open spec fn insert_all<K>(s: Seq<Timed<K>>, arrivals: Seq<Timed<K>>) -> Seq<Timed<K>>
    decreases arrivals.len(),
{
    if arrivals.len() == 0 {
        s
    } else {
        insert_sorted(insert_all(s, arrivals.drop_last()), arrivals.last())
    }
}

proof fn lemma_insertion_point_bounds<K>(s: Seq<Timed<K>>, sample: u64)
    ensures
        0 <= insertion_point(s, sample) <= s.len(),
        forall|j: int|
            insertion_point(s, sample) <= j < s.len() ==> (#[trigger] s[j]).sample > sample,
    decreases s.len(),
{
    if s.len() > 0 && s.last().sample > sample {
        let d = s.drop_last();
        lemma_insertion_point_bounds(d, sample);
        assert forall|j: int| insertion_point(s, sample) <= j < s.len() implies (#[trigger] s[j]).sample
            > sample by {
            if j < d.len() {
                assert(s[j] == d[j]);
            }
        }
    }
}

/// In a sorted list the insertion point splits the events stamped at or
/// before `sample` from those stamped after it.
proof fn lemma_insertion_point_sorted<K>(s: Seq<Timed<K>>, sample: u64)
    requires
        sorted_by_sample(s),
    ensures
        forall|j: int| 0 <= j < insertion_point(s, sample) ==> (#[trigger] s[j]).sample <= sample,
    decreases s.len(),
{
    if s.len() > 0 {
        let d = s.drop_last();
        if s.last().sample > sample {
            assert(sorted_by_sample(d)) by {
                assert forall|i: int, j: int| 0 <= i <= j < d.len() implies #[trigger] d[i].sample
                    <= #[trigger] d[j].sample by {
                    assert(d[i] == s[i] && d[j] == s[j]);
                }
            }
            lemma_insertion_point_sorted(d, sample);
            assert forall|j: int| 0 <= j < insertion_point(s, sample) implies (#[trigger] s[j]).sample
                <= sample by {
                assert(s[j] == d[j]);
            }
        } else {
            assert forall|j: int| 0 <= j < insertion_point(s, sample) implies (#[trigger] s[j]).sample
                <= sample by {
                assert(s[j].sample <= s[s.len() - 1].sample);
            }
        }
    }
}

/// Inserting into a sorted list keeps it sorted.
pub proof fn lemma_insert_sorted_keeps_order<K>(s: Seq<Timed<K>>, e: Timed<K>)
    requires
        sorted_by_sample(s),
    ensures
        sorted_by_sample(insert_sorted(s, e)),
        insert_sorted(s, e).len() == s.len() + 1,
        insert_sorted(s, e).to_multiset() == s.to_multiset().insert(e),
{
    lemma_insertion_point_bounds(s, e.sample);
    lemma_insertion_point_sorted(s, e.sample);
    let p = insertion_point(s, e.sample);
    let r = s.insert(p, e);
    assert forall|i: int, j: int| 0 <= i <= j < r.len() implies #[trigger] r[i].sample
        <= #[trigger] r[j].sample by {
        if i < p && j < p {
        } else if i < p && j == p {
        } else if i < p {
            assert(r[j] == s[j - 1]);
        } else if i == p && j == p {
        } else if i == p {
            assert(r[j] == s[j - 1]);
        } else {
            assert(r[i] == s[i - 1]);
            assert(r[j] == s[j - 1]);
        }
    }
    vstd::seq_lib::to_multiset_insert(s, p, e);
}

/// Inserting a batch of arrivals into a sorted list keeps it sorted and
/// loses or invents no event.
pub proof fn lemma_insert_all<K>(s: Seq<Timed<K>>, arrivals: Seq<Timed<K>>)
    requires
        sorted_by_sample(s),
    ensures
        sorted_by_sample(insert_all(s, arrivals)),
        insert_all(s, arrivals).len() == s.len() + arrivals.len(),
        insert_all(s, arrivals).to_multiset() == s.to_multiset().add(arrivals.to_multiset()),
    decreases arrivals.len(),
{
    broadcast use vstd::multiset::group_multiset_axioms;

    if arrivals.len() == 0 {
        broadcast use vstd::seq_lib::group_to_multiset_ensures;

        vstd::multiset::lemma_multiset_empty_len(arrivals.to_multiset());
        assert(s.to_multiset().add(arrivals.to_multiset()) =~= s.to_multiset());
    } else {
        let front = arrivals.drop_last();
        lemma_insert_all(s, front);
        lemma_insert_sorted_keeps_order(insert_all(s, front), arrivals.last());
        assert(arrivals =~= front.push(arrivals.last()));
        vstd::seq_lib::to_multiset_build(front, arrivals.last());
        assert(insert_all(s, arrivals).to_multiset() =~= s.to_multiset().add(
            arrivals.to_multiset(),
        ));
    }
}

/// Events that arrived from the queue but are not yet due, kept in sample
/// order. Holds at most [`PENDING_CAPACITY`] events and allocates only when
/// it is created.
pub struct PendingList<K: Copy> {
    items: Vec<Timed<K>>,
}

impl<K: Copy> View for PendingList<K> {
    type V = Seq<Timed<K>>;

    closed spec fn view(&self) -> Seq<Timed<K>> {
        self.items@
    }
}

impl<K: Copy> PendingList<K> {
    /// The list's invariant: sorted by sample and within capacity.
    pub open spec fn wf(&self) -> bool {
        &&& self@.len() <= PENDING_CAPACITY
        &&& sorted_by_sample(self@)
    }

    /// An empty list with room for [`PENDING_CAPACITY`] events.
    pub fn new() -> (r: Self)
        ensures
            r.wf(),
            r@ == Seq::<Timed<K>>::empty(),
    {
        PendingList { items: Vec::with_capacity(PENDING_CAPACITY) }
    }

    /// Number of pending events.
    pub fn len(&self) -> (n: usize)
        ensures
            n == self@.len(),
    {
        self.items.len()
    }

    /// The pending event at `i` (0 is the earliest).
    pub fn get(&self, i: usize) -> (e: Timed<K>)
        requires
            i < self@.len(),
        ensures
            e == self@[i as int],
    {
        self.items[i]
    }

    /// Inserts an event after every pending event stamped at or before it,
    /// scanning from the back: events arrive almost sorted, so this is a
    /// handful of moves.
    pub fn insert(&mut self, e: Timed<K>)
        requires
            old(self).wf(),
            old(self)@.len() < PENDING_CAPACITY,
        ensures
            final(self).wf(),
            final(self)@ == insert_sorted(old(self)@, e),
            0 <= insertion_point(old(self)@, e.sample) <= old(self)@.len(),
            forall|j: int|
                0 <= j < insertion_point(old(self)@, e.sample) ==> (#[trigger] old(self)@[j]).sample
                    <= e.sample,
            forall|j: int|
                insertion_point(old(self)@, e.sample) <= j < old(self)@.len() ==> (#[trigger] old(
                    self,
                )@[j]).sample > e.sample,
    {
        proof {
            lemma_insertion_point_bounds(self@, e.sample);
            lemma_insertion_point_sorted(self@, e.sample);
        }
        let ghost s = self@;
        let mut i: usize = self.items.len();
        self.items.push(e);
        proof {
            assert(s.take(i as int) =~= s);
        }
        while i > 0 && self.items[i - 1].sample > e.sample
            invariant
                i <= s.len(),
                self@.len() == s.len() + 1,
                forall|j: int| 0 <= j < i ==> self@[j] == s[j],
                forall|j: int| i < j <= s.len() ==> self@[j] == s[j - 1],
                insertion_point(s, e.sample) == insertion_point(s.take(i as int), e.sample),
            decreases i,
        {
            let prev = self.items[i - 1];
            self.items.set(i, prev);
            proof {
                let t = s.take(i as int);
                assert(t.drop_last() =~= s.take(i - 1));
                assert(t.last() == s[i - 1]);
            }
            i -= 1;
        }
        self.items.set(i, e);
        proof {
            if i > 0 {
                assert(s.take(i as int).last() == s[i - 1]);
            }
            assert(insertion_point(s, e.sample) == i);
            assert(self@ =~= s.insert(i as int, e));
            lemma_insert_sorted_keeps_order(s, e);
        }
    }

    /// Moves queued events into the list, keeping it sorted by sample, until
    /// the list is full or the queue is empty.
    pub fn pull_from(&mut self, queue: &mut EventRing<Timed<K>>)
        requires
            old(self).wf(),
            old(queue).wf(),
        ensures
            final(self).wf(),
            final(queue).wf(),
            final(queue).spec_capacity() == old(queue).spec_capacity(),
            ({
                let n = if old(queue)@.len() <= PENDING_CAPACITY - old(self)@.len() {
                    old(queue)@.len() as int
                } else {
                    PENDING_CAPACITY - old(self)@.len()
                };
                &&& final(queue)@ == old(queue)@.skip(n)
                &&& final(self)@ == insert_all(old(self)@, old(queue)@.take(n))
            }),
    {
        let ghost s0 = self@;
        let ghost q0 = queue@;
        let ghost mut moved: int = 0;
        proof {
            assert(q0.take(0) =~= Seq::<Timed<K>>::empty());
            assert(q0.skip(0) =~= q0);
        }
        loop
            invariant
                self.wf(),
                queue.wf(),
                queue.spec_capacity() == old(queue).spec_capacity(),
                q0 == old(queue)@,
                s0 == old(self)@,
                0 <= moved <= q0.len(),
                self@.len() == s0.len() + moved,
                queue@ == q0.skip(moved),
                self@ == insert_all(s0, q0.take(moved)),
            ensures
                self.wf(),
                queue.wf(),
                queue.spec_capacity() == old(queue).spec_capacity(),
                self@.len() == PENDING_CAPACITY || moved == q0.len(),
                0 <= moved <= q0.len(),
                self@.len() == s0.len() + moved,
                queue@ == q0.skip(moved),
                self@ == insert_all(s0, q0.take(moved)),
            decreases q0.len() - moved,
        {
            if self.items.len() >= PENDING_CAPACITY {
                break;
            }
            match queue.pop() {
                Some(e) => {
                    proof {
                        assert(q0.take(moved + 1).drop_last() =~= q0.take(moved));
                        assert(q0.take(moved + 1).last() == e);
                        assert(q0.skip(moved + 1) =~= q0.skip(moved).drop_first());
                        lemma_insert_sorted_keeps_order(self@, e);
                    }
                    self.insert(e);
                    proof {
                        moved = moved + 1;
                    }
                },
                None => {
                    break;
                },
            }
        }
    }

    /// Number of pending events due at `now`: every event stamped at or
    /// before it, late ones included.
    pub fn due_count(&self, now: u64) -> (n: usize)
        requires
            self.wf(),
        ensures
            n <= self@.len(),
            forall|j: int| 0 <= j < n ==> (#[trigger] self@[j]).sample <= now,
            forall|j: int| n <= j < self@.len() ==> (#[trigger] self@[j]).sample > now,
    {
        let mut n: usize = 0;
        while n < self.items.len() && self.items[n].sample <= now
            invariant
                self.wf(),
                n <= self@.len(),
                forall|j: int| 0 <= j < n ==> (#[trigger] self@[j]).sample <= now,
            decreases self@.len() - n,
        {
            n += 1;
        }
        proof {
            assert forall|j: int| n <= j < self@.len() implies (#[trigger] self@[j]).sample > now by {
                assert(self@[n as int].sample <= self@[j].sample);
            }
        }
        n
    }

    /// Drops the `k` earliest events (those just applied).
    pub fn discard_front(&mut self, k: usize)
        requires
            old(self).wf(),
            k <= old(self)@.len(),
        ensures
            final(self).wf(),
            final(self)@ == old(self)@.skip(k as int),
    {
        let ghost s = self@;
        let len = self.items.len();
        let mut j: usize = 0;
        while j + k < len
            invariant
                j + k <= len,
                len == s.len(),
                self@.len() == len,
                forall|m: int| 0 <= m < j ==> self@[m] == s[m + k],
                forall|m: int| j <= m < len ==> self@[m] == s[m],
            decreases len - j,
        {
            let next = self.items[j + k];
            self.items.set(j, next);
            j += 1;
        }
        self.items.truncate(len - k);
        proof {
            assert(self@ =~= s.skip(k as int));
            assert forall|a: int, b: int| 0 <= a <= b < self@.len() implies #[trigger] self@[a].sample
                <= #[trigger] self@[b].sample by {
                assert(s[a + k].sample <= s[b + k].sample);
            }
        }
    }
}

} // verus!
