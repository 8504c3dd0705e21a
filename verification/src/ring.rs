use vstd::prelude::*;
use vstd::arithmetic::div_mod::{lemma_mod_equivalence, lemma_mod_multiples_vanish, lemma_small_mod};
use vstd::arithmetic::power2::{lemma2_to64, lemma_pow2_adds, lemma_pow2_pos, lemma_pow2_strictly_increases, lemma_pow2_unfold, pow2};
use vstd::bits::{lemma_usize_low_bits_mask_is_mod, low_bits_mask};

verus! {

/// `n` is a power of two.
pub open spec fn is_power_of_two(n: nat) -> bool {
    exists|k: nat| pow2(k) == n
}

/// The capacity a ring asked for `capacity` slots gets: the least power of
/// two that is at least `capacity` and at least 2.
pub open spec fn ring_capacity(capacity: nat, cap: nat) -> bool {
    &&& is_power_of_two(cap)
    &&& cap >= capacity
    &&& cap >= 2
    &&& (cap == 2 || cap / 2 < capacity)
}

/// The number of distinct `usize` values.
pub open spec fn usize_range() -> int {
    usize::MAX + 1
}

proof fn lemma_usize_range()
    ensures
        usize_range() == pow2(usize::BITS as nat),
{
    lemma2_to64();
}

/// Positions that agree modulo the `usize` range land in the same slot of a
/// ring whose capacity is a power of two no larger than that range.
proof fn lemma_same_slot(a: int, b: int, log2: nat)
    requires
        log2 <= usize::BITS,
        a == b || a == b + usize_range() || a == b - usize_range(),
    ensures
        a % (pow2(log2) as int) == b % (pow2(log2) as int),
{
    let cap = pow2(log2) as int;
    let q = pow2((usize::BITS - log2) as nat) as int;
    lemma_usize_range();
    lemma_pow2_adds(log2, (usize::BITS - log2) as nat);
    lemma_pow2_pos(log2);
    assert(usize_range() == cap * q);
    if a == b + usize_range() {
        lemma_mod_multiples_vanish(q, b, cap);
    } else if a == b - usize_range() {
        lemma_mod_multiples_vanish(q, a, cap);
    }
}

/// Positions less than a capacity apart land in different slots.
proof fn lemma_distinct_slots(h: int, i: int, j: int, cap: int)
    requires
        0 <= i < j,
        j - i < cap,
    ensures
        (h + i) % cap != (h + j) % cap,
{
    lemma_mod_equivalence(h + j, h + i, cap);
    lemma_small_mod((j - i) as nat, cap as nat);
}

/// Fixed-capacity FIFO ring of events. The capacity is a power of two so a
/// slot index is the running position masked with `capacity - 1`; the read
/// and write positions run freely and wrap around the `usize` range.
pub struct EventRing<T: Copy> {
    slots: Vec<Option<T>>,
    mask: usize,
    head: usize,
    tail: usize,
    log2: Ghost<nat>,
}

impl<T: Copy> EventRing<T> {
    /// Number of events waiting: the distance from the read position to the
    /// write position, modulo the `usize` range.
    pub closed spec fn spec_len(&self) -> nat {
        vstd::wrapping::usize_specs::wrapping_sub(self.tail, self.head) as nat
    }

    /// Slot holding the event `i` places after the read position.
    closed spec fn slot(&self, i: int) -> int {
        (self.head + i) % (self.mask + 1)
    }

    /// Total capacity.
    pub closed spec fn spec_capacity(&self) -> nat {
        (self.mask + 1) as nat
    }

    /// The ring's internal invariant: every constructor establishes it and
    /// every method keeps it.
    pub closed spec fn wf(&self) -> bool {
        &&& self.slots@.len() == self.mask + 1
        &&& self.mask < usize::MAX
        &&& pow2(self.log2@) == self.mask + 1
        &&& 1 <= self.log2@ < usize::BITS
        &&& self.spec_len() <= self.mask + 1
        &&& forall|i: int| 0 <= i < self.spec_len() ==> (#[trigger] self.slots@[self.slot(i)]) is Some
    }
}

impl<T: Copy> View for EventRing<T> {
    type V = Seq<T>;

    /// The waiting events, oldest first.
    closed spec fn view(&self) -> Seq<T> {
        Seq::new(self.spec_len(), |i: int| self.slots@[self.slot(i)]->0)
    }
}

impl<T: Copy> EventRing<T> {
    /// A ring holding at least `capacity` events (at least two), rounded up
    /// to a power of two. Allocates; call it at setup time.
    pub fn new(capacity: usize) -> (r: Self)
        requires
            capacity <= usize::MAX / 2 + 1,
        ensures
            r.wf(),
            ring_capacity(capacity as nat, r.spec_capacity()),
            r@ == Seq::<T>::empty(),
    {
        let wanted: usize = if capacity < 2 {
            2
        } else {
            capacity
        };
        let mut cap: usize = 2;
        let ghost mut k: nat = 1;
        proof {
            lemma2_to64();
        }
        while cap < wanted
            invariant
                2 <= cap,
                pow2(k) == cap,
                k >= 1,
                2 <= wanted <= usize::MAX / 2 + 1,
                wanted == (if capacity < 2 { 2 } else { capacity }),
                cap == 2 || cap / 2 < wanted,
                capacity < 2 ==> cap == 2,
            decreases usize::MAX - cap,
        {
            proof {
                lemma_pow2_unfold(k + 1);
                k = k + 1;
            }
            cap = cap * 2;
        }
        proof {
            lemma_usize_range();
            if k >= usize::BITS {
                if k > usize::BITS {
                    lemma_pow2_strictly_increases(usize::BITS as nat, k);
                }
            }
        }
        assert(is_power_of_two(cap as nat)) by {
            assert(pow2(k) == cap as nat);
        }
        assert(ring_capacity(capacity as nat, cap as nat));
        let mut slots: Vec<Option<T>> = Vec::new();
        let mut i: usize = 0;
        while i < cap
            invariant
                slots@.len() == i,
                i <= cap,
                ring_capacity(capacity as nat, cap as nat),
            decreases cap - i,
        {
            slots.push(None);
            i += 1;
        }
        let r = EventRing { slots, mask: cap - 1, head: 0, tail: 0, log2: Ghost(k) };
        assert(r@ =~= Seq::<T>::empty());
        r
    }

    /// Total capacity.
    pub fn capacity(&self) -> (c: usize)
        requires
            self.wf(),
        ensures
            c == self.spec_capacity(),
    {
        self.mask + 1
    }

    /// Number of events waiting.
    pub fn len(&self) -> (n: usize)
        requires
            self.wf(),
        ensures
            n == self@.len(),
    {
        self.tail.wrapping_sub(self.head)
    }

    /// Whether no events are waiting.
    pub fn is_empty(&self) -> (b: bool)
        requires
            self.wf(),
        ensures
            b == (self@.len() == 0),
    {
        self.len() == 0
    }

    /// Number of events that can be pushed before the ring is full.
    pub fn vacant(&self) -> (n: usize)
        requires
            self.wf(),
        ensures
            n == self.spec_capacity() - self@.len(),
    {
        self.mask + 1 - self.tail.wrapping_sub(self.head)
    }

    /// Enqueues an event. Hands it back if the ring is full.
    pub fn push(&mut self, item: T) -> (r: Result<(), T>)
        requires
            old(self).wf(),
        ensures
            final(self).wf(),
            final(self).spec_capacity() == old(self).spec_capacity(),
            old(self)@.len() < old(self).spec_capacity() ==> r == Ok::<(), T>(()) && final(self)@
                == old(self)@.push(item),
            old(self)@.len() >= old(self).spec_capacity() ==> r == Err::<(), T>(item)
                && final(self)@ == old(self)@,
    {
        let tail = self.tail;
        let head = self.head;
        if tail.wrapping_sub(head) > self.mask {
            return Err(item);
        }
        let idx = tail & self.mask;
        let ghost len = self.spec_len() as int;
        let ghost cap = self.mask + 1;
        let ghost old_view = self@;
        proof {
            lemma_usize_low_bits_mask_is_mod(tail, self.log2@);
            assert(low_bits_mask(self.log2@) == self.mask);
            lemma_same_slot(tail as int, head + len, self.log2@);
            assert(idx == self.slot(len));
            assert forall|i: int| 0 <= i < len implies self.slot(i) != idx by {
                lemma_distinct_slots(head as int, i, len, cap);
            }
        }
        self.slots.set(idx, Some(item));
        self.tail = tail.wrapping_add(1);
        proof {
            assert(self.spec_len() == len + 1);
            assert forall|i: int| 0 <= i < len implies self.slot(i) != idx by {
                lemma_distinct_slots(head as int, i, len, cap);
            }
            assert(self@ =~= old_view.push(item));
            assert forall|i: int| 0 <= i < self.spec_len() implies (#[trigger] self.slots@[self.slot(
                i,
            )]) is Some by {
                if i < len {
                    lemma_distinct_slots(head as int, i, len, cap);
                    assert(old(self).slots@[old(self).slot(i)] is Some);
                }
            }
        }
        Ok(())
    }

    /// Dequeues the oldest event, if any.
    pub fn pop(&mut self) -> (r: Option<T>)
        requires
            old(self).wf(),
        ensures
            final(self).wf(),
            final(self).spec_capacity() == old(self).spec_capacity(),
            old(self)@.len() == 0 ==> r == None::<T> && final(self)@ == old(self)@,
            old(self)@.len() > 0 ==> r == Some(old(self)@[0])
                && final(self)@ == old(self)@.drop_first(),
    {
        let head = self.head;
        let tail = self.tail;
        if head == tail {
            return None;
        }
        let idx = head & self.mask;
        let ghost len = self.spec_len() as int;
        let ghost old_view = self@;
        proof {
            lemma_usize_low_bits_mask_is_mod(head, self.log2@);
            assert(low_bits_mask(self.log2@) == self.mask);
            assert(idx == self.slot(0));
            assert(self.slots@[self.slot(0)] is Some);
        }
        let item = self.slots[idx].unwrap();
        self.head = head.wrapping_add(1);
        proof {
            assert(self.spec_len() == len - 1);
            assert forall|i: int| 0 <= i < len - 1 implies self.slot(i) == old_view_slot(
                head,
                self.mask,
                i + 1,
            ) by {
                lemma_same_slot(self.head + i, head + i + 1, self.log2@);
            }
            assert(self@ =~= old_view.drop_first());
            assert forall|i: int| 0 <= i < self.spec_len() implies (#[trigger] self.slots@[self.slot(
                i,
            )]) is Some by {
                lemma_same_slot(self.head + i, head + i + 1, self.log2@);
                assert(self.slot(i) == old_view_slot(head, self.mask, i + 1));
                assert(old(self).slots@[old(self).slot(i + 1)] is Some);
            }
        }
        Some(item)
    }
}

/// Slot of the event `i` places after read position `head`, for a ring
/// with the given mask.
spec fn old_view_slot(head: usize, mask: usize, i: int) -> int {
    (head + i) % (mask + 1)
}

} // verus!

verus! {

/// The waiting events after `xs` are pushed one by one behind `q`, as
/// [`EventRing::push`] describes each push.
pub open spec fn pushed_all<T>(q: Seq<T>, xs: Seq<T>) -> Seq<T>
    decreases xs.len(),
{
    if xs.len() == 0 {
        q
    } else {
        pushed_all(q, xs.drop_last()).push(xs.last())
    }
}

/// The waiting events after `k` pops, as [`EventRing::pop`] describes each
/// pop.
pub open spec fn popped_times<T>(s: Seq<T>, k: nat) -> Seq<T>
    decreases k,
{
    if k == 0 {
        s
    } else {
        popped_times(s, (k - 1) as nat).drop_first()
    }
}

proof fn lemma_pushed_all<T>(q: Seq<T>, xs: Seq<T>)
    ensures
        pushed_all(q, xs) =~= q + xs,
    decreases xs.len(),
{
    if xs.len() > 0 {
        lemma_pushed_all(q, xs.drop_last());
        assert(q + xs =~= (q + xs.drop_last()).push(xs.last()));
    }
}

proof fn lemma_popped_times<T>(s: Seq<T>, k: nat)
    requires
        k <= s.len(),
    ensures
        popped_times(s, k) =~= s.skip(k as int),
    decreases k,
{
    if k > 0 {
        lemma_popped_times(s, (k - 1) as nat);
    }
}

/// First in, first out: after events `xs` are pushed behind the waiting
/// events `q`, the `i`-th pop hands out the `i`-th of `q` followed by `xs`:
/// everything that was waiting first, then the new events in push order.
pub proof fn lemma_first_in_first_out<T>(q: Seq<T>, xs: Seq<T>, i: nat)
    requires
        i < q.len() + xs.len(),
    ensures
        popped_times(pushed_all(q, xs), i)[0] == if i < q.len() {
            q[i as int]
        } else {
            xs[i - q.len()]
        },
{
    lemma_pushed_all(q, xs);
    lemma_popped_times(q + xs, i);
}

} // verus!
