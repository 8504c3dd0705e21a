use player5::pending::{PendingList, PENDING_CAPACITY};
use player5::ring::EventRing;
use player5::timed::Timed;
use player5::voice::VoiceId;

type Ev = Timed<(VoiceId, f32)>;

fn ev(sample: u64) -> Ev {
    Timed { sample, kind: (VoiceId::Kick, 1.0) }
}

#[test]
fn fifo_order() {
    let mut q: EventRing<Ev> = EventRing::new(4);
    assert!(q.pop().is_none());
    for i in 0..4 {
        q.push(ev(i)).unwrap();
    }
    assert_eq!(q.vacant(), 0);
    assert_eq!(q.push(ev(99)), Err(ev(99)));
    for i in 0..4 {
        assert_eq!(q.pop(), Some(ev(i)));
    }
    assert!(q.pop().is_none());
    assert!(q.is_empty());
}

#[test]
fn wraps_around_many_times() {
    let mut q: EventRing<Ev> = EventRing::new(8);
    let mut next = 0u64;
    // Five in, five out: the positions lap the eight-slot ring every
    // couple of rounds, in every alignment.
    for _ in 0..2_000 {
        for k in 0..5 {
            q.push(ev(next + k)).unwrap();
        }
        assert_eq!(q.len(), 5);
        for k in 0..5 {
            assert_eq!(q.pop(), Some(ev(next + k)));
        }
        assert!(q.is_empty());
        next += 5;
    }
}

#[test]
fn capacity_rounds_up() {
    let q: EventRing<Ev> = EventRing::new(100);
    assert_eq!(q.capacity(), 128);
}

#[test]
fn capacity_is_at_least_two_and_exact_powers_stay() {
    assert_eq!(EventRing::<Ev>::new(0).capacity(), 2);
    assert_eq!(EventRing::<Ev>::new(1).capacity(), 2);
    assert_eq!(EventRing::<Ev>::new(2).capacity(), 2);
    assert_eq!(EventRing::<Ev>::new(3).capacity(), 4);
    assert_eq!(EventRing::<Ev>::new(64).capacity(), 64);
    assert_eq!(EventRing::<Ev>::new(1_024).capacity(), 1_024);
}

#[test]
fn vacancy_tracks_length() {
    let mut q: EventRing<Ev> = EventRing::new(4);
    assert_eq!(q.vacant(), 4);
    q.push(ev(1)).unwrap();
    q.push(ev(2)).unwrap();
    assert_eq!(q.len(), 2);
    assert_eq!(q.vacant(), 2);
    q.pop();
    assert_eq!(q.vacant(), 3);
}

#[test]
fn pending_keeps_out_of_order_arrivals_in_time_order() {
    let mut q: EventRing<Ev> = EventRing::new(16);
    // A trigger far ahead, then changes due now and in between.
    q.push(ev(3_000)).unwrap();
    q.push(ev(0)).unwrap();
    q.push(ev(1_500)).unwrap();
    q.push(ev(0)).unwrap();
    let mut pending: PendingList<(VoiceId, f32)> = PendingList::new();
    pending.pull_from(&mut q);
    assert!(q.is_empty());
    let samples: Vec<u64> = (0..pending.len()).map(|i| pending.get(i).sample).collect();
    assert_eq!(samples, vec![0, 0, 1_500, 3_000]);
}

#[test]
fn equal_stamps_keep_arrival_order() {
    let mut q: EventRing<Timed<u32>> = EventRing::new(8);
    q.push(Timed { sample: 10, kind: 1 }).unwrap();
    q.push(Timed { sample: 5, kind: 2 }).unwrap();
    q.push(Timed { sample: 10, kind: 3 }).unwrap();
    q.push(Timed { sample: 5, kind: 4 }).unwrap();
    let mut pending: PendingList<u32> = PendingList::new();
    pending.pull_from(&mut q);
    let kinds: Vec<u32> = (0..pending.len()).map(|i| pending.get(i).kind).collect();
    assert_eq!(kinds, vec![2, 4, 1, 3]);
}

#[test]
fn due_events_include_late_ones_and_are_discarded_after_use() {
    let mut q: EventRing<Ev> = EventRing::new(8);
    for s in [10, 200, 50, 400] {
        q.push(ev(s)).unwrap();
    }
    let mut pending: PendingList<(VoiceId, f32)> = PendingList::new();
    pending.pull_from(&mut q);
    // At sample 100 the events stamped 10 and 50 are due (both late).
    assert_eq!(pending.due_count(100), 2);
    assert_eq!(pending.due_count(9), 0);
    assert_eq!(pending.due_count(200), 3);
    pending.discard_front(2);
    assert_eq!(pending.len(), 2);
    assert_eq!(pending.get(0).sample, 200);
    assert_eq!(pending.get(1).sample, 400);
    assert_eq!(pending.due_count(1_000), 2);
}

#[test]
fn pending_stops_pulling_when_full() {
    let mut q: EventRing<Ev> = EventRing::new(512);
    for s in 0..300u64 {
        q.push(ev(300 - s)).unwrap();
    }
    let mut pending: PendingList<(VoiceId, f32)> = PendingList::new();
    pending.pull_from(&mut q);
    assert_eq!(pending.len(), PENDING_CAPACITY);
    assert_eq!(q.len(), 300 - PENDING_CAPACITY);
    // The earliest pending event is the smallest stamp pulled so far.
    assert_eq!(pending.get(0).sample, 300 - PENDING_CAPACITY as u64 + 1);
    assert_eq!(pending.get(PENDING_CAPACITY - 1).sample, 300);
}
