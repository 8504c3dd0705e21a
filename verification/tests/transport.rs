use player5::pattern::{Step, Track};
use player5::ring::EventRing;
use player5::timed::Timed;
use player5::transport::{step_hits, StepDecision, Transport};
use player5::voice::VoiceId;

type Ev = Timed<(VoiceId, f32)>;

/// The transport driven the way the control thread drives it, with the
/// clock fixed at 120 BPM and 48 kHz (a beat is 24 000 samples, a step
/// 6 000) and the pattern's feel controls applied here.
struct Sched {
    transport: Transport,
    tracks: [Track; 1],
    shuffle: f32,
    accent: f32,
}

impl Sched {
    fn new(tracks: [Track; 1]) -> Self {
        Sched { transport: Transport::new(), tracks, shuffle: 0.0, accent: 0.5 }
    }

    fn sample_of(&self, step: u64) -> u64 {
        let mut beat = step as f64 * 0.25;
        if step % 2 == 1 {
            beat += f64::from(self.shuffle.clamp(0.0, 1.0)) * (0.25 / 3.0);
        }
        (beat * 24_000.0).round().max(0.0) as u64
    }

    fn velocity(&self, step: Step) -> f32 {
        if step.accent {
            0.7 + (1.0 - 0.7) * self.accent.clamp(0.0, 1.0)
        } else {
            0.7
        }
    }

    fn schedule(&mut self, horizon: u64, out: &mut EventRing<Ev>) -> usize {
        let mut pushed = 0;
        loop {
            let sample = self.sample_of(self.transport.next_step());
            match self.transport.advance(&self.tracks, sample, horizon, out.vacant()) {
                StepDecision::Emit { hits, .. } => {
                    for (voice, step) in hits {
                        out.push(Timed { sample, kind: (voice, self.velocity(step)) }).unwrap();
                        pushed += 1;
                    }
                }
                _ => break,
            }
        }
        pushed
    }
}

fn drain(q: &mut EventRing<Ev>) -> Vec<Ev> {
    std::iter::from_fn(|| q.pop()).collect()
}

fn four_on_the_floor() -> Sched {
    let mut s = Sched::new([Track::parse("X--- x--- X--- x---").unwrap()]);
    s.accent = 1.0;
    s
}

#[test]
fn stopped_scheduler_emits_nothing() {
    let mut q: EventRing<Ev> = EventRing::new(16);
    let mut s = four_on_the_floor();
    assert_eq!(s.schedule(1_000_000, &mut q), 0);
    assert!(drain(&mut q).is_empty());
    assert_eq!(s.transport.next_step(), 0);
}

#[test]
fn steps_land_on_exact_samples() {
    let mut q: EventRing<Ev> = EventRing::new(64);
    let mut s = four_on_the_floor();
    s.transport.start();
    assert_eq!(s.schedule(96_000, &mut q), 4);
    let events = drain(&mut q);
    let samples: Vec<u64> = events.iter().map(|e| e.sample).collect();
    assert_eq!(samples, vec![0, 24_000, 48_000, 72_000]);
    // Accents follow the pattern.
    let velocities: Vec<f32> = events.iter().map(|e| e.kind.1).collect();
    assert_eq!(velocities, vec![1.0, 0.7, 1.0, 0.7]);
    // Next call continues from where it left off (bar 2, step 0 = beat 4).
    assert_eq!(s.transport.next_step(), 16);
    assert_eq!(s.schedule(96_001, &mut q), 1);
    assert_eq!(drain(&mut q)[0].sample, 96_000);
}

#[test]
fn horizon_is_exclusive_and_incremental() {
    let mut q: EventRing<Ev> = EventRing::new(64);
    let mut s = four_on_the_floor();
    s.transport.start();
    assert_eq!(s.schedule(24_000, &mut q), 1); // only step 0
    assert_eq!(s.schedule(24_000, &mut q), 0); // nothing new
    assert_eq!(s.schedule(24_001, &mut q), 1); // beat 1
    assert_eq!(drain(&mut q).len(), 2);
}

#[test]
fn shuffle_shifts_off_beat_sixteenths() {
    let mut q: EventRing<Ev> = EventRing::new(64);
    let mut s = Sched::new([Track::parse("xxxx xxxx xxxx xxxx").unwrap()]);
    s.shuffle = 1.0;
    s.transport.start();
    s.schedule(24_000, &mut q);
    let samples: Vec<u64> = drain(&mut q).iter().map(|e| e.sample).collect();
    // Step = 6 000 samples; full shuffle delays odd steps by 2 000.
    assert_eq!(samples, vec![0, 8_000, 12_000, 20_000]);
}

#[test]
fn full_queue_pauses_without_losing_steps() {
    let mut q: EventRing<Ev> = EventRing::new(2);
    let mut s = Sched::new([Track { steps: [Step::hit(); 16] }]);
    s.transport.start();
    assert_eq!(s.schedule(1_000_000, &mut q), 2);
    assert_eq!(s.transport.next_step(), 2);
    let first = drain(&mut q);
    assert_eq!(s.schedule(1_000_000, &mut q), 2);
    let second = drain(&mut q);
    let samples: Vec<u64> = first.iter().chain(&second).map(|e| e.sample).collect();
    assert_eq!(samples, vec![0, 6_000, 12_000, 18_000]);
}

#[test]
fn stop_after_ends_playback_exactly() {
    let mut q: EventRing<Ev> = EventRing::new(64);
    let mut s = Sched::new([Track { steps: [Step::hit(); 16] }]);
    s.transport.set_stop_after(Some(20));
    s.transport.start();
    assert_eq!(s.schedule(10_000_000, &mut q), 20);
    assert!(!s.transport.is_playing());
    assert_eq!(drain(&mut q).last().unwrap().sample, 19 * 6_000);
    assert_eq!(s.schedule(10_000_000, &mut q), 0);
    assert_eq!(s.transport.stop_after(), Some(20));
}

#[test]
fn pattern_change_applies_from_next_step() {
    let mut q: EventRing<Ev> = EventRing::new(64);
    let mut s = four_on_the_floor();
    s.transport.start();
    s.schedule(24_000, &mut q);
    s.tracks = [Track::default()];
    s.schedule(96_000, &mut q);
    assert_eq!(drain(&mut q).len(), 1);
}

#[test]
fn full_queue_waits_on_the_same_step() {
    let tracks = [Track::parse("X--- x--- X--- x---").unwrap()];
    let mut t = Transport::new();
    t.start();
    assert_eq!(t.advance(&tracks, 0, 1_000, 0), StepDecision::Wait);
    assert_eq!(t.next_step(), 0);
    assert!(t.is_playing());
    match t.advance(&tracks, 0, 1_000, 1) {
        StepDecision::Emit { pattern_step, hits } => {
            assert_eq!(pattern_step, 0);
            assert_eq!(hits, vec![(VoiceId::Kick, Step::accented())]);
        }
        other => panic!("expected an emitted step, got {other:?}"),
    }
    assert_eq!(t.next_step(), 1);
}

#[test]
fn silent_steps_advance_without_hits() {
    let tracks = [Track::parse("X--- x--- X--- x---").unwrap()];
    let mut t = Transport::new();
    t.start();
    t.advance(&tracks, 0, 1_000_000, 8);
    assert_eq!(
        t.advance(&tracks, 6_000, 1_000_000, 8),
        StepDecision::Emit { pattern_step: 1, hits: vec![] }
    );
}

#[test]
fn start_rewinds_and_stop_halts() {
    let mut q: EventRing<Ev> = EventRing::new(64);
    let mut s = four_on_the_floor();
    s.transport.start();
    s.schedule(30_000, &mut q);
    assert_eq!(s.transport.next_step(), 5);
    assert_eq!(s.transport.next_pattern_step(), 5);
    s.transport.stop();
    assert!(!s.transport.is_playing());
    assert_eq!(s.schedule(1_000_000, &mut q), 0);
    assert_eq!(s.transport.next_step(), 5);
    s.transport.start();
    assert_eq!(s.transport.next_step(), 0);
    assert!(s.transport.is_playing());
}

#[test]
fn next_pattern_step_wraps_every_bar() {
    let mut q: EventRing<Ev> = EventRing::new(64);
    let mut s = four_on_the_floor();
    s.transport.start();
    s.schedule(6_000 * 18, &mut q);
    assert_eq!(s.transport.next_step(), 18);
    assert_eq!(s.transport.next_pattern_step(), 2);
}

#[test]
fn hits_follow_the_track_steps() {
    let tracks = [Track::parse("X--- x--- X--- x---").unwrap()];
    assert_eq!(step_hits(&tracks, 0), vec![(VoiceId::Kick, Step::accented())]);
    assert_eq!(step_hits(&tracks, 4), vec![(VoiceId::Kick, Step::hit())]);
    assert!(step_hits(&tracks, 1).is_empty());
}

#[test]
fn scheduling_in_two_passes_matches_one_pass() {
    for (h1, h2) in [(0, 50_000), (24_000, 24_000), (30_001, 96_000), (6_000, 200_000)] {
        let mut q1: EventRing<Ev> = EventRing::new(64);
        let mut q2: EventRing<Ev> = EventRing::new(64);
        let mut s1 = four_on_the_floor();
        s1.shuffle = 0.5;
        s1.tracks = [Track::parse("X-x- x--x Xx-- x-xx").unwrap()];
        s1.transport.set_stop_after(Some(27));
        s1.transport.start();
        let mut s2 = four_on_the_floor();
        s2.shuffle = s1.shuffle;
        s2.tracks = s1.tracks;
        s2.transport = s1.transport;
        let n1 = s1.schedule(h1, &mut q1) + s1.schedule(h2, &mut q1);
        let n2 = s2.schedule(h2, &mut q2);
        assert_eq!(n1, n2);
        assert_eq!(drain(&mut q1), drain(&mut q2));
        assert_eq!(s1.transport, s2.transport);
    }
}
