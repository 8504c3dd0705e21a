use vstd::prelude::*;

use crate::pattern::{Step, Track, STEP_COUNT};
use crate::voice::{VoiceId, VOICE_COUNT};

verus! {

/// The hits of the first `k` voices at pattern step `index`: each voice
/// whose step is on, with that step, in track order.
pub open spec fn hits_upto(tracks: Seq<Track>, index: int, k: nat) -> Seq<(VoiceId, Step)>
    decreases k,
{
    if k == 0 {
        Seq::empty()
    } else {
        let before = hits_upto(tracks, index, (k - 1) as nat);
        let step = tracks[k - 1]@[index];
        if step.on {
            before.push((VoiceId::spec_all()[k - 1], step))
        } else {
            before
        }
    }
}

/// The hits of every voice at pattern step `index`.
pub open spec fn spec_step_hits(tracks: Seq<Track>, index: int) -> Seq<(VoiceId, Step)> {
    hits_upto(tracks, index, VOICE_COUNT as nat)
}

/// Each voice paired with its own track's step at `index`, in voice order.
pub open spec fn voice_steps(tracks: Seq<Track>, index: int) -> Seq<(VoiceId, Step)> {
    Seq::new(VOICE_COUNT as nat, |v: int| (VoiceId::spec_all()[v], tracks[v]@[index]))
}

proof fn lemma_hits_upto_filter(tracks: Seq<Track>, index: int, k: nat)
    requires
        k <= VOICE_COUNT,
    ensures
        hits_upto(tracks, index, k) == voice_steps(tracks, index).take(k as int).filter(
            |h: (VoiceId, Step)| h.1.on,
        ),
    decreases k,
{
    reveal(Seq::filter);
    let vs = voice_steps(tracks, index);
    if k == 0 {
        assert(vs.take(0) =~= Seq::<(VoiceId, Step)>::empty());
    } else {
        lemma_hits_upto_filter(tracks, index, (k - 1) as nat);
        assert(vs.take(k as int).drop_last() =~= vs.take(k - 1));
        assert(vs.take(k as int).last() == (VoiceId::spec_all()[k - 1], tracks[k - 1]@[index]));
    }
}

/// The hits at pattern step `index` are exactly the voices whose own step at
/// `index` is on, each with that very step (accent flag included), in voice
/// order: no voice whose step is on is left out, none whose step is off is
/// added, and nothing but the steps at `index` decides.
pub proof fn lemma_step_hits_are_the_on_steps(tracks: Seq<Track>, index: int)
    requires
        tracks.len() == VOICE_COUNT,
        0 <= index < STEP_COUNT,
    ensures
        spec_step_hits(tracks, index) == voice_steps(tracks, index).filter(
            |h: (VoiceId, Step)| h.1.on,
        ),
        forall|j: int|
            #![trigger spec_step_hits(tracks, index)[j]]
            0 <= j < spec_step_hits(tracks, index).len() ==> exists|v: int|
                0 <= v < VOICE_COUNT && (#[trigger] tracks[v])@[index].on
                    && spec_step_hits(tracks, index)[j] == (
                    VoiceId::spec_all()[v],
                    tracks[v]@[index],
                ),
        forall|v: int|
            0 <= v < VOICE_COUNT ==> ((#[trigger] tracks[v])@[index].on <==> spec_step_hits(
                tracks,
                index,
            ).contains((VoiceId::spec_all()[v], tracks[v]@[index]))),
        spec_step_hits(tracks, index).len() <= VOICE_COUNT,
{
    let vs = voice_steps(tracks, index);
    let pred = |h: (VoiceId, Step)| h.1.on;
    lemma_hits_upto_filter(tracks, index, VOICE_COUNT as nat);
    assert(vs.take(VOICE_COUNT as int) =~= vs);
    let hits = spec_step_hits(tracks, index);
    vs.lemma_filter_len(pred);
    reveal(Seq::filter);
    assert(vs.drop_last().filter(pred) =~= Seq::<(VoiceId, Step)>::empty());
    assert(vs.last() == vs[0]);
    assert(vs[0] == (VoiceId::spec_all()[0], tracks[0]@[index]));
    if tracks[0]@[index].on {
        assert(hits =~= seq![vs[0]]);
        assert(hits[0] == vs[0]);
        assert(hits.contains(vs[0]));
    } else {
        assert(hits =~= Seq::<(VoiceId, Step)>::empty());
    }
}

/// Every voice whose step `index` is on, with that step, in track order.
pub fn step_hits(tracks: &[Track; VOICE_COUNT], index: usize) -> (hits: Vec<(VoiceId, Step)>)
    requires
        index < STEP_COUNT,
    ensures
        hits@ == spec_step_hits(tracks@, index as int),
        hits@ == voice_steps(tracks@, index as int).filter(|h: (VoiceId, Step)| h.1.on),
{
    proof {
        lemma_step_hits_are_the_on_steps(tracks@, index as int);
    }
    let voices = VoiceId::all();
    let mut hits: Vec<(VoiceId, Step)> = Vec::new();
    let mut v: usize = 0;
    while v < VOICE_COUNT
        invariant
            v <= VOICE_COUNT,
            index < STEP_COUNT,
            voices@ == VoiceId::spec_all(),
            hits@ == hits_upto(tracks@, index as int, v as nat),
        decreases VOICE_COUNT - v,
    {
        let step = tracks[v].steps[index];
        if step.on {
            hits.push((voices[v], step));
        }
        v += 1;
    }
    hits
}

/// What one scheduling step decided.
#[derive(Debug, PartialEq, Eq)]
pub enum StepDecision {
    /// Playback is stopped (or has just stopped at its stop point); nothing
    /// more is scheduled.
    Stopped,
    /// The next step is not due before the horizon, or the queue has no room
    /// for all its voices: retry the same step on the next tick.
    Wait,
    /// The step at `pattern_step` is emitted now: `hits` are the voices that
    /// fire, in track order. The transport has moved on to the next step.
    Emit { pattern_step: usize, hits: Vec<(VoiceId, Step)> },
}

/// Transport state of the sequencer: which absolute step comes next, whether
/// playback runs and where it stops on its own. Control-thread only.
///
/// Scheduling walks the steps ahead of the audio clock: per step the caller
/// works out the step's sample position and asks [`Transport::advance`]
/// whether to emit it. Every step before the horizon is emitted exactly once,
/// in order; a full queue pauses on the same step.
#[derive(Clone, Copy, Debug, PartialEq, Eq)]
pub struct Transport {
    next_step: u64,
    playing: bool,
    stop_after: Option<u64>,
}

/// The transport has reached its stop point: a stop point is set and the
/// next step is at or past it.
pub open spec fn at_stop_point(t: Transport) -> bool {
    match t.spec_stop_after() {
        Some(end) => t.spec_next_step() >= end,
        None => false,
    }
}

/// What one call of [`Transport::advance`] does, given the sample position
/// of the next step, the horizon and the queue's vacancy; `emitted` is the
/// absolute step it emits, if any. A stopped transport stays as it is; at
/// the stop point the transport stops on the same step; a step at or after
/// the horizon, or a queue without room for every voice, leaves the
/// transport as it is; otherwise the next step is emitted and the transport
/// moves on by one. The stop point never changes.
pub open spec fn advance_transition(
    old: Transport,
    new: Transport,
    sample: u64,
    horizon: u64,
    vacant: usize,
    emitted: Option<u64>,
) -> bool {
    &&& new.spec_stop_after() == old.spec_stop_after()
    &&& if !old.spec_playing() {
        new == old && emitted is None
    } else if at_stop_point(old) {
        &&& !new.spec_playing()
        &&& new.spec_next_step() == old.spec_next_step()
        &&& emitted is None
    } else if sample >= horizon || vacant < VOICE_COUNT {
        new == old && emitted is None
    } else {
        &&& new.spec_playing()
        &&& new.spec_next_step() == old.spec_next_step() + 1
        &&& emitted == Some(old.spec_next_step())
    }
}

impl Transport {
    /// Next absolute step index that will be scheduled.
    pub closed spec fn spec_next_step(&self) -> u64 {
        self.next_step
    }

    /// Whether the transport is running.
    pub closed spec fn spec_playing(&self) -> bool {
        self.playing
    }

    /// The automatic stop point, if any.
    pub closed spec fn spec_stop_after(&self) -> Option<u64> {
        self.stop_after
    }

    /// A stopped transport at step 0 with no stop point.
    pub fn new() -> (t: Self)
        ensures
            t.spec_next_step() == 0,
            !t.spec_playing(),
            t.spec_stop_after() == None::<u64>,
    {
        Transport { next_step: 0, playing: false, stop_after: None }
    }

    /// Starts from step 0.
    pub fn start(&mut self)
        ensures
            final(self).spec_next_step() == 0,
            final(self).spec_playing(),
            final(self).spec_stop_after() == old(self).spec_stop_after(),
    {
        self.next_step = 0;
        self.playing = true;
    }

    /// Stops scheduling. Already-queued events still play.
    pub fn stop(&mut self)
        ensures
            final(self).spec_next_step() == old(self).spec_next_step(),
            !final(self).spec_playing(),
            final(self).spec_stop_after() == old(self).spec_stop_after(),
    {
        self.playing = false;
    }

    /// Stops automatically once `steps` steps have been scheduled since
    /// [`Transport::start`] (`None` loops forever).
    pub fn set_stop_after(&mut self, steps: Option<u64>)
        ensures
            final(self).spec_next_step() == old(self).spec_next_step(),
            final(self).spec_playing() == old(self).spec_playing(),
            final(self).spec_stop_after() == steps,
    {
        self.stop_after = steps;
    }

    /// The automatic stop point, if any.
    pub fn stop_after(&self) -> (s: Option<u64>)
        ensures
            s == self.spec_stop_after(),
    {
        self.stop_after
    }

    /// Whether the transport is running.
    pub fn is_playing(&self) -> (b: bool)
        ensures
            b == self.spec_playing(),
    {
        self.playing
    }

    /// Next absolute step index that will be scheduled.
    pub fn next_step(&self) -> (n: u64)
        ensures
            n == self.spec_next_step(),
    {
        self.next_step
    }

    /// Pattern-relative index (`0..16`) of the next step.
    pub fn next_pattern_step(&self) -> (i: usize)
        ensures
            i == self.spec_next_step() % (STEP_COUNT as u64),
            i < STEP_COUNT,
    {
        (self.next_step % 16) as usize
    }

    /// Decides about the next step, given the sample position `sample` it
    /// falls on, the exclusive scheduling `horizon` and the `vacant` room in
    /// the event queue. In order: a stopped transport stays stopped; at the
    /// stop point the transport stops; a step at or after the horizon, or a
    /// queue without room for every voice, waits; otherwise the step is
    /// emitted and the transport moves to the next one.
    pub fn advance(
        &mut self,
        tracks: &[Track; VOICE_COUNT],
        sample: u64,
        horizon: u64,
        vacant: usize,
    ) -> (d: StepDecision)
        requires
            old(self).spec_next_step() < u64::MAX,
        ensures
            advance_transition(
                *old(self),
                *final(self),
                sample,
                horizon,
                vacant,
                if d is Emit {
                    Some(old(self).spec_next_step())
                } else {
                    None
                },
            ),
            d is Stopped <==> (!old(self).spec_playing() || at_stop_point(*old(self))),
            d is Wait <==> (old(self).spec_playing() && !at_stop_point(*old(self)) && (sample
                >= horizon || vacant < VOICE_COUNT)),
            d is Stopped ==> !final(self).spec_playing(),
            d is Emit ==> ({
                let index = old(self).spec_next_step() % (STEP_COUNT as u64);
                match d {
                    StepDecision::Emit { pattern_step, hits } => {
                        &&& pattern_step == index
                        &&& hits@ == spec_step_hits(tracks@, index as int)
                    },
                    _ => false,
                }
            }),
    {
        if !self.playing {
            return StepDecision::Stopped;
        }
        if let Some(end) = self.stop_after {
            if self.next_step >= end {
                self.playing = false;
                return StepDecision::Stopped;
            }
        }
        if sample >= horizon {
            return StepDecision::Wait;
        }
        if vacant < VOICE_COUNT {
            return StepDecision::Wait;
        }
        let index = self.next_pattern_step();
        let hits = step_hits(tracks, index);
        self.next_step += 1;
        StepDecision::Emit { pattern_step: index, hits }
    }
}

} // verus!

verus! {

/// The absolute steps emitted over a run of ticks, in order.
pub open spec fn emitted_steps(emitted: Seq<Option<u64>>) -> Seq<u64>
    decreases emitted.len(),
{
    if emitted.len() == 0 {
        Seq::empty()
    } else {
        let before = emitted_steps(emitted.drop_last());
        match emitted.last() {
            Some(n) => before.push(n),
            None => before,
        }
    }
}

/// `states` is a run of the transport: each state follows from the one
/// before by one call of [`Transport::advance`] with the tick's sample
/// position, horizon and vacancy, emitting `emitted`.
pub open spec fn is_run(
    states: Seq<Transport>,
    ticks: Seq<(u64, u64, usize)>,
    emitted: Seq<Option<u64>>,
) -> bool {
    &&& states.len() == ticks.len() + 1
    &&& emitted.len() == ticks.len()
    &&& forall|i: int|
        0 <= i < ticks.len() ==> #[trigger] advance_transition(
            states[i],
            states[i + 1],
            ticks[i].0,
            ticks[i].1,
            ticks[i].2,
            emitted[i],
        )
}

/// Over any run of scheduling ticks, the emitted steps are exactly the
/// absolute steps from the first state's next step up to the last state's,
/// each once and in order: a tick that waits (horizon not reached, queue
/// full) loses and repeats nothing. No step at or past the stop point is
/// ever emitted, so a run that starts at or before the stop point ends at
/// or before it.
pub proof fn lemma_run_emits_each_step_once(
    states: Seq<Transport>,
    ticks: Seq<(u64, u64, usize)>,
    emitted: Seq<Option<u64>>,
)
    requires
        is_run(states, ticks, emitted),
    ensures
        states.last().spec_next_step() >= states[0].spec_next_step(),
        emitted_steps(emitted) =~= Seq::new(
            (states.last().spec_next_step() - states[0].spec_next_step()) as nat,
            |k: int| (states[0].spec_next_step() + k) as u64,
        ),
        states.last().spec_stop_after() == states[0].spec_stop_after(),
        match states[0].spec_stop_after() {
            Some(end) => states[0].spec_next_step() <= end ==> states.last().spec_next_step()
                <= end,
            None => true,
        },
    decreases ticks.len(),
{
    if ticks.len() > 0 {
        let n = ticks.len() - 1;
        let s2 = states.drop_last();
        let t2 = ticks.drop_last();
        let e2 = emitted.drop_last();
        assert forall|i: int| 0 <= i < t2.len() implies #[trigger] advance_transition(
            s2[i],
            s2[i + 1],
            t2[i].0,
            t2[i].1,
            t2[i].2,
            e2[i],
        ) by {
            assert(advance_transition(
                states[i],
                states[i + 1],
                ticks[i].0,
                ticks[i].1,
                ticks[i].2,
                emitted[i],
            ));
        }
        lemma_run_emits_each_step_once(s2, t2, e2);
        assert(advance_transition(
            states[n],
            states[n + 1],
            ticks[n].0,
            ticks[n].1,
            ticks[n].2,
            emitted[n],
        ));
        assert(s2.last() == states[n]);
        assert(e2 =~= emitted.drop_last());
    }
}

} // verus!

verus! {

/// Step `k` lies at or past the stop point `stop_after`.
pub open spec fn past_stop(stop_after: Option<u64>, k: int) -> bool {
    match stop_after {
        Some(end) => k >= end,
        None => false,
    }
}

/// A scheduling pass started from `start` halts before step `k`: `k` is at
/// or past the stop point, or its sample position is at or after the horizon.
pub open spec fn halts_before(
    start: Transport,
    position: spec_fn(u64) -> u64,
    horizon: u64,
    k: int,
) -> bool {
    past_stop(start.spec_stop_after(), k) || position(k as u64) >= horizon
}

/// The absolute steps `from`, `from + 1`, ..., up to but not including `to`.
pub open spec fn step_range(from: u64, to: u64) -> Seq<u64> {
    Seq::new((to - from) as nat, |k: int| (from + k) as u64)
}

/// Call `i` of a scheduling pass: one call of [`Transport::advance`] from
/// `states[i]` to `states[i + 1]`.
pub open spec fn pass_tick(
    states: Seq<Transport>,
    emitted: Seq<Option<u64>>,
    room: Seq<usize>,
    position: spec_fn(u64) -> u64,
    horizon: u64,
    i: int,
) -> bool {
    advance_transition(
        states[i],
        states[i + 1],
        position(states[i].spec_next_step()),
        horizon,
        room[i],
        emitted[i],
    )
}

/// `states` and `emitted` are one scheduling pass of a control tick: the
/// transport is advanced again and again with the same `horizon`, each step
/// at its sample position `position(step)` and with `room[i]` free slots in
/// the queue, for as long as a step is emitted. Every call but the last
/// emits; the last does not, and the pass ends there.
pub open spec fn is_pass(
    states: Seq<Transport>,
    emitted: Seq<Option<u64>>,
    room: Seq<usize>,
    position: spec_fn(u64) -> u64,
    horizon: u64,
) -> bool {
    &&& emitted.len() >= 1
    &&& states.len() == emitted.len() + 1
    &&& room.len() == emitted.len()
    &&& forall|i: int|
        0 <= i < emitted.len() ==> #[trigger] pass_tick(states, emitted, room, position, horizon, i)
    &&& forall|i: int| 0 <= i < emitted.len() - 1 ==> (#[trigger] emitted[i]) is Some
    &&& emitted.last() is None
}

/// Every call of a pass found room for all voices.
pub open spec fn always_room(room: Seq<usize>) -> bool {
    forall|i: int| 0 <= i < room.len() ==> #[trigger] room[i] >= VOICE_COUNT
}

/// What one scheduling pass does when the queue always has room. A stopped
/// transport is left as it is and emits nothing. A playing one emits every
/// step from its next step on, in order, up to the first step at which the
/// pass halts (at or past the stop point, or at or after the horizon); it
/// ends on that step, and is still playing unless that step is at or past
/// the stop point. The stop point never changes.
pub proof fn lemma_pass_outcome(
    states: Seq<Transport>,
    emitted: Seq<Option<u64>>,
    room: Seq<usize>,
    position: spec_fn(u64) -> u64,
    horizon: u64,
)
    requires
        is_pass(states, emitted, room, position, horizon),
        always_room(room),
    ensures
        ({
            let start = states[0];
            let end = states.last();
            &&& end.spec_stop_after() == start.spec_stop_after()
            &&& !start.spec_playing() ==> end == start && emitted_steps(emitted).len() == 0
            &&& start.spec_playing() ==> {
                &&& start.spec_next_step() <= end.spec_next_step()
                &&& emitted_steps(emitted) =~= step_range(
                    start.spec_next_step(),
                    end.spec_next_step(),
                )
                &&& forall|k: int|
                    start.spec_next_step() <= k < end.spec_next_step() ==> !#[trigger] halts_before(
                        start,
                        position,
                        horizon,
                        k,
                    )
                &&& halts_before(start, position, horizon, end.spec_next_step() as int)
                &&& end.spec_playing() == !past_stop(
                    start.spec_stop_after(),
                    end.spec_next_step() as int,
                )
            }
        }),
    decreases emitted.len(),
{
    let start = states[0];
    assert(pass_tick(states, emitted, room, position, horizon, 0));
    assert(room[0] >= VOICE_COUNT);
    if emitted.len() == 1 {
        assert(emitted[0] is None);
        assert(emitted =~= seq![None::<u64>]);
        assert(emitted_steps(emitted.drop_last()) =~= Seq::<u64>::empty()) by {
            assert(emitted.drop_last() =~= Seq::<Option<u64>>::empty());
        }
        assert(emitted_steps(emitted) =~= Seq::<u64>::empty());
        assert(states.last() == states[1]);
    } else {
        assert(emitted[0] is Some);
        let s2 = states.skip(1);
        let e2 = emitted.skip(1);
        let r2 = room.skip(1);
        assert forall|i: int| 0 <= i < e2.len() implies #[trigger] pass_tick(
            s2,
            e2,
            r2,
            position,
            horizon,
            i,
        ) by {
            assert(pass_tick(states, emitted, room, position, horizon, i + 1));
            assert(s2[i] == states[i + 1]);
            assert(s2[i + 1] == states[i + 2]);
        }
        assert forall|i: int| 0 <= i < e2.len() - 1 implies (#[trigger] e2[i]) is Some by {
            assert(emitted[i + 1] is Some);
        }
        assert forall|i: int| 0 <= i < r2.len() implies #[trigger] r2[i] >= VOICE_COUNT by {
            assert(room[i + 1] >= VOICE_COUNT);
        }
        assert(e2.last() == emitted.last());
        lemma_pass_outcome(s2, e2, r2, position, horizon);
        assert(s2.last() == states.last());
        assert(s2[0] == states[1]);
        lemma_emitted_steps_prepend(emitted);
        let a = start.spec_next_step();
        let z = states.last().spec_next_step();
        assert(emitted_steps(emitted) =~= step_range(a, z)) by {
            assert(emitted_steps(e2) =~= step_range((a + 1) as u64, z));
        }
        assert forall|k: int| a <= k < z implies !#[trigger] halts_before(
            start,
            position,
            horizon,
            k,
        ) by {
            if k > a {
                assert(!halts_before(states[1], position, horizon, k));
            }
        }
    }
}

/// The steps emitted over a run are the first tick's, if any, followed by
/// those of the rest.
proof fn lemma_emitted_steps_prepend(emitted: Seq<Option<u64>>)
    requires
        emitted.len() >= 1,
    ensures
        emitted_steps(emitted) =~= match emitted[0] {
            Some(n) => seq![n] + emitted_steps(emitted.skip(1)),
            None => emitted_steps(emitted.skip(1)),
        },
    decreases emitted.len(),
{
    if emitted.len() > 1 {
        let d = emitted.drop_last();
        lemma_emitted_steps_prepend(d);
        assert(d.skip(1) =~= emitted.skip(1).drop_last());
        assert(emitted.skip(1).last() == emitted.last());
    } else {
        assert(emitted.drop_last() =~= Seq::<Option<u64>>::empty());
        assert(emitted.skip(1) =~= Seq::<Option<u64>>::empty());
        assert(emitted_steps(emitted.skip(1)) =~= Seq::<u64>::empty());
    }
}

/// Scheduling up to horizon `h1` and then up to a later horizon `h2` emits
/// the same steps, in the same order, and leaves the transport in the same
/// state as scheduling straight up to `h2`, when the queue always has room:
/// every step is emitted exactly once however the horizon advances. The
/// step positions are the same in all three passes; they need not grow with
/// the step.
pub proof fn lemma_schedule_in_two_passes(
    first: Seq<Transport>,
    first_emitted: Seq<Option<u64>>,
    first_room: Seq<usize>,
    second: Seq<Transport>,
    second_emitted: Seq<Option<u64>>,
    second_room: Seq<usize>,
    direct: Seq<Transport>,
    direct_emitted: Seq<Option<u64>>,
    direct_room: Seq<usize>,
    position: spec_fn(u64) -> u64,
    h1: u64,
    h2: u64,
)
    requires
        h1 <= h2,
        is_pass(first, first_emitted, first_room, position, h1),
        is_pass(second, second_emitted, second_room, position, h2),
        is_pass(direct, direct_emitted, direct_room, position, h2),
        always_room(first_room),
        always_room(second_room),
        always_room(direct_room),
        second[0] == first.last(),
        direct[0] == first[0],
    ensures
        second.last() == direct.last(),
        emitted_steps(first_emitted) + emitted_steps(second_emitted) == emitted_steps(
            direct_emitted,
        ),
{
    lemma_pass_outcome(first, first_emitted, first_room, position, h1);
    lemma_pass_outcome(second, second_emitted, second_room, position, h2);
    lemma_pass_outcome(direct, direct_emitted, direct_room, position, h2);
    let start = first[0];
    let mid = first.last();
    let end = second.last();
    let other = direct.last();
    if start.spec_playing() {
        let a = start.spec_next_step();
        let k1 = mid.spec_next_step();
        let kb = other.spec_next_step();
        assert forall|k: int| a <= k < k1 implies !#[trigger] halts_before(
            start,
            position,
            h2,
            k,
        ) by {
            assert(!halts_before(start, position, h1, k));
        }
        if kb < k1 {
            assert(!halts_before(start, position, h2, kb as int));
        }
        if !mid.spec_playing() {
            assert(past_stop(start.spec_stop_after(), k1 as int));
            assert(halts_before(start, position, h2, k1 as int));
            assert(kb == k1);
            assert(emitted_steps(second_emitted) =~= Seq::<u64>::empty());
        } else {
            let k2 = end.spec_next_step();
            assert(mid.spec_stop_after() == start.spec_stop_after());
            if kb > k2 {
                assert(halts_before(mid, position, h2, k2 as int));
                assert(!halts_before(start, position, h2, k2 as int));
            }
            if kb < k2 {
                assert(!halts_before(mid, position, h2, kb as int));
            }
            assert(kb == k2);
            assert(step_range(a, k1) + step_range(k1, k2) =~= step_range(a, k2));
        }
    } else {
        assert(emitted_steps(second_emitted) =~= Seq::<u64>::empty());
        assert(emitted_steps(first_emitted) =~= Seq::<u64>::empty());
        assert(emitted_steps(direct_emitted) =~= Seq::<u64>::empty());
    }
}

} // verus!
