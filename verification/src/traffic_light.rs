//! Timed traffic lights: a cyclic schedule of (duration, phase) entries; the
//! displayed phase is a pure function of absolute time modulo the schedule
//! period, so skipped or repeated ticks never desynchronize a light.
use vstd::prelude::*;

verus! {

/// Phase displayed by a traffic light.
#[derive(Clone, Copy, Debug, PartialEq, Eq, Structural)]
pub enum TrafficLightState {
    Red,
    Orange,
    Green,
}

/// Largest total schedule period accepted, milliseconds.
pub const MAX_PERIOD: u64 = 1_000_000_000_000;

/// Sum of the durations of all schedule entries, milliseconds.
pub open spec fn total_period(s: Seq<(u64, TrafficLightState)>) -> int
    decreases s.len(),
{
    if s.len() == 0 {
        0
    } else {
        s[0].0 + total_period(s.drop_first())
    }
}

/// A well-formed schedule: non-empty, every duration positive, total period
/// bounded.
pub open spec fn wf_schedule(s: Seq<(u64, TrafficLightState)>) -> bool {
    &&& s.len() >= 1
    &&& (forall|i: int| 0 <= i < s.len() ==> (#[trigger] s[i]).0 >= 1)
    &&& total_period(s) <= MAX_PERIOD
}

/// The phase shown at `t` milliseconds into the cycle, for `0 <= t <=`
/// the total period: the first entry whose cumulative end time is at least
/// `t` (ties resolve to the earlier entry).
pub open spec fn phase_in(s: Seq<(u64, TrafficLightState)>, t: int) -> TrafficLightState
    decreases s.len(),
{
    if s.len() == 0 {
        TrafficLightState::Red
    } else if t <= s[0].0 || s.len() == 1 {
        s[0].1
    } else {
        phase_in(s.drop_first(), t - s[0].0)
    }
}

/// The phase shown at absolute time `time` milliseconds: the position of
/// `time` within the cycle decides, so the phase is periodic in `time`.
pub open spec fn phase_at(s: Seq<(u64, TrafficLightState)>, time: int) -> TrafficLightState {
    phase_in(s, time % total_period(s))
}

/// Every prefix sum of durations is nonnegative and at most the total.
proof fn lemma_total_period_nonneg(s: Seq<(u64, TrafficLightState)>)
    ensures
        total_period(s) >= 0,
    decreases s.len(),
{
    if s.len() > 0 {
        lemma_total_period_nonneg(s.drop_first());
    }
}

/// The phase at `time + k * period` equals the phase at `time`: ticking a
/// light at any whole number of cycles apart shows the same phase.
pub proof fn lemma_phase_periodic(s: Seq<(u64, TrafficLightState)>, time: int, k: int)
    requires
        wf_schedule(s),
        time >= 0,
        k >= 0,
    ensures
        phase_at(s, time + k * total_period(s)) == phase_at(s, time),
{
    let p = total_period(s);
    assert(s[0].0 >= 1);
    lemma_total_period_nonneg(s.drop_first());
    assert(p >= 1);
    vstd::arithmetic::div_mod::lemma_mod_multiples_vanish(k, time, p);
    assert(p * k + time == time + k * p) by (nonlinear_arith);
}

/// The recomputed phase depends on the schedule and the absolute time alone,
/// never on the previously displayed phase: two lights sharing one schedule
/// agree whenever they are ticked at one time, and ticking twice at one time
/// shows one phase.
pub proof fn lemma_phase_pure(a: TimedTrafficLight, b: TimedTrafficLight, time: int)
    requires
        a.schema == b.schema,
    ensures
        phase_at(a.schema@, time) == phase_at(b.schema@, time),
{
}

/// A timed cyclical light: bound to one node, shows the phase its schedule
/// assigns to the current absolute time.
pub struct TimedTrafficLight {
    pub node: u32,
    pub current_state: TrafficLightState,
    pub schema: Vec<(u64, TrafficLightState)>,
}

impl TimedTrafficLight {
    /// The light's schedule is well formed.
    pub open spec fn wf(self) -> bool {
        wf_schedule(self.schema@)
    }

    /// Build a light over `schema` at node `node`; the initial displayed
    /// phase is the first entry's.
    pub fn new(node: u32, schema: Vec<(u64, TrafficLightState)>) -> (r: TimedTrafficLight)
        requires
            wf_schedule(schema@),
        ensures
            r.wf(),
            r.node == node,
            r.schema == schema,
            r.current_state == schema@[0].1,
    {
        let first = schema[0].1;
        TimedTrafficLight { node, current_state: first, schema }
    }

    /// The node this light controls.
    pub fn node(&self) -> (r: u32)
        ensures
            r == self.node,
    {
        self.node
    }

    /// The phase computed by the last tick.
    pub fn get_state(&self) -> (r: TrafficLightState)
        ensures
            r == self.current_state,
    {
        self.current_state
    }

    /// Recompute the displayed phase from the absolute time, milliseconds.
    pub fn tick(&mut self, current_time: u64)
        requires
            old(self).wf(),
        ensures
            final(self).wf(),
            final(self).node == old(self).node,
            final(self).schema == old(self).schema,
            final(self).current_state == phase_at(old(self).schema@, current_time as int),
    {
        let total = total_period_exec(&self.schema, 0);
        let t = current_time % total;
        let st = walk(&self.schema, 0, t);
        proof {
            assert(self.schema@.skip(0) =~= self.schema@);
        }
        self.current_state = st;
    }
}

/// Sum of the durations from entry `i` on, milliseconds.
fn total_period_exec(schema: &Vec<(u64, TrafficLightState)>, i: usize) -> (r: u64)
    requires
        wf_schedule(schema@),
        i <= schema@.len(),
    ensures
        r as int == total_period(schema@.skip(i as int)),
        i == 0 ==> r >= 1,
    decreases schema@.len() - i,
{
    proof {
        lemma_total_period_prefix(schema@, i as int);
        lemma_total_period_nonneg(schema@.skip(i as int));
        if i == 0 {
            assert(schema@.skip(0) =~= schema@);
            lemma_total_period_nonneg(schema@.drop_first());
        }
    }
    if i == schema.len() {
        proof {
            assert(schema@.skip(i as int) =~= Seq::<(u64, TrafficLightState)>::empty());
        }
        0
    } else {
        let rest = total_period_exec(schema, i + 1);
        proof {
            assert(schema@.skip(i as int).drop_first() =~= schema@.skip(i as int + 1));
            assert(schema@.skip(i as int)[0] == schema@[i as int]);
        }
        schema[i].0 + rest
    }
}

/// The suffix sum from `i` is at most the total period.
proof fn lemma_total_period_prefix(s: Seq<(u64, TrafficLightState)>, i: int)
    requires
        0 <= i <= s.len(),
    ensures
        total_period(s.skip(i)) <= total_period(s),
    decreases i,
{
    if i > 0 {
        lemma_total_period_prefix(s.drop_first(), i - 1);
        assert(s.drop_first().skip(i - 1) =~= s.skip(i));
        assert(total_period(s) == s[0].0 + total_period(s.drop_first()));
    } else {
        assert(s.skip(0) =~= s);
    }
}

/// The phase `t` milliseconds into the cycle of the suffix starting at `i`.
fn walk(schema: &Vec<(u64, TrafficLightState)>, i: usize, t: u64) -> (r: TrafficLightState)
    requires
        i < schema@.len(),
        t as int <= total_period(schema@.skip(i as int)),
    ensures
        r == phase_in(schema@.skip(i as int), t as int),
    decreases schema@.len() - i,
{
    let n = schema.len();
    let dur = schema[i].0;
    let st = schema[i].1;
    proof {
        assert(schema@.skip(i as int)[0] == schema@[i as int]);
        assert(schema@.skip(i as int).drop_first() =~= schema@.skip(i as int + 1));
        lemma_total_period_nonneg(schema@.skip(i as int).drop_first());
    }
    if t <= dur || i + 1 == n {
        st
    } else {
        walk(schema, i + 1, t - dur)
    }
}

} // verus!
