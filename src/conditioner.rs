//! Per-channel conditioning of raw analog readings: an integer moving average,
//! hysteresis against jitter, and clamping of the ends of the scale.
use vstd::prelude::*;

verus! {

/// Largest reading the conditioner reports.
pub const FULL_SCALE: u16 = 1023;

/// Change of the smoothed reading that the stable value ignores.
pub const HYSTERESIS_THRESHOLD: u16 = 4;

/// Stable values above this report as full scale.
pub const TOP_EDGE: u16 = 1018;

/// Stable values below this report as zero.
pub const BOTTOM_EDGE: u16 = 5;

/// Largest accumulator value reachable from any sequence of `u16` readings.
pub const ACCUMULATOR_MAX: u32 = 131071;

/// Number of updates with one constant reading after which the state no longer changes.
pub const SETTLE_STEPS: u64 = 18;

/// Filter state of one channel.
#[derive(Clone, Copy, Debug)]
pub struct Potentiometer {
    /// Twice the smoothed reading (plus a rounding bit); zero means "not yet seeded".
    pub accumulator: u32,
    /// The reading last committed by hysteresis.
    pub last_stable_val: u16,
}

pub open spec fn abs_diff(a: int, b: int) -> int {
    if a >= b { a - b } else { b - a }
}

/// Moving average with weight one half, seeded from the first non-zero state.
pub open spec fn next_accumulator(acc: int, raw: int) -> int {
    if acc == 0 { 2 * raw } else { acc - acc / 2 + raw }
}

/// Hysteresis: the stable value follows the smoothed one only on a large enough move.
pub open spec fn next_stable(stable: int, smoothed: int) -> int {
    if abs_diff(smoothed, stable) > HYSTERESIS_THRESHOLD as int { smoothed } else { stable }
}

/// Edge clamping of a stable value.
pub open spec fn clamp_edges(stable: int) -> int {
    if stable > TOP_EDGE as int {
        FULL_SCALE as int
    } else if stable < BOTTOM_EDGE as int {
        0
    } else {
        stable
    }
}

impl Potentiometer {
    pub open spec fn wf(self) -> bool {
        self.accumulator <= ACCUMULATOR_MAX
    }

    /// The state after one reading.
    pub open spec fn step(self, raw: u16) -> Potentiometer {
        let acc = next_accumulator(self.accumulator as int, raw as int);
        Potentiometer {
            accumulator: acc as u32,
            last_stable_val: next_stable(self.last_stable_val as int, acc / 2) as u16,
        }
    }

    /// What the channel reports in this state.
    pub open spec fn output(self) -> u16 {
        clamp_edges(self.last_stable_val as int) as u16
    }

    pub open spec fn new_spec() -> Potentiometer {
        Potentiometer { accumulator: 0, last_stable_val: 0 }
    }

    /// A fresh, unseeded channel.
    pub fn new() -> (p: Potentiometer)
        ensures
            p == Potentiometer::new_spec(),
            p.wf(),
    {
        Potentiometer { accumulator: 0, last_stable_val: 0 }
    }

    /// Feeds one raw reading and returns the conditioned output.
    pub fn update(&mut self, raw_input: u16) -> (out: u16)
        requires
            old(self).wf(),
        ensures
            *final(self) == old(self).step(raw_input),
            final(self).wf(),
            out == final(self).output(),
            out <= FULL_SCALE,
    {
        if self.accumulator == 0 {
            self.accumulator = raw_input as u32 * 2;
        } else {
            self.accumulator = self.accumulator - self.accumulator / 2 + raw_input as u32;
        }
        let smoothed: u16 = (self.accumulator / 2) as u16;
        let diff: u16 = if smoothed >= self.last_stable_val {
            smoothed - self.last_stable_val
        } else {
            self.last_stable_val - smoothed
        };
        if diff > HYSTERESIS_THRESHOLD {
            self.last_stable_val = smoothed;
        }
        if self.last_stable_val > TOP_EDGE {
            FULL_SCALE
        } else if self.last_stable_val < BOTTOM_EDGE {
            0
        } else {
            self.last_stable_val
        }
    }
}

/// The state after feeding each reading of `raws` in order.
pub open spec fn run(p: Potentiometer, raws: Seq<u16>) -> Potentiometer
    decreases raws.len(),
{
    if raws.len() == 0 {
        p
    } else {
        run(p, raws.drop_last()).step(raws.last())
    }
}

/// The state after `k` updates with the same reading `raw`.
pub open spec fn settle(p: Potentiometer, raw: u16, k: nat) -> Potentiometer
    decreases k,
{
    if k == 0 {
        p
    } else {
        settle(p, raw, (k - 1) as nat).step(raw)
    }
}

pub proof fn lemma_step_wf(p: Potentiometer, raw: u16)
    requires
        p.wf(),
    ensures
        p.step(raw).wf(),
        p.step(raw).accumulator as int == next_accumulator(p.accumulator as int, raw as int),
        p.step(raw).last_stable_val as int == next_stable(
            p.last_stable_val as int,
            next_accumulator(p.accumulator as int, raw as int) / 2,
        ),
{
}

/// Whatever the readings, every state reached is well formed and reports a value
/// between zero and full scale.
pub proof fn lemma_output_in_range(p: Potentiometer, raws: Seq<u16>)
    requires
        p.wf(),
    ensures
        run(p, raws).wf(),
        0 <= run(p, raws).output() <= FULL_SCALE,
    decreases raws.len(),
{
    if raws.len() > 0 {
        lemma_output_in_range(p, raws.drop_last());
        lemma_step_wf(run(p, raws.drop_last()), raws.last());
    }
}

/// Bound on the distance of the accumulator from twice a constant reading:
/// it halves, rounding up, with every update.
pub open spec fn settle_bound(k: nat) -> int
    decreases k,
{
    if k == 0 {
        ACCUMULATOR_MAX as int
    } else {
        (settle_bound((k - 1) as nat) + 1) / 2
    }
}

proof fn lemma_settle_distance(p: Potentiometer, raw: u16, k: nat)
    requires
        p.wf(),
    ensures
        settle(p, raw, k).wf(),
        abs_diff(settle(p, raw, k).accumulator as int, 2 * raw as int) <= settle_bound(k),
        settle_bound(k) >= 0,
    decreases k,
{
    if k > 0 {
        let q = settle(p, raw, (k - 1) as nat);
        lemma_settle_distance(p, raw, (k - 1) as nat);
        lemma_step_wf(q, raw);
    }
}

proof fn lemma_settled_is_fixed(q: Potentiometer, raw: u16)
    requires
        q.wf(),
        q.accumulator == 2 * raw || q.accumulator == 2 * raw + 1,
        abs_diff(q.last_stable_val as int, raw as int) <= HYSTERESIS_THRESHOLD as int,
    ensures
        q.step(raw) == q,
{
    lemma_step_wf(q, raw);
}

/// A constant reading settles: after `SETTLE_STEPS` updates with it, further
/// updates with the same reading leave the state, and so the output, unchanged.
pub proof fn lemma_constant_input_settles(p: Potentiometer, raw: u16, k: nat)
    requires
        p.wf(),
        k >= SETTLE_STEPS as nat,
    ensures
        settle(p, raw, k).step(raw) == settle(p, raw, k),
        settle(p, raw, k + 1).output() == settle(p, raw, k).output(),
    decreases k,
{
    if k == SETTLE_STEPS as nat {
        reveal_with_fuel(settle_bound, 18);
        let q = settle(p, raw, 17);
        lemma_settle_distance(p, raw, 17);
        assert(settle_bound(17) == 1);
        lemma_step_wf(q, raw);
        lemma_settled_is_fixed(q.step(raw), raw);
    } else {
        lemma_constant_input_settles(p, raw, (k - 1) as nat);
    }
}

/// The state is settled on a reading that alternates between `a` and `a + 1`:
/// the smoothed value can only be `a` or `a + 1`, and both lie within the
/// hysteresis threshold of the stable value.
pub open spec fn settled_on_jitter(p: Potentiometer, a: u16) -> bool {
    &&& 2 * a <= p.accumulator <= 2 * a + 2
    &&& a as int - (HYSTERESIS_THRESHOLD as int - 1) <= p.last_stable_val as int
    &&& p.last_stable_val as int <= a as int + HYSTERESIS_THRESHOLD as int
}

/// Once settled, a reading that moves by one unit between `a` and `a + 1`
/// never changes the stable value or the output.
pub proof fn lemma_unit_jitter_holds(p: Potentiometer, a: u16, raws: Seq<u16>)
    requires
        p.wf(),
        a < 65535,
        settled_on_jitter(p, a),
        forall|i: int| 0 <= i < raws.len() ==> raws[i] == a || raws[i] == a + 1,
    ensures
        settled_on_jitter(run(p, raws), a),
        run(p, raws).wf(),
        run(p, raws).last_stable_val == p.last_stable_val,
        run(p, raws).output() == p.output(),
    decreases raws.len(),
{
    if raws.len() > 0 {
        lemma_unit_jitter_holds(p, a, raws.drop_last());
        lemma_step_wf(run(p, raws.drop_last()), raws.last());
    }
}

} // verus!
