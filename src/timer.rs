//! The repeating spawn timer.

use vstd::prelude::*;
use vstd::arithmetic::div_mod::{lemma_fundamental_div_mod, lemma_fundamental_div_mod_converse};

verus! {

/// Period between two obstacle spawns, in milliseconds.
pub const SPAWN_PERIOD_MS: u64 = 1000;

/// A repeating timer: `elapsed` milliseconds into a period of `period`.
#[derive(Clone, Copy, Debug, PartialEq, Eq, Structural)]
pub struct SpawnTimer {
    pub elapsed: u64,
    pub period: u64,
}

/// Whether a timer `elapsed` into `period` fires when advanced by `dt`.
pub open spec fn fires(elapsed: int, period: int, dt: int) -> bool {
    elapsed + dt >= period
}

impl SpawnTimer {
    pub open spec fn wf(self) -> bool {
        0 < self.period && self.elapsed < self.period
    }

    /// The timer after `dt` milliseconds: what lies beyond the end of the
    /// period is carried into the next one.
    pub open spec fn advanced(self, dt: int) -> SpawnTimer {
        SpawnTimer { elapsed: ((self.elapsed + dt) % (self.period as int)) as u64, ..self }
    }

    /// A timer with the spawn period, at the start of its period.
    pub fn new() -> (r: SpawnTimer)
        ensures
            r == (SpawnTimer { elapsed: 0, period: SPAWN_PERIOD_MS }),
            r.wf(),
    {
        SpawnTimer { elapsed: 0, period: SPAWN_PERIOD_MS }
    }

    /// Advances the timer by `dt_ms` and tells whether it fired.
    pub fn tick(&mut self, dt_ms: u64) -> (fired: bool)
        requires
            old(self).wf(),
            dt_ms <= u64::MAX - old(self).period,
        ensures
            fired == fires(old(self).elapsed as int, old(self).period as int, dt_ms as int),
            *final(self) == old(self).advanced(dt_ms as int),
            final(self).wf(),
    {
        let total = self.elapsed + dt_ms;
        self.elapsed = total % self.period;
        total >= self.period
    }
}

/// Sum of a sequence of step durations.
pub open spec fn total(deltas: Seq<int>) -> int
    decreases deltas.len(),
{
    if deltas.len() == 0 {
        0
    } else {
        total(deltas.drop_last()) + deltas.last()
    }
}

/// Runs a timer of period `period` from `elapsed` through the steps `deltas`,
/// as `tick` does: the number of times it fired, and where it stands after.
pub open spec fn run_timer(period: int, elapsed: int, deltas: Seq<int>) -> (int, int)
    decreases deltas.len(),
{
    if deltas.len() == 0 {
        (0, elapsed)
    } else {
        let (count, e) = run_timer(period, elapsed, deltas.drop_last());
        let t = e + deltas.last();
        (count + if t >= period { 1int } else { 0int }, t % period)
    }
}

/// Started at the beginning of a period and advanced by steps no longer than
/// the period, the timer fires exactly `floor(D / period)` times over a total
/// duration `D`, and stands at `D mod period`.
pub proof fn lemma_spawn_cadence(period: int, deltas: Seq<int>)
    requires
        0 < period,
        forall|i: int| 0 <= i < deltas.len() ==> 0 <= #[trigger] deltas[i] <= period,
    ensures
        run_timer(period, 0, deltas).0 == total(deltas) / period,
        run_timer(period, 0, deltas).1 == total(deltas) % period,
    decreases deltas.len(),
{
    if deltas.len() > 0 {
        let prefix = deltas.drop_last();
        assert forall|i: int| 0 <= i < prefix.len() implies 0 <= #[trigger] prefix[i] <= period by {
            assert(prefix[i] == deltas[i]);
        }
        lemma_spawn_cadence(period, prefix);
        let (count, e) = run_timer(period, 0, prefix);
        lemma_fundamental_div_mod(total(prefix), period);
        assert(total(prefix) == count * period + e) by (nonlinear_arith)
            requires
                total(prefix) == period * (total(prefix) / period) + total(prefix) % period,
                count == total(prefix) / period,
                e == total(prefix) % period,
        ;
        assert(0 <= e < period);
        let d = deltas.last();
        assert(0 <= d <= period);
        let t = e + d;
        let next = count + if t >= period { 1int } else { 0int };
        let rest = if t >= period { t - period } else { t };
        assert(total(deltas) == next * period + rest) by (nonlinear_arith)
            requires
                total(deltas) == total(prefix) + d,
                total(prefix) == count * period + e,
                t == e + d,
                next == count + if t >= period { 1int } else { 0int },
                rest == if t >= period { t - period } else { t },
        ;
        assert(0 <= rest < period);
        lemma_fundamental_div_mod_converse(total(deltas), period, next, rest);
        lemma_fundamental_div_mod_converse(t, period, if t >= period { 1int } else { 0int }, rest);
    } else {
        assert(total(deltas) == 0);
    }
}

} // verus!
