//! When the background eviction runs.

use vstd::prelude::*;

verus! {

/// How many milliseconds lie between two looks at the clock.
pub const TICK_MILLIS: u64 = 500;

/// What to do after a tick.
#[derive(Clone, Copy, Debug, PartialEq, Eq, Structural)]
pub enum TimerStep {
    /// End: the policy is shutting down.
    Stop,
    /// Sleep for another tick.
    Wait,
    /// Evict, then sleep for another tick.
    Evict,
}

/// What a timer stands for: its interval and the time since the last eviction, in milliseconds.
pub struct TimerModel {
    pub interval: nat,
    pub elapsed: nat,
}

impl TimerModel {
    /// A timer that has just been started.
    pub open spec fn started(interval_secs: u64) -> TimerModel {
        TimerModel { interval: interval_secs as nat * 1000, elapsed: 0 }
    }

    /// Whether the next tick completes the interval.
    pub open spec fn is_due(self) -> bool {
        self.elapsed + TICK_MILLIS >= self.interval
    }

    /// The timer after a tick.
    pub open spec fn tick(self) -> TimerModel {
        TimerModel {
            interval: self.interval,
            elapsed: if self.is_due() {
                0
            } else {
                self.elapsed + TICK_MILLIS as nat
            },
        }
    }

    /// The timer after `n` ticks.
    pub open spec fn after_ticks(self, n: nat) -> TimerModel
        decreases n,
    {
        if n == 0 {
            self
        } else {
            self.after_ticks((n - 1) as nat).tick()
        }
    }
}

/// A timer for evictions.
#[derive(Debug)]
pub struct EvictionTimer {
    interval: u128,
    elapsed: u128,
}

impl View for EvictionTimer {
    type V = TimerModel;

    closed spec fn view(&self) -> TimerModel {
        TimerModel { interval: self.interval as nat, elapsed: self.elapsed as nat }
    }
}

impl EvictionTimer {
    /// The interval is one that a configuration can ask for, and less than an interval has passed.
    pub closed spec fn wf(&self) -> bool {
        self.interval <= u64::MAX * 1000 && self.elapsed < self.interval
    }

    /// A timer that asks for an eviction every `interval_secs` seconds. There is none for an
    /// interval of 0, which switches evictions off.
    pub fn new(interval_secs: u64) -> (timer: Option<EvictionTimer>)
        ensures
            timer is Some <==> interval_secs > 0,
            timer matches Some(t) ==> t.wf() && t@ == TimerModel::started(interval_secs),
    {
        if interval_secs > 0 {
            Some(EvictionTimer { interval: interval_secs as u128 * 1000, elapsed: 0 })
        } else {
            None
        }
    }

    /// What to do after a tick.
    pub fn step(&mut self, shutdown: bool) -> (step: TimerStep)
        requires
            old(self).wf(),
        ensures
            final(self).wf(),
            step == (if shutdown {
                TimerStep::Stop
            } else if old(self)@.is_due() {
                TimerStep::Evict
            } else {
                TimerStep::Wait
            }),
            final(self)@ == (if shutdown {
                old(self)@
            } else {
                old(self)@.tick()
            }),
    {
        if shutdown {
            return TimerStep::Stop;
        }
        let elapsed: u128 = self.elapsed + TICK_MILLIS as u128;
        if elapsed >= self.interval {
            self.elapsed = 0;
            TimerStep::Evict
        } else {
            self.elapsed = elapsed;
            TimerStep::Wait
        }
    }
}

/// A timer asks for an eviction exactly when a whole number of intervals has passed: two ticks make
/// a second.
pub proof fn law_evicts_every_interval(interval_secs: u64, n: nat)
    requires
        interval_secs > 0,
    ensures
        TimerModel::started(interval_secs).after_ticks(n).elapsed == TICK_MILLIS * (n % (2 * interval_secs as nat)),
        TimerModel::started(interval_secs).after_ticks(n).is_due() <==> (n + 1) % (2 * interval_secs as nat) == 0,
    decreases n,
{
    let period = 2 * interval_secs as nat;
    let timer = TimerModel::started(interval_secs);
    lemma_same_interval(timer, n);
    lemma_next_remainder(n, period);
    if n > 0 {
        let m = (n - 1) as nat;
        law_evicts_every_interval(interval_secs, m);
        lemma_same_interval(timer, m);
        lemma_next_remainder(m, period);
    }
}

/// A timer keeps its interval.
proof fn lemma_same_interval(timer: TimerModel, n: nat)
    ensures
        timer.after_ticks(n).interval == timer.interval,
    decreases n,
{
    if n > 0 {
        lemma_same_interval(timer, (n - 1) as nat);
    }
}

/// The remainder goes up by one, or back to 0.
proof fn lemma_next_remainder(n: nat, period: nat)
    requires
        period > 0,
    ensures
        n % period < period,
        n == 0 ==> n % period == 0,
        n % period == period - 1 ==> (n + 1) % period == 0,
        n % period != period - 1 ==> (n + 1) % period == n % period + 1,
        n % period != period - 1 ==> (n + 1) % period != 0,
{
    let q = n / period;
    let r = n % period;
    vstd::arithmetic::div_mod::lemma_fundamental_div_mod(n as int, period as int);
    vstd::arithmetic::div_mod::lemma_mod_bound(n as int, period as int);
    if n == 0 {
        vstd::arithmetic::div_mod::lemma_small_mod(0, period);
    }
    if r == period - 1 {
        assert((q + 1) * period == period * q + period) by (nonlinear_arith);
        vstd::arithmetic::div_mod::lemma_fundamental_div_mod_converse(n as int + 1, period as int, q as int + 1, 0);
    } else {
        assert(q * period == period * q) by (nonlinear_arith);
        vstd::arithmetic::div_mod::lemma_fundamental_div_mod_converse(n as int + 1, period as int, q as int, r as int + 1);
    }
}

} // verus!
