//! The client's heartbeat timer.

use vstd::prelude::*;

verus! {

/// How often a client sends a heartbeat unless told otherwise, in
/// nanoseconds: every 2 s. This should be no more than half of the
/// server's idle timeout.
pub const DEFAULT_HEARTBEAT_PERIOD: u64 = 2_000_000_000;

/// Whether a timer that has run for `elapsed` of its `period` fires when
/// `delta` more passes.
pub open spec fn fires(period: u64, elapsed: u64, delta: u64) -> bool {
    elapsed + delta >= period
}

/// How far into its next period a timer is after `delta` more has passed.
pub open spec fn carried_over(period: u64, elapsed: u64, delta: u64) -> int {
    if period == 0 {
        0
    } else {
        (elapsed + delta) % (period as int)
    }
}

/// A repeating timer that is polled once per tick.
///
/// It fires when a full period has passed since it last fired, and at most
/// once per poll, however much time the poll reports: a long pause gives
/// one firing, not one for every period missed. Time that passed beyond
/// whole periods counts towards the next firing.
pub struct HeartbeatTimer {
    period: u64,
    elapsed: u64,
}

impl HeartbeatTimer {
    #[verifier::type_invariant]
    spec fn well_formed(self) -> bool {
        if self.period == 0 {
            self.elapsed == 0
        } else {
            self.elapsed < self.period
        }
    }

    /// The time between two firings.
    pub closed spec fn spec_period(&self) -> u64 {
        self.period
    }

    /// The time that has passed since the last firing, short of a period.
    pub closed spec fn spec_elapsed(&self) -> u64 {
        self.elapsed
    }

    /// A timer that starts now and fires every `period`.
    pub fn new(period: u64) -> (timer: Self)
        ensures
            timer.spec_period() == period,
            timer.spec_elapsed() == 0,
    {
        Self { period, elapsed: 0 }
    }

    /// The time between two firings.
    #[verifier::when_used_as_spec(spec_period)]
    pub fn period(&self) -> (period: u64)
        ensures
            period == self.spec_period(),
    {
        self.period
    }

    /// The time that has passed since the last firing, short of a period.
    #[verifier::when_used_as_spec(spec_elapsed)]
    pub fn elapsed(&self) -> (elapsed: u64)
        ensures
            elapsed == self.spec_elapsed(),
            self.period() > 0 ==> elapsed < self.period(),
    {
        proof {
            use_type_invariant(self);
        }
        self.elapsed
    }

    /// Lets `delta` pass, and says whether the timer fired.
    pub fn tick(&mut self, delta: u64) -> (fired: bool)
        ensures
            fired == fires(old(self).period(), old(self).elapsed(), delta),
            final(self).period() == old(self).period(),
            final(self).elapsed() == carried_over(old(self).period(), old(self).elapsed(), delta),
    {
        proof {
            use_type_invariant(&*self);
        }
        if self.period == 0 {
            return true;
        }
        let remaining: u64 = self.period - self.elapsed;
        if delta < remaining {
            self.elapsed = self.elapsed + delta;
            assert(self.elapsed == (old(self).elapsed + delta) % (self.period as int)) by {
                vstd::arithmetic::div_mod::lemma_small_mod(
                    (old(self).elapsed + delta) as nat,
                    self.period as nat,
                );
            }
            false
        } else {
            let beyond: u64 = delta - remaining;
            self.elapsed = beyond % self.period;
            assert(self.elapsed == (old(self).elapsed + delta) % (self.period as int)) by {
                vstd::arithmetic::div_mod::lemma_mod_add_multiples_vanish(
                    beyond as int,
                    self.period as int,
                );
            }
            true
        }
    }
}

impl Default for HeartbeatTimer {
    fn default() -> (timer: Self)
        ensures
            timer.period() == DEFAULT_HEARTBEAT_PERIOD,
            timer.elapsed() == 0,
    {
        Self { period: DEFAULT_HEARTBEAT_PERIOD, elapsed: 0 }
    }
}

/// A timer fires exactly when the time since its last firing reaches a
/// full period, and then starts over with what went beyond whole periods:
/// it never fires early, and a long pause counts as one firing.
pub proof fn lemma_fires_on_a_full_period(period: u64, elapsed: u64, delta: u64)
    requires
        period > 0,
        elapsed < period,
    ensures
        fires(period, elapsed, delta) <==> delta >= period - elapsed,
        0 <= carried_over(period, elapsed, delta) < period,
        delta == period - elapsed ==> carried_over(period, elapsed, delta) == 0,
        delta < period - elapsed ==> carried_over(period, elapsed, delta) == elapsed + delta,
{
    if delta < period - elapsed {
        vstd::arithmetic::div_mod::lemma_small_mod((elapsed + delta) as nat, period as nat);
    }
    if delta == period - elapsed {
        vstd::arithmetic::div_mod::lemma_mod_self_0(period as int);
    }
    vstd::arithmetic::div_mod::lemma_mod_pos_bound(elapsed + delta, period as int);
}

} // verus!
