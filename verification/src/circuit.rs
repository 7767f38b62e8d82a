//! A circuit breaker for calls to the local embedding service.
//!
//! Closed → Open → Half-open → Closed/Open. After `threshold` consecutive
//! failures the breaker opens: no request is attempted until `cooldown` has
//! passed since it opened, after which requests are let through again as
//! probes (nothing here keeps count of probes in flight); a successful probe
//! closes the breaker, a failed one re-opens it and restarts the cooldown
//! clock at the moment of that failure.
use std::time::{Duration, Instant};
use vstd::prelude::*;

verus! {

#[verifier::external_type_specification]
#[verifier::external_body]
pub struct ExInstant(std::time::Instant);

/// The abstract state of a breaker: how many consecutive failures it has
/// seen, whether its cooldown clock is running, and its failure threshold.
pub ghost struct BreakerState {
    pub failures: nat,
    pub open: bool,
    pub threshold: nat,
}

/// Whether a breaker in state `s` lets a request through, given whether
/// the cooldown since it opened has passed.
pub open spec fn state_allows(s: BreakerState, cooldown_elapsed: bool) -> bool {
    s.failures < s.threshold || !s.open || cooldown_elapsed
}

/// Whether, at the instant `now`, the cooldown has passed since the
/// cooldown clock started at `opened` (vacuously so when it does not run).
pub open spec fn cooldown_passed(opened: Option<Instant>, cooldown: Duration, now: Instant) -> bool {
    match opened {
        Some(t) => at_least(duration_between(now, t), cooldown),
        None => true,
    }
}

/// The state after recording the outcome of one request.
pub open spec fn state_after(s: BreakerState, success: bool) -> BreakerState {
    if success {
        BreakerState { failures: 0, open: false, threshold: s.threshold }
    } else if s.failures + 1 >= s.threshold {
        BreakerState { failures: s.failures + 1, open: true, threshold: s.threshold }
    } else {
        BreakerState { failures: s.failures + 1, open: s.open, threshold: s.threshold }
    }
}

/// The state after `n` consecutive failures.
pub open spec fn state_after_failures(s: BreakerState, n: nat) -> BreakerState
    decreases n,
{
    if n == 0 {
        s
    } else {
        state_after(state_after_failures(s, (n - 1) as nat), false)
    }
}

/// When the cooldown clock started after recording an outcome at `now`, for
/// a breaker whose clock started at `opened` and whose state was `s`: a
/// success stops it, a failure from the threshold on restarts it at `now`,
/// any other failure leaves it as it was.
pub open spec fn opened_at_after(opened: Option<Instant>, s: BreakerState, success: bool, now: Instant) -> Option<Instant> {
    if success {
        None
    } else if s.failures + 1 >= s.threshold {
        Some(now)
    } else {
        opened
    }
}

/// A state that a breaker can be in: the cooldown clock runs only once the
/// threshold has been reached, and (for a threshold of at least one) always
/// runs from then on.
pub open spec fn state_wf(s: BreakerState) -> bool {
    &&& s.open ==> s.failures >= s.threshold
    &&& s.threshold >= 1 && s.failures >= s.threshold ==> s.open
}

pub struct CircuitBreaker {
    consecutive_failures: u32,
    opened_at: Option<Instant>,
    threshold: u32,
    cooldown: Duration,
}

/// The current time (`Instant::now`); nothing is stated of it.
#[verifier::external_body]
fn instant_now() -> Instant {
    Instant::now()
}

/// The time from the instant `earlier` to the instant `later`, zero when
/// `later` is not after `earlier` (`Instant::saturating_duration_since`). It
/// depends on the two instants alone.
pub uninterp spec fn duration_between(later: Instant, earlier: Instant) -> Duration;

/// The time from `earlier` to `later`, or zero
/// (`Instant::saturating_duration_since`); the result is named
/// `duration_between`.
#[verifier::external_body]
fn instant_saturating_duration_since(later: &Instant, earlier: &Instant) -> (d: Duration)
    ensures
        d == duration_between(*later, *earlier),
{
    later.saturating_duration_since(*earlier)
}

/// Whether the duration `a` is at least `b`, as `Duration`'s `PartialOrd`
/// orders them (by length of time). It depends on the two durations alone.
pub uninterp spec fn at_least(a: Duration, b: Duration) -> bool;

/// Whether `a` is at least `b` (`Duration`'s `PartialOrd::ge`); the result
/// is named `at_least`, the order of durations is not spelled out.
#[verifier::external_body]
fn duration_ge(a: &Duration, b: &Duration) -> (r: bool)
    ensures
        r == at_least(*a, *b),
{
    a.ge(b)
}

impl CircuitBreaker {
    pub closed spec fn state(&self) -> BreakerState {
        BreakerState {
            failures: self.consecutive_failures as nat,
            open: self.opened_at is Some,
            threshold: self.threshold as nat,
        }
    }

    pub closed spec fn cooldown(&self) -> Duration {
        self.cooldown
    }

    /// When the cooldown clock started, if it runs.
    pub closed spec fn opened_at(&self) -> Option<Instant> {
        self.opened_at
    }

    /// When the cooldown clock started, if it runs.
    pub fn cooldown_started_at(&self) -> (r: Option<Instant>)
        ensures
            r == self.opened_at(),
    {
        self.opened_at
    }

    /// A closed breaker that opens after `threshold` consecutive failures
    /// and stays open for `cooldown`.
    pub fn new(threshold: u32, cooldown: Duration) -> (cb: Self)
        ensures
            cb.state() == (BreakerState { failures: 0, open: false, threshold: threshold as nat }),
            cb.cooldown() == cooldown,
            cb.opened_at() is None,
            state_wf(cb.state()),
    {
        CircuitBreaker { consecutive_failures: 0, opened_at: None, threshold, cooldown }
    }

    /// The number of consecutive failures recorded so far.
    pub fn consecutive_failures(&self) -> (n: u32)
        ensures
            n == self.state().failures,
    {
        self.consecutive_failures
    }

    /// The decision of `allows_attempt`, given whether the cooldown since
    /// the breaker opened has passed.
    pub fn allows_attempt_after(&self, cooldown_elapsed: bool) -> (r: bool)
        ensures
            r == state_allows(self.state(), cooldown_elapsed),
    {
        if self.consecutive_failures < self.threshold {
            return true;
        }
        match self.opened_at {
            Some(_) => cooldown_elapsed,
            None => true,
        }
    }

    /// Whether a request at the instant `now` should be attempted: the
    /// circuit is closed, or the cooldown has passed between the instant its
    /// clock started and `now`.
    pub fn allows_attempt_at(&self, now: Instant) -> (r: bool)
        ensures
            r == state_allows(self.state(), cooldown_passed(self.opened_at(), self.cooldown(), now)),
    {
        match &self.opened_at {
            Some(t) => {
                let elapsed = instant_saturating_duration_since(&now, t);
                let done = duration_ge(&elapsed, &self.cooldown);
                self.allows_attempt_after(done)
            },
            None => self.allows_attempt_after(true),
        }
    }

    /// True if a real request should be attempted now: the circuit is
    /// closed, or it has been open long enough to let a probe through. The
    /// current instant is read from the clock; `allows_attempt_at` states
    /// the decision for every instant.
    pub fn allows_attempt(&self) -> (r: bool)
        ensures
            self.state().failures < self.state().threshold || !self.state().open ==> r,
            exists|now: Instant|
                r == state_allows(self.state(), cooldown_passed(self.opened_at(), self.cooldown(), now)),
    {
        let now = instant_now();
        self.allows_attempt_at(now)
    }

    /// Record the outcome of one request that ended at `now`: a success
    /// closes the breaker and resets the count; a failure counts, and from
    /// the threshold on (re)starts the cooldown clock at `now`.
    pub fn record_result_at(&mut self, success: bool, now: Instant)
        requires
            success || old(self).state().failures < u32::MAX,
        ensures
            final(self).state() == state_after(old(self).state(), success),
            final(self).cooldown() == old(self).cooldown(),
            final(self).opened_at() == opened_at_after(old(self).opened_at(), old(self).state(), success, now),
            state_wf(old(self).state()) ==> state_wf(final(self).state()),
    {
        if success {
            self.consecutive_failures = 0;
            self.opened_at = None;
        } else {
            self.consecutive_failures += 1;
            if self.consecutive_failures >= self.threshold {
                self.opened_at = Some(now);
            }
        }
    }

    /// Record the outcome of one request at the current time: a success
    /// closes the breaker and resets the count; a failure counts, and from
    /// the threshold on (re)starts the cooldown clock at the time of this
    /// call, read from the clock.
    pub fn record_result(&mut self, success: bool)
        requires
            success || old(self).state().failures < u32::MAX,
        ensures
            final(self).state() == state_after(old(self).state(), success),
            final(self).cooldown() == old(self).cooldown(),
            exists|now: Instant| final(self).opened_at() == opened_at_after(old(self).opened_at(), old(self).state(), success, now),
            state_wf(old(self).state()) ==> state_wf(final(self).state()),
    {
        let now = instant_now();
        self.record_result_at(success, now);
    }
}

/// Law: a fresh breaker lets requests through.
pub proof fn law_starts_closed(threshold: nat, cooldown_elapsed: bool)
    ensures
        state_allows(BreakerState { failures: 0, open: false, threshold }, cooldown_elapsed),
{
}

proof fn lemma_failures_count(s: BreakerState, n: nat)
    ensures
        state_after_failures(s, n).failures == s.failures + n,
        state_after_failures(s, n).threshold == s.threshold,
        n > 0 && s.failures + n >= s.threshold ==> state_after_failures(s, n).open,
        s.failures + n < s.threshold ==> state_after_failures(s, n).open == s.open,
    decreases n,
{
    if n > 0 {
        lemma_failures_count(s, (n - 1) as nat);
    }
}

/// Law: once consecutive failures reach the threshold the breaker is open,
/// and it refuses requests until the cooldown has passed.
pub proof fn law_opens_at_threshold(s: BreakerState, n: nat)
    requires
        n > 0,
        s.failures + n >= s.threshold,
    ensures
        state_after_failures(s, n).open,
        !state_allows(state_after_failures(s, n), false),
        state_allows(state_after_failures(s, n), true),
{
    lemma_failures_count(s, n);
}

/// Law: a success resets the count, so that fewer than `threshold` failures
/// after it leave the breaker closed.
pub proof fn law_success_resets(s: BreakerState, n: nat, cooldown_elapsed: bool)
    requires
        n < s.threshold,
    ensures
        state_after(s, true).failures == 0,
        state_allows(state_after_failures(state_after(s, true), n), cooldown_elapsed),
{
    lemma_failures_count(state_after(s, true), n);
}

/// Law: a failed probe re-opens the breaker at once (while the cooldown,
/// which `record_result_at` restarts at the failure, has not passed, it
/// refuses requests); a successful probe closes it.
pub proof fn law_probe_outcome(s: BreakerState, cooldown_elapsed: bool)
    requires
        s.failures >= s.threshold,
    ensures
        state_after(s, false).open,
        !state_allows(state_after(s, false), false),
        state_allows(state_after(s, true), cooldown_elapsed),
{
}

/// Law: after a failure that trips the breaker or fails a probe at the
/// instant `now`, the breaker refuses at every instant `t` at which less than
/// the cooldown has passed since `now`, and allows once it has.
pub proof fn law_failure_waits_full_cooldown(
    opened: Option<Instant>,
    s: BreakerState,
    cooldown: Duration,
    now: Instant,
    t: Instant,
)
    requires
        s.failures + 1 >= s.threshold,
    ensures
        state_allows(state_after(s, false), cooldown_passed(opened_at_after(opened, s, false, now), cooldown, t))
            == at_least(duration_between(t, now), cooldown),
{
}

} // verus!
