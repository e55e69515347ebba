//! Error recovery: circuit breakers and retry decisions.
//!
//! A circuit breaker counts the consecutive failures of an operation and
//! opens once they reach a threshold; an open breaker refuses calls until a
//! timeout has passed since the last failure. The first check after that
//! timeout moves it to half-open, where enough successes close it again.
//! The recovery manager keeps one
//! breaker per operation name and decides, after each attempt, whether to
//! stop or to retry after an exponentially growing delay.
//!
//! Times are milliseconds of the system clock; durations are milliseconds.
//! Factors are given in thousandths. Counters saturate at their type's limit.

use vstd::prelude::*;
use crate::clock::now_ms;

verus! {

/// A random number from `0` to `max` inclusive (`fastrand::u64(..=max)`).
#[verifier::external_body]
fn random_up_to(max: u64) -> (r: u64)
    ensures
        r <= max,
{
    fastrand::u64(..=max)
}

/// Types of operations that can be retried.
#[derive(Clone, Copy, Debug, PartialEq, Eq, Hash, Structural)]
pub enum OperationType {
    Network,
    Storage,
    Sync,
    Chunk,
}

/// State of a circuit breaker.
#[derive(Clone, Copy, Debug, PartialEq, Eq, Structural)]
pub enum CircuitBreakerState {
    Closed,
    Open,
    HalfOpen,
}

/// Configuration of a circuit breaker.
#[derive(Clone, Copy, Debug, PartialEq, Eq, Structural)]
pub struct CircuitBreakerConfig {
    /// Number of consecutive failures that opens the circuit.
    pub failure_threshold: u32,
    /// Time after the last failure before an open circuit lets calls
    /// through again, half-open, on the way to closing.
    pub timeout_ms: u64,
    /// Number of successes that closes a half-open circuit.
    pub success_threshold: u32,
}

/// The default breaker configuration: 5 failures, 60 s, 3 successes.
pub open spec fn default_breaker_config() -> CircuitBreakerConfig {
    CircuitBreakerConfig { failure_threshold: 5, timeout_ms: 60_000, success_threshold: 3 }
}

impl Default for CircuitBreakerConfig {
    fn default() -> (c: Self)
        ensures
            c == default_breaker_config(),
    {
        CircuitBreakerConfig { failure_threshold: 5, timeout_ms: 60_000, success_threshold: 3 }
    }
}

/// A circuit breaker.
#[derive(Clone, Copy, Debug)]
pub struct CircuitBreaker {
    state: CircuitBreakerState,
    failure_count: u32,
    success_count: u32,
    last_failure_time: Option<u64>,
    config: CircuitBreakerConfig,
}

/// The state of a circuit breaker, for queries.
#[derive(Clone, Copy, Debug, PartialEq, Eq, Structural)]
pub struct CircuitBreakerStatus {
    pub state: CircuitBreakerState,
    pub failure_count: u32,
    pub success_count: u32,
    pub last_failure_time: Option<u64>,
}

/// The mathematical form of a [`CircuitBreaker`].
pub struct BreakerView {
    pub state: CircuitBreakerState,
    pub failure_count: u32,
    pub success_count: u32,
    pub last_failure_time: Option<u64>,
    pub config: CircuitBreakerConfig,
}

impl View for CircuitBreaker {
    type V = BreakerView;

    closed spec fn view(&self) -> BreakerView {
        BreakerView {
            state: self.state,
            failure_count: self.failure_count,
            success_count: self.success_count,
            last_failure_time: self.last_failure_time,
            config: self.config,
        }
    }
}

/// A fresh breaker: closed, with no failure recorded.
pub open spec fn fresh_breaker(config: CircuitBreakerConfig) -> BreakerView {
    BreakerView {
        state: CircuitBreakerState::Closed,
        failure_count: 0,
        success_count: 0,
        last_failure_time: None,
        config,
    }
}

/// Adds one to a counter, stopping at its limit.
pub open spec fn inc_u32(x: u32) -> u32 {
    if x < u32::MAX { (x + 1) as u32 } else { x }
}

/// Whether a breaker lets a call through at time `now`: always, unless it
/// is open and less than the timeout has passed since its last failure.
pub open spec fn breaker_allows(b: BreakerView, now: u64) -> bool {
    match b.state {
        CircuitBreakerState::Open => match b.last_failure_time {
            Some(t) => (if now >= t { now - t } else { 0int }) >= b.config.timeout_ms,
            None => true,
        },
        _ => true,
    }
}

/// A breaker after a check at time `now`: an open breaker whose timeout has
/// passed becomes half-open; any other breaker is left as it is.
pub open spec fn breaker_checked(b: BreakerView, now: u64) -> BreakerView {
    if b.state == CircuitBreakerState::Open && breaker_allows(b, now) {
        BreakerView { state: CircuitBreakerState::HalfOpen, ..b }
    } else {
        b
    }
}

/// What a check at time `now` answers and leaves behind.
pub open spec fn check_outcome(before: BreakerView, now: u64, after: BreakerView, allowed: bool) -> bool {
    &&& allowed == breaker_allows(before, now)
    &&& after == breaker_checked(before, now)
}

/// A breaker after `n` successes in a row.
pub open spec fn after_successes(b: BreakerView, n: nat) -> BreakerView
    decreases n,
{
    if n == 0 {
        b
    } else {
        after_successes(after_success(b), (n - 1) as nat)
    }
}

/// A breaker after a success: the failures are forgotten, and a half-open
/// breaker with enough successes closes.
pub open spec fn after_success(b: BreakerView) -> BreakerView {
    let s = inc_u32(b.success_count);
    if b.state == CircuitBreakerState::HalfOpen && s >= b.config.success_threshold {
        BreakerView { state: CircuitBreakerState::Closed, failure_count: 0, success_count: 0, ..b }
    } else {
        BreakerView { failure_count: 0, success_count: s, ..b }
    }
}

/// A breaker after a failure at time `now`: the successes are forgotten and
/// the breaker opens once the failures reach the threshold.
pub open spec fn after_failure(b: BreakerView, now: u64) -> BreakerView {
    let f = inc_u32(b.failure_count);
    BreakerView {
        state: if f >= b.config.failure_threshold { CircuitBreakerState::Open } else { b.state },
        failure_count: f,
        success_count: 0,
        last_failure_time: Some(now),
        config: b.config,
    }
}

/// A breaker after failures at the given times, in order.
pub open spec fn after_failures(b: BreakerView, times: Seq<u64>) -> BreakerView
    decreases times.len(),
{
    if times.len() == 0 {
        b
    } else {
        after_failures(after_failure(b, times[0]), times.drop_first())
    }
}

impl CircuitBreaker {
    /// Creates a closed breaker.
    pub fn new(config: CircuitBreakerConfig) -> (r: Self)
        ensures
            r@ == fresh_breaker(config),
    {
        CircuitBreaker {
            state: CircuitBreakerState::Closed,
            failure_count: 0,
            success_count: 0,
            last_failure_time: None,
            config,
        }
    }

    /// Whether a call may go through at time `now_ms`. An open breaker
    /// whose timeout has passed lets it through and becomes half-open.
    pub fn can_execute_at(&mut self, now_ms: u64) -> (r: bool)
        ensures
            check_outcome(old(self)@, now_ms, final(self)@, r),
    {
        match self.state {
            CircuitBreakerState::Closed => true,
            CircuitBreakerState::Open => {
                let allowed = match self.last_failure_time {
                    Some(t) => {
                        let elapsed = if now_ms >= t { now_ms - t } else { 0 };
                        elapsed >= self.config.timeout_ms
                    },
                    None => true,
                };
                if allowed {
                    self.state = CircuitBreakerState::HalfOpen;
                }
                allowed
            },
            CircuitBreakerState::HalfOpen => true,
        }
    }

    /// Whether a call may go through now (see [`Self::can_execute_at`]).
    /// A breaker that is not open, or that has recorded no failure, always
    /// lets it through.
    pub fn can_execute(&mut self) -> (r: bool)
        ensures
            exists|now: u64| check_outcome(old(self)@, now, final(self)@, r),
            (old(self)@.state != CircuitBreakerState::Open || old(self)@.last_failure_time is None) ==> r,
    {
        let now = now_ms();
        self.can_execute_at(now)
    }

    /// Records a successful call.
    pub fn record_success(&mut self)
        ensures
            final(self)@ == after_success(old(self)@),
    {
        self.success_count = self.success_count.saturating_add(1);
        self.failure_count = 0;
        if self.state == CircuitBreakerState::HalfOpen
            && self.success_count >= self.config.success_threshold {
            self.state = CircuitBreakerState::Closed;
            self.success_count = 0;
        }
    }

    /// Records a failed call at time `now_ms`.
    pub fn record_failure_at(&mut self, now_ms: u64)
        ensures
            final(self)@ == after_failure(old(self)@, now_ms),
    {
        self.failure_count = self.failure_count.saturating_add(1);
        self.success_count = 0;
        self.last_failure_time = Some(now_ms);
        if self.failure_count >= self.config.failure_threshold {
            self.state = CircuitBreakerState::Open;
        }
    }

    /// Records a failed call now.
    pub fn record_failure(&mut self)
        ensures
            final(self)@.last_failure_time is Some,
            final(self)@ == after_failure(old(self)@, final(self)@.last_failure_time->0),
    {
        let now = now_ms();
        self.record_failure_at(now);
    }

    /// The current state.
    pub fn get_state(&self) -> (s: CircuitBreakerState)
        ensures
            s == self@.state,
    {
        self.state
    }

    /// The state and counters.
    pub fn get_status(&self) -> (s: CircuitBreakerStatus)
        ensures
            s == breaker_status(self@),
    {
        CircuitBreakerStatus {
            state: self.state,
            failure_count: self.failure_count,
            success_count: self.success_count,
            last_failure_time: self.last_failure_time,
        }
    }

    /// Closes the breaker and forgets its history (the configuration stays).
    pub fn reset(&mut self)
        ensures
            final(self)@ == fresh_breaker(old(self)@.config),
    {
        self.state = CircuitBreakerState::Closed;
        self.failure_count = 0;
        self.success_count = 0;
        self.last_failure_time = None;
    }
}

/// The status that a breaker reports.
pub open spec fn breaker_status(b: BreakerView) -> CircuitBreakerStatus {
    CircuitBreakerStatus {
        state: b.state,
        failure_count: b.failure_count,
        success_count: b.success_count,
        last_failure_time: b.last_failure_time,
    }
}

/// As many consecutive failures as the threshold (and at least one) open
/// any breaker.
pub proof fn lemma_threshold_failures_open(b: BreakerView, times: Seq<u64>)
    requires
        times.len() >= b.config.failure_threshold,
        times.len() >= 1,
    ensures
        after_failures(b, times).state == CircuitBreakerState::Open,
{
    lemma_failures_count(b, times);
}

/// After failures, the failure count has grown by their number (up to the
/// limit) and the last failure time is the last of them.
proof fn lemma_failures_count(b: BreakerView, times: Seq<u64>)
    ensures
        after_failures(b, times).failure_count >= (if b.failure_count + times.len() > u32::MAX { u32::MAX as int } else { b.failure_count + times.len() }),
        after_failures(b, times).config == b.config,
        times.len() > 0 ==> after_failures(b, times).state == CircuitBreakerState::Open
            || after_failures(b, times).failure_count < b.config.failure_threshold,
    decreases times.len(),
{
    if times.len() > 0 {
        lemma_failures_count(after_failure(b, times[0]), times.drop_first());
    }
}

/// A success forgets every failure, and a failure every success.
pub proof fn lemma_success_failure_reset(b: BreakerView, now: u64)
    ensures
        after_success(b).failure_count == 0,
        after_failure(b, now).success_count == 0,
        after_failure(b, now).last_failure_time == Some(now),
{
}

/// An open breaker refuses calls until the timeout has passed since its
/// last failure, and lets them through from then on.
pub proof fn lemma_open_until_timeout(b: BreakerView, now: u64)
    requires
        b.state == CircuitBreakerState::Open,
        b.last_failure_time is Some,
        now >= b.last_failure_time->0,
    ensures
        breaker_allows(b, now) <==> now - b.last_failure_time->0 >= b.config.timeout_ms,
{
}

/// After failures, the last failure time is that of the last of them, and
/// the configuration is unchanged.
proof fn lemma_failures_last_time(b: BreakerView, times: Seq<u64>)
    requires
        times.len() > 0,
    ensures
        after_failures(b, times).last_failure_time == Some(times.last()),
        after_failures(b, times).config == b.config,
    decreases times.len(),
{
    if times.len() > 1 {
        lemma_failures_last_time(after_failure(b, times[0]), times.drop_first());
        assert(times.drop_first().last() == times.last());
    } else {
        let rest = times.drop_first();
        assert(rest.len() == 0);
        assert(after_failures(after_failure(b, times[0]), rest) == after_failure(b, times[0]));
        assert(times.last() == times[0]);
    }
}

/// Successes close a half-open breaker once they reach the threshold, and
/// keep a closed one closed.
proof fn lemma_successes_close(b: BreakerView, n: nat)
    requires
        b.state == CircuitBreakerState::Closed
            || (b.state == CircuitBreakerState::HalfOpen && n >= 1 && b.success_count + n >= b.config.success_threshold),
    ensures
        after_successes(b, n).state == CircuitBreakerState::Closed,
    decreases n,
{
    if n > 0 {
        lemma_successes_close(after_success(b), (n - 1) as nat);
    }
}

/// Fewer consecutive failures than the threshold leave a closed breaker
/// closed; they are counted, the successes are forgotten, and the last of
/// them is recorded.
proof fn lemma_below_threshold_closed(b: BreakerView, times: Seq<u64>)
    requires
        b.state == CircuitBreakerState::Closed,
        b.failure_count + times.len() < b.config.failure_threshold,
    ensures
        after_failures(b, times) == (if times.len() == 0 { b } else {
            BreakerView {
                state: CircuitBreakerState::Closed,
                failure_count: (b.failure_count + times.len()) as u32,
                success_count: 0,
                last_failure_time: Some(times.last()),
                config: b.config,
            }
        }),
    decreases times.len(),
{
    if times.len() > 0 {
        let rest = times.drop_first();
        lemma_below_threshold_closed(after_failure(b, times[0]), rest);
        if rest.len() > 0 {
            assert(rest.last() == times.last());
        } else {
            assert(times.last() == times[0]);
        }
    }
}

/// A fresh breaker stays closed through fewer consecutive failures than its
/// threshold; its status then counts them, with no success and the time of
/// the last.
pub proof fn lemma_fresh_breaker_tolerates_failures(config: CircuitBreakerConfig, times: Seq<u64>)
    requires
        times.len() < config.failure_threshold,
    ensures
        after_failures(fresh_breaker(config), times).state == CircuitBreakerState::Closed,
        breaker_status(after_failures(fresh_breaker(config), times)) == (CircuitBreakerStatus {
            state: CircuitBreakerState::Closed,
            failure_count: times.len() as u32,
            success_count: 0,
            last_failure_time: if times.len() == 0 { None } else { Some(times.last()) },
        }),
{
    lemma_below_threshold_closed(fresh_breaker(config), times);
}

/// As many consecutive failures as the threshold open a fresh breaker; it
/// refuses every call until the timeout has passed since the last of them.
pub proof fn lemma_opened_breaker_refuses(config: CircuitBreakerConfig, times: Seq<u64>, early: u64)
    requires
        config.failure_threshold >= 1,
        times.len() == config.failure_threshold,
        times.last() <= early,
        early - times.last() < config.timeout_ms,
    ensures
        after_failures(fresh_breaker(config), times).state == CircuitBreakerState::Open,
        !breaker_allows(after_failures(fresh_breaker(config), times), early),
        breaker_checked(after_failures(fresh_breaker(config), times), early) == after_failures(fresh_breaker(config), times),
{
    lemma_threshold_failures_open(fresh_breaker(config), times);
    lemma_failures_last_time(fresh_breaker(config), times);
}

/// A half-open breaker stays half-open through fewer successes than the
/// threshold.
proof fn lemma_successes_below_threshold(b: BreakerView, n: nat)
    requires
        b.state == CircuitBreakerState::HalfOpen,
        b.success_count + n < b.config.success_threshold,
    ensures
        after_successes(b, n).state == CircuitBreakerState::HalfOpen,
        after_successes(b, n).success_count == b.success_count + n,
        after_successes(b, n).config == b.config,
    decreases n,
{
    if n > 0 {
        lemma_successes_below_threshold(after_success(b), (n - 1) as nat);
    }
}

/// The life of a breaker: as many consecutive failures as the threshold
/// open a fresh breaker; the first check once the timeout has passed since
/// the last of them lets the call through and leaves it half-open; one
/// success fewer than the success threshold keeps it half-open, and the
/// next success closes it.
pub proof fn lemma_breaker_cycle(config: CircuitBreakerConfig, times: Seq<u64>, late: u64)
    requires
        config.failure_threshold >= 1,
        config.success_threshold >= 1,
        times.len() == config.failure_threshold,
        late >= times.last(),
        late - times.last() >= config.timeout_ms,
    ensures
        after_failures(fresh_breaker(config), times).state == CircuitBreakerState::Open,
        breaker_allows(after_failures(fresh_breaker(config), times), late),
        breaker_checked(after_failures(fresh_breaker(config), times), late).state == CircuitBreakerState::HalfOpen,
        after_successes(
            breaker_checked(after_failures(fresh_breaker(config), times), late),
            (config.success_threshold - 1) as nat,
        ).state == CircuitBreakerState::HalfOpen,
        after_success(after_successes(
            breaker_checked(after_failures(fresh_breaker(config), times), late),
            (config.success_threshold - 1) as nat,
        )).state == CircuitBreakerState::Closed,
        after_successes(
            breaker_checked(after_failures(fresh_breaker(config), times), late),
            config.success_threshold as nat,
        ).state == CircuitBreakerState::Closed,
{
    let b = fresh_breaker(config);
    lemma_threshold_failures_open(b, times);
    lemma_failures_last_time(b, times);
    lemma_failures_count(b, times);
    let opened = after_failures(b, times);
    let half = breaker_checked(opened, late);
    assert(half.state == CircuitBreakerState::HalfOpen);
    assert(half.success_count == 0) by {
        lemma_failures_clear_successes(b, times);
    }
    lemma_successes_below_threshold(half, (config.success_threshold - 1) as nat);
    lemma_successes_close(half, config.success_threshold as nat);
}

/// After at least one failure, no success is counted.
proof fn lemma_failures_clear_successes(b: BreakerView, times: Seq<u64>)
    requires
        times.len() > 0,
    ensures
        after_failures(b, times).success_count == 0,
    decreases times.len(),
{
    if times.len() > 1 {
        lemma_failures_clear_successes(after_failure(b, times[0]), times.drop_first());
    } else {
        let rest = times.drop_first();
        assert(rest.len() == 0);
        assert(after_failures(after_failure(b, times[0]), rest) == after_failure(b, times[0]));
    }
}

/// Retry behaviour of one type of operation.
#[derive(Clone, Copy, Debug, PartialEq, Eq, Structural)]
pub struct RetryConfig {
    /// Maximum number of attempts.
    pub max_attempts: u32,
    /// Delay before the first retry.
    pub initial_delay_ms: u64,
    /// Longest delay between retries.
    pub max_delay_ms: u64,
    /// Factor by which the delay grows after each retry, in thousandths.
    pub backoff_permille: u64,
    /// Largest random addition to a delay, in thousandths of the delay.
    pub jitter_permille: u64,
}

impl Default for RetryConfig {
    fn default() -> (c: Self)
        ensures
            c == (RetryConfig { max_attempts: 3, initial_delay_ms: 100, max_delay_ms: 30_000, backoff_permille: 2000, jitter_permille: 100 }),
    {
        RetryConfig { max_attempts: 3, initial_delay_ms: 100, max_delay_ms: 30_000, backoff_permille: 2000, jitter_permille: 100 }
    }
}

/// Retry behaviour for each type of operation.
#[derive(Clone, Copy, Debug, PartialEq, Eq, Structural)]
pub struct RetryConfigs {
    /// Network operations (connections, requests).
    pub network: RetryConfig,
    /// Storage operations (reads, writes).
    pub storage: RetryConfig,
    /// Synchronisation operations.
    pub sync: RetryConfig,
    /// Chunk operations.
    pub chunk: RetryConfig,
}

/// The retry behaviour that the recovery manager uses for each type of
/// operation.
pub open spec fn default_retry_configs() -> RetryConfigs {
    RetryConfigs {
        network: RetryConfig { max_attempts: 5, initial_delay_ms: 500, max_delay_ms: 60_000, backoff_permille: 2000, jitter_permille: 200 },
        storage: RetryConfig { max_attempts: 3, initial_delay_ms: 100, max_delay_ms: 10_000, backoff_permille: 1500, jitter_permille: 100 },
        sync: RetryConfig { max_attempts: 10, initial_delay_ms: 1000, max_delay_ms: 120_000, backoff_permille: 2000, jitter_permille: 300 },
        chunk: RetryConfig { max_attempts: 5, initial_delay_ms: 200, max_delay_ms: 30_000, backoff_permille: 1800, jitter_permille: 150 },
    }
}

impl Default for RetryConfigs {
    fn default() -> (c: Self)
        ensures
            c == default_retry_configs(),
    {
        RetryConfigs {
            network: RetryConfig { max_attempts: 5, initial_delay_ms: 500, max_delay_ms: 60_000, backoff_permille: 2000, jitter_permille: 200 },
            storage: RetryConfig { max_attempts: 3, initial_delay_ms: 100, max_delay_ms: 10_000, backoff_permille: 1500, jitter_permille: 100 },
            sync: RetryConfig { max_attempts: 10, initial_delay_ms: 1000, max_delay_ms: 120_000, backoff_permille: 2000, jitter_permille: 300 },
            chunk: RetryConfig { max_attempts: 5, initial_delay_ms: 200, max_delay_ms: 30_000, backoff_permille: 1800, jitter_permille: 150 },
        }
    }
}

/// The configuration of a type of operation.
pub open spec fn config_for(cs: RetryConfigs, t: OperationType) -> RetryConfig {
    match t {
        OperationType::Network => cs.network,
        OperationType::Storage => cs.storage,
        OperationType::Sync => cs.sync,
        OperationType::Chunk => cs.chunk,
    }
}

/// Statistics of retried operations.
#[derive(Clone, Copy, Debug, PartialEq, Eq, Structural)]
pub struct RetryStats {
    pub total_attempts: u64,
    pub successful_attempts: u64,
    pub failed_attempts: u64,
    pub circuit_breaker_trips: u64,
    /// Mean time from the start of an operation to its success.
    pub average_retry_time_ms: u64,
}

/// Statistics with nothing counted.
pub open spec fn zero_stats() -> RetryStats {
    RetryStats { total_attempts: 0, successful_attempts: 0, failed_attempts: 0, circuit_breaker_trips: 0, average_retry_time_ms: 0 }
}

impl Default for RetryStats {
    fn default() -> (s: Self)
        ensures
            s == zero_stats(),
    {
        RetryStats { total_attempts: 0, successful_attempts: 0, failed_attempts: 0, circuit_breaker_trips: 0, average_retry_time_ms: 0 }
    }
}

/// Adds one to a counter, stopping at its limit.
pub open spec fn inc_u64(x: u64) -> u64 {
    if x < u64::MAX { (x + 1) as u64 } else { x }
}

/// The mean of `n` times whose first `n - 1` had mean `avg`, when the last
/// one is `t` (rounded down).
pub open spec fn running_mean(avg: u64, n: u64, t: u64) -> int {
    if n == 0 { t as int } else { (avg * (n - 1) + t) / (n as int) }
}

proof fn lemma_running_mean_bound(avg: u64, n: u64, t: u64)
    requires
        n >= 1,
    ensures
        0 <= running_mean(avg, n, t) <= u64::MAX,
{
    let m: int = if avg >= t { avg as int } else { t as int };
    assert(avg * (n - 1) + t <= m * n) by (nonlinear_arith)
        requires
            n >= 1, avg <= m, t <= m, 0 <= avg, 0 <= t;
    assert((avg * (n - 1) + t) / (n as int) <= m) by (nonlinear_arith)
        requires
            n >= 1, avg * (n - 1) + t <= m * n, 0 <= avg, 0 <= t;
    assert((avg * (n - 1) + t) / (n as int) >= 0) by (nonlinear_arith)
        requires
            n >= 1, 0 <= avg, 0 <= t;
}

proof fn lemma_mul_u64(a: u64, b: u64)
    ensures
        0 <= a * b <= 0xffff_ffff_ffff_fffe_0000_0000_0000_0001int,
{
    assert(0 <= a * b <= 0xffff_ffff_ffff_ffffint * 0xffff_ffff_ffff_ffffint) by (nonlinear_arith)
        requires a <= 0xffff_ffff_ffff_ffffint, b <= 0xffff_ffff_ffff_ffffint, 0 <= a, 0 <= b;
}

/// The breaker recorded under a name: the first entry with that name.
pub open spec fn lookup_breaker(bs: Seq<(Seq<char>, BreakerView)>, name: Seq<char>) -> Option<BreakerView>
    decreases bs.len(),
{
    if bs.len() == 0 {
        None
    } else if bs[0].0 == name {
        Some(bs[0].1)
    } else {
        lookup_breaker(bs.drop_first(), name)
    }
}

proof fn lemma_lookup_found(bs: Seq<(Seq<char>, BreakerView)>, i: int, name: Seq<char>)
    requires
        0 <= i < bs.len(),
        bs[i].0 == name,
        forall|j: int| 0 <= j < i ==> bs[j].0 != name,
    ensures
        lookup_breaker(bs, name) == Some(bs[i].1),
    decreases i,
{
    if i > 0 {
        lemma_lookup_found(bs.drop_first(), i - 1, name);
    }
}

proof fn lemma_lookup_absent(bs: Seq<(Seq<char>, BreakerView)>, name: Seq<char>)
    requires
        forall|j: int| 0 <= j < bs.len() ==> bs[j].0 != name,
    ensures
        lookup_breaker(bs, name) is None,
    decreases bs.len(),
{
    if bs.len() > 0 {
        lemma_lookup_absent(bs.drop_first(), name);
    }
}

proof fn lemma_lookup_update(bs: Seq<(Seq<char>, BreakerView)>, i: int, v: BreakerView, n: Seq<char>)
    requires
        0 <= i < bs.len(),
        forall|j: int| 0 <= j < i ==> bs[j].0 != bs[i].0,
    ensures
        lookup_breaker(bs.update(i, (bs[i].0, v)), n) == (if n == bs[i].0 { Some(v) } else { lookup_breaker(bs, n) }),
    decreases i,
{
    let u = bs.update(i, (bs[i].0, v));
    if i == 0 {
        assert(u.drop_first() =~= bs.drop_first());
    } else {
        assert(u.drop_first() =~= bs.drop_first().update(i - 1, (bs[i].0, v)));
        lemma_lookup_update(bs.drop_first(), i - 1, v, n);
    }
}

proof fn lemma_lookup_push(bs: Seq<(Seq<char>, BreakerView)>, name: Seq<char>, v: BreakerView, n: Seq<char>)
    requires
        forall|j: int| 0 <= j < bs.len() ==> bs[j].0 != name,
    ensures
        lookup_breaker(bs.push((name, v)), n) == (if n == name { Some(v) } else { lookup_breaker(bs, n) }),
    decreases bs.len(),
{
    if bs.len() == 0 {
        assert(bs.push((name, v)).drop_first() =~= bs);
    } else {
        assert(bs.push((name, v)).drop_first() =~= bs.drop_first().push((name, v)));
        lemma_lookup_push(bs.drop_first(), name, v, n);
    }
}

/// Whether two byte strings are equal.
pub fn bytes_eq(x: &[u8], y: &[u8]) -> (r: bool)
    ensures
        r == (x@ == y@),
{
    if x.len() != y.len() {
        return false;
    }
    let mut i: usize = 0;
    while i < x.len()
        invariant
            i <= x@.len(),
            x@.len() == y@.len(),
            forall|j: int| 0 <= j < i ==> x@[j] == y@[j],
        decreases x@.len() - i,
    {
        if x[i] != y[i] {
            return false;
        }
        i = i + 1;
    }
    assert(x@ =~= y@);
    true
}

/// Whether two strings are equal, compared byte by byte.
pub fn str_eq(a: &str, b: &str) -> (r: bool)
    ensures
        r == (a@ == b@),
{
    let x = a.as_bytes();
    let y = b.as_bytes();
    proof {
        vstd::utf8::encode_utf8_decode_utf8(a@);
        vstd::utf8::encode_utf8_decode_utf8(b@);
        assert(x@ == vstd::utf8::encode_utf8(a@));
        assert(y@ == vstd::utf8::encode_utf8(b@));
    }
    bytes_eq(x, y)
}

/// An operation that is being retried.
#[derive(Clone, Copy, Debug, PartialEq, Eq, Structural)]
pub struct RetryRun {
    /// Its type, which sets its retry behaviour.
    pub operation_type: OperationType,
    /// Attempts made so far.
    pub attempt: u32,
    /// Delay before the next retry, without jitter.
    pub delay_ms: u64,
    /// When the first attempt started.
    pub started_ms: u64,
}

/// What to do after an attempt.
#[derive(Clone, Copy, Debug, PartialEq, Eq, Structural)]
pub enum RetryDecision {
    /// The attempt succeeded.
    Succeeded,
    /// The attempt failed and no attempt is left.
    GaveUp,
    /// The attempt failed: retry after this many milliseconds.
    RetryAfter(u64),
}

/// Why an operation may not start.
#[derive(Clone, Copy, Debug, PartialEq, Eq, Structural)]
pub enum RecoveryError {
    /// The circuit breaker of the operation is open.
    CircuitOpen,
}

/// The text that an error reads as.
pub open spec fn recovery_error_text(e: RecoveryError) -> Seq<char> {
    match e {
        RecoveryError::CircuitOpen => "Network error: Circuit breaker is open"@,
    }
}

impl RecoveryError {
    /// The text of the error.
    pub fn message(&self) -> (r: String)
        ensures
            r@ == recovery_error_text(*self),
    {
        match self {
            RecoveryError::CircuitOpen => String::from_str("Network error: Circuit breaker is open"),
        }
    }
}

/// The largest jitter added to a delay.
pub open spec fn max_jitter(c: RetryConfig, delay: u64) -> int {
    let j = delay * c.jitter_permille / 1000;
    if j > u64::MAX { u64::MAX as int } else { j }
}

/// The delay after `delay`: grown by the backoff factor, at most the maximum.
pub open spec fn next_delay(c: RetryConfig, delay: u64) -> int {
    let d = delay * c.backoff_permille / 1000;
    if d < c.max_delay_ms { d } else { c.max_delay_ms as int }
}

/// The mathematical form of an [`ErrorRecoveryManager`].
pub struct RecoveryView {
    pub configs: RetryConfigs,
    pub breakers: Seq<(Seq<char>, BreakerView)>,
    pub stats: RetryStats,
}

/// Keeps a circuit breaker per operation name and decides on retries.
pub struct ErrorRecoveryManager {
    retry_configs: RetryConfigs,
    circuit_breakers: Vec<(String, CircuitBreaker)>,
    retry_stats: RetryStats,
}

impl View for ErrorRecoveryManager {
    type V = RecoveryView;

    closed spec fn view(&self) -> RecoveryView {
        RecoveryView {
            configs: self.retry_configs,
            breakers: Seq::new(self.circuit_breakers@.len(), |j: int| (self.circuit_breakers@[j].0@, self.circuit_breakers@[j].1@)),
            stats: self.retry_stats,
        }
    }
}

impl ErrorRecoveryManager {
    /// The configuration in use.
    pub open spec fn configs(&self) -> RetryConfigs {
        self@.configs
    }

    /// A manager with the default retry behaviour and no breaker.
    pub fn new() -> (r: Self)
        ensures
            r@.breakers.len() == 0,
            r@.stats == zero_stats(),
            r.configs() == default_retry_configs(),
    {
        let r = ErrorRecoveryManager {
            retry_configs: RetryConfigs::default(),
            circuit_breakers: Vec::new(),
            retry_stats: RetryStats::default(),
        };
        assert(r@.breakers =~= Seq::<(Seq<char>, BreakerView)>::empty());
        r
    }

    /// The retry statistics.
    pub fn get_retry_stats(&self) -> (s: &RetryStats)
        ensures
            *s == self@.stats,
    {
        &self.retry_stats
    }

    /// The retry behaviour of a type of operation.
    pub fn retry_config(&self, t: OperationType) -> (c: RetryConfig)
        ensures
            c == config_for(self.configs(), t),
    {
        match t {
            OperationType::Network => self.retry_configs.network,
            OperationType::Storage => self.retry_configs.storage,
            OperationType::Sync => self.retry_configs.sync,
            OperationType::Chunk => self.retry_configs.chunk,
        }
    }

    /// The index of the first breaker with the given name.
    fn find_breaker(&self, name: &str) -> (r: Option<usize>)
        ensures
            match r {
                Some(i) => i < self@.breakers.len() && self@.breakers[i as int].0 == name@
                    && forall|j: int| 0 <= j < i ==> self@.breakers[j].0 != name@,
                None => forall|j: int| 0 <= j < self@.breakers.len() ==> self@.breakers[j].0 != name@,
            },
    {
        let mut i: usize = 0;
        while i < self.circuit_breakers.len()
            invariant
                i <= self.circuit_breakers@.len(),
                forall|j: int| 0 <= j < i ==> self@.breakers[j].0 != name@,
            decreases self.circuit_breakers@.len() - i,
        {
            if str_eq(self.circuit_breakers[i].0.as_str(), name) {
                return Some(i);
            }
            i = i + 1;
        }
        None
    }

    /// The status of the breaker of an operation, if it has one.
    pub fn get_circuit_breaker_status(&self, name: &str) -> (r: Option<CircuitBreakerStatus>)
        ensures
            r == (match lookup_breaker(self@.breakers, name@) {
                Some(b) => Some(breaker_status(b)),
                None => None,
            }),
    {
        match self.find_breaker(name) {
            Some(i) => {
                proof { lemma_lookup_found(self@.breakers, i as int, name@); }
                Some(self.circuit_breakers[i].1.get_status())
            },
            None => {
                proof { lemma_lookup_absent(self@.breakers, name@); }
                None
            },
        }
    }

    /// Whether an operation may run at time `now_ms`: yes unless its breaker
    /// refuses it. The check moves a breaker whose timeout has passed to
    /// half-open.
    pub fn can_execute_operation_at(&mut self, name: &str, now_ms: u64) -> (r: bool)
        ensures
            r == operation_allowed(old(self)@.breakers, name@, now_ms),
            final(self)@.stats == old(self)@.stats,
            final(self).configs() == old(self).configs(),
            forall|n: Seq<char>| lookup_breaker(final(self)@.breakers, n) == checked_lookup(old(self)@.breakers, name@, now_ms, n),
    {
        match self.find_breaker(name) {
            Some(i) => {
                proof { lemma_lookup_found(self@.breakers, i as int, name@); }
                let mut b = self.circuit_breakers[i].1;
                let r = b.can_execute_at(now_ms);
                self.set_breaker(i, b);
                r
            },
            None => {
                proof { lemma_lookup_absent(self@.breakers, name@); }
                true
            },
        }
    }

    /// Replaces the breaker at index `i` (keeping its name).
    fn set_breaker(&mut self, i: usize, b: CircuitBreaker)
        requires
            i < old(self)@.breakers.len(),
            forall|j: int| 0 <= j < i ==> old(self)@.breakers[j].0 != old(self)@.breakers[i as int].0,
        ensures
            final(self)@.stats == old(self)@.stats,
            final(self).configs() == old(self).configs(),
            forall|n: Seq<char>| lookup_breaker(final(self)@.breakers, n) == (if n == old(self)@.breakers[i as int].0 {
                Some(b@)
            } else {
                lookup_breaker(old(self)@.breakers, n)
            }),
    {
        let ghost before = self@.breakers;
        let name = self.circuit_breakers[i].0.clone();
        self.circuit_breakers.set(i, (name, b));
        proof {
            assert(self@.breakers =~= before.update(i as int, (before[i as int].0, b@)));
            assert forall|n: Seq<char>| lookup_breaker(self@.breakers, n) == (if n == before[i as int].0 {
                Some(b@)
            } else {
                lookup_breaker(before, n)
            }) by {
                lemma_lookup_update(before, i as int, b@, n);
            }
        }
    }

    /// Closes the breaker of an operation and forgets its history, if it has
    /// one.
    pub fn reset_circuit_breaker(&mut self, name: &str)
        ensures
            final(self)@.stats == old(self)@.stats,
            final(self).configs() == old(self).configs(),
            forall|n: Seq<char>| lookup_breaker(final(self)@.breakers, n) == (if n == name@ {
                match lookup_breaker(old(self)@.breakers, n) {
                    Some(b) => Some(fresh_breaker(b.config)),
                    None => None,
                }
            } else {
                lookup_breaker(old(self)@.breakers, n)
            }),
    {
        match self.find_breaker(name) {
            Some(i) => {
                proof { lemma_lookup_found(self@.breakers, i as int, name@); }
                let mut b = self.circuit_breakers[i].1;
                b.reset();
                self.set_breaker(i, b);
            },
            None => {
                proof { lemma_lookup_absent(self@.breakers, name@); }
            },
        }
    }

    /// Records a success of an operation with its breaker, if it has one.
    pub fn record_operation_success(&mut self, name: &str)
        ensures
            final(self)@.stats == old(self)@.stats,
            final(self).configs() == old(self).configs(),
            forall|n: Seq<char>| lookup_breaker(final(self)@.breakers, n) == (if n == name@ {
                match lookup_breaker(old(self)@.breakers, n) {
                    Some(b) => Some(after_success(b)),
                    None => None,
                }
            } else {
                lookup_breaker(old(self)@.breakers, n)
            }),
    {
        match self.find_breaker(name) {
            Some(i) => {
                proof { lemma_lookup_found(self@.breakers, i as int, name@); }
                let mut b = self.circuit_breakers[i].1;
                b.record_success();
                self.set_breaker(i, b);
            },
            None => {
                proof { lemma_lookup_absent(self@.breakers, name@); }
            },
        }
    }

    /// Records a failure of an operation at time `now_ms`, giving it a
    /// breaker with the default configuration if it has none.
    pub fn record_operation_failure_at(&mut self, name: &str, now_ms: u64)
        ensures
            final(self)@.stats == old(self)@.stats,
            final(self).configs() == old(self).configs(),
            forall|n: Seq<char>| lookup_breaker(final(self)@.breakers, n) == (if n == name@ {
                match lookup_breaker(old(self)@.breakers, n) {
                    Some(b) => Some(after_failure(b, now_ms)),
                    None => Some(after_failure(fresh_breaker(default_breaker_config()), now_ms)),
                }
            } else {
                lookup_breaker(old(self)@.breakers, n)
            }),
    {
        match self.find_breaker(name) {
            Some(i) => {
                proof { lemma_lookup_found(self@.breakers, i as int, name@); }
                let mut b = self.circuit_breakers[i].1;
                b.record_failure_at(now_ms);
                self.set_breaker(i, b);
            },
            None => {
                let ghost before = self@.breakers;
                proof { lemma_lookup_absent(before, name@); }
                let mut b = CircuitBreaker::new(CircuitBreakerConfig::default());
                b.record_failure_at(now_ms);
                self.circuit_breakers.push((name.to_string(), b));
                proof {
                    assert(self@.breakers =~= before.push((name@, b@)));
                    assert forall|n: Seq<char>| lookup_breaker(self@.breakers, n) == (if n == name@ {
                        Some(b@)
                    } else {
                        lookup_breaker(before, n)
                    }) by {
                        lemma_lookup_push(before, name@, b@, n);
                    }
                }
            },
        }
    }
}

/// Whether the breaker recorded under a name lets a call through.
pub open spec fn operation_allowed(bs: Seq<(Seq<char>, BreakerView)>, name: Seq<char>, now: u64) -> bool {
    match lookup_breaker(bs, name) {
        Some(b) => breaker_allows(b, now),
        None => true,
    }
}

/// The breaker recorded under `n` after the breaker of `name` was checked at
/// time `now`.
pub open spec fn checked_lookup(bs: Seq<(Seq<char>, BreakerView)>, name: Seq<char>, now: u64, n: Seq<char>) -> Option<BreakerView> {
    if n == name {
        match lookup_breaker(bs, n) {
            Some(b) => Some(breaker_checked(b, now)),
            None => None,
        }
    } else {
        lookup_breaker(bs, n)
    }
}

/// What starting an operation at time `now` answers and leaves behind.
pub open spec fn begin_outcome(
    before: RecoveryView,
    configs: RetryConfigs,
    t: OperationType,
    name: Seq<char>,
    now: u64,
    after: RecoveryView,
    r: Result<RetryRun, RecoveryError>,
) -> bool {
    &&& forall|n: Seq<char>| lookup_breaker(after.breakers, n) == checked_lookup(before.breakers, name, now, n)
    &&& operation_allowed(before.breakers, name, now) ==> {
        &&& r == Ok::<RetryRun, RecoveryError>(RetryRun {
            operation_type: t,
            attempt: 0,
            delay_ms: config_for(configs, t).initial_delay_ms,
            started_ms: now,
        })
        &&& after.stats == before.stats
    }
    &&& !operation_allowed(before.breakers, name, now) ==> {
        &&& r == Err::<RetryRun, RecoveryError>(RecoveryError::CircuitOpen)
        &&& after.stats == (RetryStats { circuit_breaker_trips: inc_u64(before.stats.circuit_breaker_trips), ..before.stats })
    }
}

/// The run of an operation after an attempt.
pub open spec fn run_after(c: RetryConfig, run: RetryRun, succeeded: bool) -> RetryRun {
    let attempt = inc_u32(run.attempt);
    if succeeded || attempt >= c.max_attempts {
        RetryRun { attempt, ..run }
    } else {
        RetryRun { attempt, delay_ms: next_delay(c, run.delay_ms) as u64, ..run }
    }
}

/// The decision after an attempt, with `jitter` drawn for the delay.
pub open spec fn decision_after(c: RetryConfig, run: RetryRun, succeeded: bool, jitter: u64) -> RetryDecision {
    if succeeded {
        RetryDecision::Succeeded
    } else if inc_u32(run.attempt) >= c.max_attempts {
        RetryDecision::GaveUp
    } else {
        let j = if jitter <= max_jitter(c, run.delay_ms) { jitter as int } else { max_jitter(c, run.delay_ms) };
        let d = run.delay_ms + j;
        RetryDecision::RetryAfter(if d > u64::MAX { u64::MAX } else { d as u64 })
    }
}

/// The statistics after an attempt that took `elapsed` since the operation
/// started.
pub open spec fn stats_after(s: RetryStats, succeeded: bool, elapsed: u64) -> RetryStats {
    let total = inc_u64(s.total_attempts);
    if succeeded {
        RetryStats {
            total_attempts: total,
            successful_attempts: inc_u64(s.successful_attempts),
            average_retry_time_ms: running_mean(s.average_retry_time_ms, total, elapsed) as u64,
            ..s
        }
    } else {
        RetryStats { total_attempts: total, failed_attempts: inc_u64(s.failed_attempts), ..s }
    }
}

/// The breakers after an attempt at time `now`.
pub open spec fn breaker_after_attempt(old_b: Option<BreakerView>, succeeded: bool, now: u64) -> Option<BreakerView> {
    if succeeded {
        match old_b {
            Some(b) => Some(after_success(b)),
            None => None,
        }
    } else {
        match old_b {
            Some(b) => Some(after_failure(b, now)),
            None => Some(after_failure(fresh_breaker(default_breaker_config()), now)),
        }
    }
}

impl ErrorRecoveryManager {
    /// Starts an operation at time `now_ms`. When its breaker refuses the
    /// call, the refusal is counted as a trip and the operation does not
    /// start; a breaker whose timeout has passed becomes half-open.
    pub fn begin_retry_at(&mut self, t: OperationType, name: &str, now_ms: u64) -> (r: Result<RetryRun, RecoveryError>)
        ensures
            final(self).configs() == old(self).configs(),
            begin_outcome(old(self)@, old(self).configs(), t, name@, now_ms, final(self)@, r),
    {
        let c = self.retry_config(t);
        if !self.can_execute_operation_at(name, now_ms) {
            self.retry_stats.circuit_breaker_trips = self.retry_stats.circuit_breaker_trips.saturating_add(1);
            return Err(RecoveryError::CircuitOpen);
        }
        Ok(RetryRun { operation_type: t, attempt: 0, delay_ms: c.initial_delay_ms, started_ms: now_ms })
    }

    /// Starts an operation now (see [`Self::begin_retry_at`]). An operation
    /// without a breaker always starts.
    pub fn begin_retry(&mut self, t: OperationType, name: &str) -> (r: Result<RetryRun, RecoveryError>)
        ensures
            final(self).configs() == old(self).configs(),
            exists|now: u64| begin_outcome(old(self)@, old(self).configs(), t, name@, now, final(self)@, r),
            lookup_breaker(old(self)@.breakers, name@) is None ==> r is Ok,
    {
        let now = now_ms();
        self.begin_retry_at(t, name, now)
    }

    /// Records the outcome of an attempt of a run at time `now_ms`, with
    /// `jitter_ms` drawn for the next delay (cut to the largest jitter), and
    /// decides what comes next.
    pub fn record_attempt_at(&mut self, run: &mut RetryRun, name: &str, succeeded: bool, now_ms: u64, jitter_ms: u64) -> (d: RetryDecision)
        ensures
            final(self).configs() == old(self).configs(),
            *final(run) == run_after(config_for(old(self).configs(), old(run).operation_type), *old(run), succeeded),
            d == decision_after(config_for(old(self).configs(), old(run).operation_type), *old(run), succeeded, jitter_ms),
            final(self)@.stats == stats_after(old(self)@.stats, succeeded,
                (if now_ms >= old(run).started_ms { now_ms - old(run).started_ms } else { 0int }) as u64),
            forall|n: Seq<char>| lookup_breaker(final(self)@.breakers, n) == (if n == name@ {
                breaker_after_attempt(lookup_breaker(old(self)@.breakers, n), succeeded, now_ms)
            } else {
                lookup_breaker(old(self)@.breakers, n)
            }),
    {
        let c = self.retry_config(run.operation_type);
        run.attempt = run.attempt.saturating_add(1);
        self.retry_stats.total_attempts = self.retry_stats.total_attempts.saturating_add(1);
        if succeeded {
            self.record_operation_success(name);
            self.retry_stats.successful_attempts = self.retry_stats.successful_attempts.saturating_add(1);
            let elapsed = if now_ms >= run.started_ms { now_ms - run.started_ms } else { 0 };
            let n = self.retry_stats.total_attempts;
            proof { lemma_running_mean_bound(self.retry_stats.average_retry_time_ms, n, elapsed); }
            proof { lemma_mul_u64(self.retry_stats.average_retry_time_ms, (n - 1) as u64); }
            let avg = self.retry_stats.average_retry_time_ms as u128;
            let sum = avg * ((n - 1) as u128) + elapsed as u128;
            self.retry_stats.average_retry_time_ms = (sum / (n as u128)) as u64;
            RetryDecision::Succeeded
        } else {
            self.record_operation_failure_at(name, now_ms);
            self.retry_stats.failed_attempts = self.retry_stats.failed_attempts.saturating_add(1);
            if run.attempt >= c.max_attempts {
                return RetryDecision::GaveUp;
            }
            let delay = run.delay_ms;
            proof { lemma_mul_u64(delay, c.jitter_permille); lemma_mul_u64(delay, c.backoff_permille); }
            let jmax128 = (delay as u128) * (c.jitter_permille as u128) / 1000;
            let jmax: u64 = if jmax128 > u64::MAX as u128 { u64::MAX } else { jmax128 as u64 };
            let j = if jitter_ms <= jmax { jitter_ms } else { jmax };
            let next128 = (delay as u128) * (c.backoff_permille as u128) / 1000;
            run.delay_ms = if next128 < c.max_delay_ms as u128 { next128 as u64 } else { c.max_delay_ms };
            RetryDecision::RetryAfter(delay.saturating_add(j))
        }
    }

    /// Records the outcome of an attempt now (see
    /// [`Self::record_attempt_at`]), drawing the jitter at random.
    pub fn record_attempt(&mut self, run: &mut RetryRun, name: &str, succeeded: bool) -> (d: RetryDecision)
        ensures
            final(self).configs() == old(self).configs(),
            *final(run) == run_after(config_for(old(self).configs(), old(run).operation_type), *old(run), succeeded),
            succeeded ==> d == RetryDecision::Succeeded,
            !succeeded ==> match d {
                RetryDecision::Succeeded => false,
                RetryDecision::GaveUp => inc_u32(old(run).attempt) >= config_for(old(self).configs(), old(run).operation_type).max_attempts,
                RetryDecision::RetryAfter(ms) => inc_u32(old(run).attempt) < config_for(old(self).configs(), old(run).operation_type).max_attempts
                    && old(run).delay_ms <= ms
                    && ms <= old(run).delay_ms + max_jitter(config_for(old(self).configs(), old(run).operation_type), old(run).delay_ms),
            },
    {
        let c = self.retry_config(run.operation_type);
        proof { lemma_mul_u64(run.delay_ms, c.jitter_permille); }
        let jmax128 = (run.delay_ms as u128) * (c.jitter_permille as u128) / 1000;
        let jmax: u64 = if jmax128 > u64::MAX as u128 { u64::MAX } else { jmax128 as u64 };
        let jitter = random_up_to(jmax);
        let now = now_ms();
        self.record_attempt_at(run, name, succeeded, now, jitter)
    }
}

/// While the breaker of an operation is open and its timeout has not passed
/// since its last failure, starting the operation is refused: nothing is
/// attempted, only the trip is counted, and every breaker stays as it was.
pub proof fn lemma_refused_while_open(
    before: RecoveryView,
    configs: RetryConfigs,
    t: OperationType,
    name: Seq<char>,
    now: u64,
    after: RecoveryView,
    r: Result<RetryRun, RecoveryError>,
)
    requires
        lookup_breaker(before.breakers, name) matches Some(b) && b.state == CircuitBreakerState::Open
            && (b.last_failure_time matches Some(lt) && lt <= now && now - lt < b.config.timeout_ms),
        begin_outcome(before, configs, t, name, now, after, r),
    ensures
        r == Err::<RetryRun, RecoveryError>(RecoveryError::CircuitOpen),
        after.stats == (RetryStats { circuit_breaker_trips: inc_u64(before.stats.circuit_breaker_trips), ..before.stats }),
        forall|n: Seq<char>| #[trigger] lookup_breaker(after.breakers, n) == lookup_breaker(before.breakers, n),
{
    assert forall|n: Seq<char>| #[trigger] lookup_breaker(after.breakers, n) == lookup_breaker(before.breakers, n) by {
        assert(lookup_breaker(after.breakers, n) == checked_lookup(before.breakers, name, now, n));
    }
}

/// A retry delay never exceeds the configured maximum, and grows by the
/// backoff factor while below it.
pub proof fn lemma_next_delay_bounded(c: RetryConfig, d: u64)
    ensures
        next_delay(c, d) <= c.max_delay_ms,
        d * c.backoff_permille / 1000 < c.max_delay_ms ==> next_delay(c, d) == d * c.backoff_permille / 1000,
{
}

/// An operation gives up once it has made as many attempts as its
/// configuration allows, and not before.
pub proof fn lemma_gives_up_at_max_attempts(c: RetryConfig, run: RetryRun, jitter: u64)
    ensures
        (decision_after(c, run, false, jitter) == RetryDecision::GaveUp) <==> inc_u32(run.attempt) >= c.max_attempts,
{
}

} // verus!
