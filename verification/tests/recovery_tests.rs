use saved_core::recovery::{
    CircuitBreaker, CircuitBreakerConfig, CircuitBreakerState, ErrorRecoveryManager, OperationType,
    RecoveryError, RetryDecision,
};

fn config(threshold: u32, timeout_ms: u64) -> CircuitBreakerConfig {
    CircuitBreakerConfig { failure_threshold: threshold, timeout_ms, success_threshold: 3 }
}

#[test]
fn breaker_opens_after_threshold_failures() {
    let mut cb = CircuitBreaker::new(config(3, 1000));
    assert_eq!(cb.get_state(), CircuitBreakerState::Closed);
    cb.record_failure_at(10);
    cb.record_failure_at(20);
    assert_eq!(cb.get_state(), CircuitBreakerState::Closed);
    cb.record_failure_at(30);
    assert_eq!(cb.get_state(), CircuitBreakerState::Open);
    let status = cb.get_status();
    assert_eq!(status.failure_count, 3);
    assert_eq!(status.success_count, 0);
    assert_eq!(status.last_failure_time, Some(30));
}

#[test]
fn open_breaker_waits_for_timeout() {
    let mut cb = CircuitBreaker::new(config(1, 1000));
    cb.record_failure_at(5000);
    assert!(!cb.can_execute_at(5999));
    assert!(!cb.can_execute_at(100));
    assert_eq!(cb.get_state(), CircuitBreakerState::Open);
    assert!(cb.can_execute_at(6000));
    assert_eq!(cb.get_state(), CircuitBreakerState::HalfOpen);
}

#[test]
fn breaker_closes_after_timeout_and_successes() {
    let mut cb = CircuitBreaker::new(CircuitBreakerConfig::default());
    for t in 0..5u64 {
        cb.record_failure_at(1000 + t);
    }
    assert_eq!(cb.get_state(), CircuitBreakerState::Open);
    assert!(!cb.can_execute_at(1004 + 59_999));
    assert!(cb.can_execute_at(1004 + 60_000));
    assert_eq!(cb.get_state(), CircuitBreakerState::HalfOpen);
    cb.record_success();
    cb.record_success();
    assert_eq!(cb.get_state(), CircuitBreakerState::HalfOpen);
    cb.record_success();
    assert_eq!(cb.get_state(), CircuitBreakerState::Closed);
    assert_eq!(cb.get_status().success_count, 0);
}

#[test]
fn half_open_breaker_reopens_on_failures() {
    let mut cb = CircuitBreaker::new(config(1, 1000));
    cb.record_failure_at(0);
    assert!(cb.can_execute_at(1000));
    assert_eq!(cb.get_state(), CircuitBreakerState::HalfOpen);
    cb.record_failure_at(1001);
    assert_eq!(cb.get_state(), CircuitBreakerState::Open);
    assert!(!cb.can_execute_at(1500));
}

#[test]
fn success_resets_failures() {
    let mut cb = CircuitBreaker::new(config(5, 1000));
    cb.record_failure_at(1);
    cb.record_failure_at(2);
    cb.record_success();
    let status = cb.get_status();
    assert_eq!(status.failure_count, 0);
    assert_eq!(status.success_count, 1);
    assert!(cb.can_execute());
}

#[test]
fn default_breaker_config_values() {
    let c = CircuitBreakerConfig::default();
    assert_eq!(c.failure_threshold, 5);
    assert_eq!(c.timeout_ms, 60_000);
    assert_eq!(c.success_threshold, 3);
}

#[test]
fn manager_retries_with_backoff_then_gives_up() {
    let mut m = ErrorRecoveryManager::new();
    let name = "storage-write";
    let mut run = m.begin_retry_at(OperationType::Storage, name, 0).unwrap();
    assert_eq!(run.delay_ms, 100);
    assert_eq!(m.record_attempt_at(&mut run, name, false, 10, 0), RetryDecision::RetryAfter(100));
    assert_eq!(run.delay_ms, 150);
    assert_eq!(m.record_attempt_at(&mut run, name, false, 20, 1000), RetryDecision::RetryAfter(165));
    assert_eq!(run.delay_ms, 225);
    assert_eq!(m.record_attempt_at(&mut run, name, false, 30, 0), RetryDecision::GaveUp);
    let stats = m.get_retry_stats();
    assert_eq!(stats.total_attempts, 3);
    assert_eq!(stats.failed_attempts, 3);
    let status = m.get_circuit_breaker_status(name).unwrap();
    assert_eq!(status.failure_count, 3);
}

#[test]
fn manager_success_updates_average() {
    let mut m = ErrorRecoveryManager::new();
    let mut run = m.begin_retry_at(OperationType::Network, "net", 1000).unwrap();
    assert_eq!(m.record_attempt_at(&mut run, "net", true, 1400, 0), RetryDecision::Succeeded);
    let stats = m.get_retry_stats();
    assert_eq!(stats.successful_attempts, 1);
    assert_eq!(stats.average_retry_time_ms, 400);
    assert!(m.get_circuit_breaker_status("net").is_none());
}

#[test]
fn manager_refuses_when_circuit_open() {
    let mut m = ErrorRecoveryManager::new();
    for t in 0..5u64 {
        m.record_operation_failure_at("sync", 100 + t);
    }
    assert_eq!(m.begin_retry_at(OperationType::Sync, "sync", 200), Err(RecoveryError::CircuitOpen));
    assert_eq!(m.get_retry_stats().circuit_breaker_trips, 1);
    assert!(m.begin_retry_at(OperationType::Sync, "sync", 100 + 4 + 60_000).is_ok());
    assert_eq!(m.get_circuit_breaker_status("sync").unwrap().state, CircuitBreakerState::HalfOpen);
    m.reset_circuit_breaker("sync");
    let status = m.get_circuit_breaker_status("sync").unwrap();
    assert_eq!(status.state, CircuitBreakerState::Closed);
    assert_eq!(status.failure_count, 0);
}

#[test]
fn failures_below_threshold_are_counted_while_closed() {
    let mut cb = CircuitBreaker::new(config(4, 1000));
    cb.record_success();
    cb.record_failure_at(7);
    cb.record_failure_at(9);
    cb.record_failure_at(12);
    let status = cb.get_status();
    assert_eq!(status.state, CircuitBreakerState::Closed);
    assert_eq!(status.failure_count, 3);
    assert_eq!(status.success_count, 0);
    assert_eq!(status.last_failure_time, Some(12));
    assert_eq!(cb.get_state(), status.state);
}
