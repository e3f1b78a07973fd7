use river::backpressure::CreditManager;
use river::backpressure::MultiStreamCreditManager;
use river::backpressure::WindowedRateLimiter;

#[test]
fn credit_pool_scenario() {
    let mut pool = CreditManager::new(100);
    assert!(pool.consume(60));
    assert_eq!(pool.available(), 40);
    assert!(!pool.consume(50));
    assert_eq!(pool.available(), 40);
    pool.add(20);
    assert_eq!(pool.available(), 60);
}

#[test]
fn fresh_pool_consume_up_to_capacity() {
    for amount in [0u32, 1, 49, 50] {
        let mut pool = CreditManager::new(50);
        assert!(pool.consume(amount));
        assert_eq!(pool.available(), 50 - amount);
    }
    for amount in [51u32, 1000, u32::MAX] {
        let mut pool = CreditManager::new(50);
        assert!(!pool.consume(amount));
        assert_eq!(pool.available(), 50);
    }
}

#[test]
fn add_saturates() {
    let mut pool = CreditManager::new(u32::MAX - 5);
    pool.add(10);
    assert_eq!(pool.available(), u32::MAX);
    pool.add(u32::MAX);
    assert_eq!(pool.available(), u32::MAX);
}

#[test]
fn reset_restores_capacity_after_any_history() {
    let mut pool = CreditManager::new(30);
    assert!(pool.consume(10));
    pool.add(500);
    assert!(pool.consume(7));
    pool.reset();
    assert_eq!(pool.available(), 30);
    assert!(pool.consume(30));
    assert!(pool.is_exhausted());
    assert!(!pool.has_credits());
    pool.reset();
    assert_eq!(pool.available(), 30);
    assert!(pool.has_credits());
}

#[test]
fn zero_capacity_pool() {
    let mut pool = CreditManager::new(0);
    assert!(pool.is_exhausted());
    assert!(pool.consume(0));
    assert!(!pool.consume(1));
}

#[test]
fn registry_register_and_consume() {
    let mut reg = MultiStreamCreditManager::new(10);
    reg.register_stream("a".to_string(), None);
    reg.register_stream("b".to_string(), Some(3));
    assert_eq!(reg.available_credits("a"), Some(10));
    assert_eq!(reg.available_credits("b"), Some(3));
    assert!(reg.consume("b", 2));
    assert!(!reg.consume("b", 2));
    assert_eq!(reg.available_credits("b"), Some(1));
    assert_eq!(reg.available_credits("a"), Some(10));
    assert_eq!(reg.total_available_credits(), 11);
}

#[test]
fn registry_unknown_stream() {
    let mut reg = MultiStreamCreditManager::new(10);
    assert!(!reg.consume("missing", 0));
    reg.add_credits("missing", 5);
    assert_eq!(reg.available_credits("missing"), None);
    assert!(reg.is_stream_exhausted("missing"));
    assert_eq!(reg.total_available_credits(), 0);
}

#[test]
fn registry_register_replaces_pool() {
    let mut reg = MultiStreamCreditManager::new(10);
    reg.register_stream("s".to_string(), Some(4));
    assert!(reg.consume("s", 4));
    assert!(reg.is_stream_exhausted("s"));
    reg.register_stream("s".to_string(), None);
    assert_eq!(reg.available_credits("s"), Some(10));
    assert_eq!(reg.active_streams(), vec!["s".to_string()]);
}

#[test]
fn registry_add_unregister_and_list() {
    let mut reg = MultiStreamCreditManager::new(1);
    reg.register_stream("x".to_string(), Some(0));
    reg.register_stream("y".to_string(), Some(2));
    reg.register_stream("z".to_string(), Some(5));
    reg.add_credits("x", u32::MAX);
    reg.add_credits("x", 9);
    assert_eq!(reg.available_credits("x"), Some(u32::MAX));
    reg.unregister_stream("x");
    reg.unregister_stream("nope");
    assert_eq!(reg.active_streams(), vec!["y".to_string(), "z".to_string()]);
    assert_eq!(reg.total_available_credits(), 7);
    assert!(!reg.is_stream_exhausted("y"));
}

#[test]
fn limiter_scenario() {
    let mut lim = WindowedRateLimiter::new(1000, 3);
    assert!(lim.try_acquire(0));
    assert!(lim.try_acquire(100));
    assert!(lim.try_acquire(200));
    assert!(!lim.try_acquire(300));
    assert!(lim.try_acquire(1001));
}

#[test]
fn limiter_never_exceeds_max_in_window() {
    let window = 50u64;
    let max = 4u32;
    let mut lim = WindowedRateLimiter::new(window, max);
    let mut admitted: Vec<u64> = Vec::new();
    let mut t = 0u64;
    for step in 0..400u64 {
        t += step % 7;
        if lim.try_acquire(t) {
            admitted.push(t);
        }
        let in_window = admitted.iter().filter(|&&a| a + window > t).count();
        assert!(in_window <= max as usize);
    }
    assert!(!admitted.is_empty());
}

#[test]
fn limiter_same_timestamp_and_reset() {
    let mut lim = WindowedRateLimiter::new(1000, 2);
    assert!(lim.try_acquire(5));
    assert!(lim.try_acquire(5));
    assert!(!lim.try_acquire(5));
    assert_eq!(lim.recent_events(5), 2);
    lim.reset();
    assert_eq!(lim.recent_events(5), 0);
    assert!(lim.try_acquire(5));
}

#[test]
fn limiter_recent_events_does_not_prune() {
    let mut lim = WindowedRateLimiter::new(100, 10);
    assert!(lim.try_acquire(10));
    assert!(lim.try_acquire(50));
    assert!(lim.try_acquire(120));
    assert_eq!(lim.recent_events(120), 2);
    assert_eq!(lim.recent_events(500), 0);
    assert_eq!(lim.recent_events(120), 2);
    assert_eq!(lim.recent_events(60), 2);
}

#[test]
fn limiter_zero_max_admits_nothing() {
    let mut lim = WindowedRateLimiter::new(10, 0);
    assert!(!lim.try_acquire(0));
    assert!(!lim.try_acquire(1000));
}

#[test]
fn registry_checked_total() {
    let mut reg = MultiStreamCreditManager::new(u32::MAX);
    assert_eq!(reg.checked_total_credits(), Some(0));
    reg.register_stream("a".to_string(), None);
    assert_eq!(reg.checked_total_credits(), Some(u32::MAX));
    reg.register_stream("b".to_string(), Some(1));
    assert_eq!(reg.checked_total_credits(), None);
    assert!(reg.consume("a", 1));
    assert_eq!(reg.checked_total_credits(), Some(u32::MAX));
}
