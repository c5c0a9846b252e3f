use m0_core::rate_limit::client_key;
use m0_core::rate_limit::RateLimiter;

#[test]
fn four_requests_in_one_second_reject_the_fourth() {
    let mut limiter = RateLimiter::new(3);
    assert!(limiter.allow("A", 0));
    assert!(limiter.allow("A", 300));
    assert!(limiter.allow("A", 700));
    assert!(!limiter.allow("A", 1000));
}

#[test]
fn rejection_is_sticky_for_the_rest_of_the_window() {
    let mut limiter = RateLimiter::new(2);
    assert!(limiter.allow("k", 0));
    assert!(limiter.allow("k", 1));
    assert!(!limiter.allow("k", 2));
    assert!(!limiter.allow("k", 30_000));
    assert!(!limiter.allow("k", 60_000));
}

#[test]
fn window_rollover_allows_again() {
    let mut limiter = RateLimiter::new(1);
    assert!(limiter.allow("k", 0));
    assert!(!limiter.allow("k", 10));
    assert!(limiter.allow("k", 60_001));
    assert!(!limiter.allow("k", 60_002));
}

#[test]
fn limit_zero_is_a_bypass() {
    let mut limiter = RateLimiter::new(0);
    for t in 0..100u64 {
        assert!(limiter.allow("k", t));
    }
}

#[test]
fn keys_do_not_contend() {
    let mut limiter = RateLimiter::new(1);
    assert!(limiter.allow("a", 0));
    assert!(limiter.allow("b", 1));
    assert!(!limiter.allow("a", 2));
    assert!(!limiter.allow("b", 3));
}

#[test]
fn client_key_takes_first_forwarded_hop() {
    assert_eq!(client_key(Some("1.2.3.4, 5.6.7.8")), "1.2.3.4");
    assert_eq!(client_key(Some(" 10.0.0.1 ,x")), "10.0.0.1");
    assert_eq!(client_key(Some("a.b.c.d")), "a.b.c.d");
    assert_eq!(client_key(Some("")), "");
    assert_eq!(client_key(None), "local");
}
