use tayb::rate::RateLimiter;

#[test]
fn fresh_user_allowed_then_denied() {
    let mut limiter = RateLimiter::new(3000);
    assert!(limiter.allow("a", 0));
    assert!(!limiter.allow("a", 0));
}

#[test]
fn denied_until_cooldown_elapses() {
    let mut limiter = RateLimiter::new(3000);
    assert!(limiter.allow("a", 1000));
    assert!(!limiter.allow("a", 2500));
    assert!(!limiter.allow("a", 3999));
    assert!(limiter.allow("a", 4000));
    assert!(!limiter.allow("a", 4001));
}

#[test]
fn users_are_independent() {
    let mut limiter = RateLimiter::new(3000);
    assert!(limiter.allow("a", 0));
    assert!(limiter.allow("b", 0));
    assert!(!limiter.allow("a", 10));
    assert!(!limiter.allow("b", 10));
    assert!(limiter.allow("c", 10));
}

#[test]
fn denied_call_leaves_state_alone() {
    let mut limiter = RateLimiter::new(1000);
    assert!(limiter.allow("a", 500));
    assert!(!limiter.allow("a", 1000));
    // the denied call at 1000 must not have refreshed the window
    assert!(limiter.allow("a", 1500));
}
