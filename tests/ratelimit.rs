use afire::{client_key, RateLimiter, Response};

fn assert_rejection(r: &Response) {
    assert_eq!(r.status, 429);
    assert_eq!(r.reason, "Too Many Requests");
    assert_eq!(r.headers.len(), 1);
    assert_eq!(r.headers[0].name(), "Content-Type");
    assert_eq!(r.headers[0].value(), "text/plain");
}

#[test]
fn first_limit_requests_pass_then_refused() {
    let mut l = RateLimiter::new(3, 10);
    l.check_reset(100);
    assert!(l.allow(101, "1.2.3.4".to_string()));
    assert!(l.allow(102, "1.2.3.4".to_string()));
    assert!(l.allow(103, "1.2.3.4".to_string()));
    assert!(!l.allow(104, "1.2.3.4".to_string()));
    assert!(!l.allow(109, "1.2.3.4".to_string()));
}

#[test]
fn refused_client_passes_after_window() {
    let mut l = RateLimiter::new(1, 10);
    assert!(l.allow(100, "c".to_string()));
    assert!(!l.allow(105, "c".to_string()));
    assert!(l.allow(110, "c".to_string()));
    assert!(!l.allow(111, "c".to_string()));
}

#[test]
fn boundary_time_starts_new_window() {
    let mut l = RateLimiter::new(2, 5);
    l.check_reset(20);
    l.add_request("k".to_string());
    l.add_request("k".to_string());
    assert!(l.is_over_limit("k".to_string()));
    l.check_reset(24);
    assert!(l.is_over_limit("k".to_string()));
    l.check_reset(25);
    assert!(!l.is_over_limit("k".to_string()));
}

#[test]
fn clients_are_counted_apart() {
    let mut l = RateLimiter::new(1, 60);
    assert!(l.allow(100, "a".to_string()));
    assert!(!l.allow(100, "a".to_string()));
    assert!(l.allow(100, "b".to_string()));
    assert!(!l.allow(100, "b".to_string()));
    assert!(l.is_over_limit("a".to_string()));
    assert!(!l.is_over_limit("c".to_string()));
}

#[test]
fn many_requests_pass_exactly_limit() {
    let mut l = RateLimiter::new(5, 60);
    let mut passed = 0;
    let mut refused = 0;
    for _ in 0..12 {
        if l.allow(1000, "10.0.0.1".to_string()) {
            passed += 1;
        } else {
            refused += 1;
        }
    }
    assert_eq!(passed, 5);
    assert_eq!(refused, 7);
}

#[test]
fn zero_limit_refuses_everything() {
    let mut l = RateLimiter::new(0, 60);
    assert!(l.is_over_limit("x".to_string()));
    assert!(!l.allow(1, "x".to_string()));
    assert!(!l.allow(100, "x".to_string()));
}

#[test]
fn zero_window_resets_on_every_check() {
    let mut l = RateLimiter::new(1, 0);
    assert!(l.allow(7, "x".to_string()));
    assert!(l.allow(7, "x".to_string()));
    assert!(l.allow(8, "x".to_string()));
}

#[test]
fn add_request_counts_up() {
    let mut l = RateLimiter::new(2, 60);
    assert!(!l.is_over_limit("x".to_string()));
    l.add_request("x".to_string());
    assert!(!l.is_over_limit("x".to_string()));
    l.add_request("x".to_string());
    assert!(l.is_over_limit("x".to_string()));
}

#[test]
fn key_is_host_without_port() {
    assert_eq!(client_key(Some("127.0.0.1:8080")), "127.0.0.1");
    assert_eq!(client_key(Some("localhost")), "localhost");
}

#[test]
fn key_falls_back_for_missing_host() {
    assert_eq!(client_key(None), "null");
    assert_eq!(client_key(Some("")), "null");
    assert_eq!(client_key(Some(":8080")), "null");
}

#[test]
fn fallback_key_shares_one_limit() {
    let mut l = RateLimiter::new(2, 60);
    assert!(l.handle_request(5, None).is_none());
    assert!(l.handle_request(5, Some(":1234")).is_none());
    let r = l.handle_request(5, Some("")).unwrap();
    assert_rejection(&r);
    assert!(l.is_over_limit("null".to_string()));
    assert!(l.handle_request(5, Some("10.0.0.2:1")).is_none());
}

#[test]
fn same_host_other_port_shares_count() {
    let mut l = RateLimiter::new(1, 60);
    assert!(l.handle_request(5, Some("10.0.0.1:1000")).is_none());
    let r = l.handle_request(6, Some("10.0.0.1:2000")).unwrap();
    assert_rejection(&r);
}

#[test]
fn rejection_response_fields() {
    let r = Response::too_many_requests();
    assert_rejection(&r);
    assert_eq!(r.body, "Too Many Requests");
}
