use limiter_core::service::{capacity_setting, redis_key, tokens_to_consume, DEFAULT_CAPACITY};
use limiter_core::LimiterError;

#[test]
fn storage_keys_are_prefixed() {
    assert_eq!(redis_key("user:123"), "limiter:user:123");
    assert_eq!(redis_key(""), "limiter:");
}

#[test]
fn at_least_one_token_is_taken() {
    assert_eq!(tokens_to_consume(0), 1);
    assert_eq!(tokens_to_consume(1), 1);
    assert_eq!(tokens_to_consume(7), 7);
    assert_eq!(tokens_to_consume(u32::MAX), u32::MAX);
}

#[test]
fn capacity_setting_falls_back() {
    assert_eq!(DEFAULT_CAPACITY, 100);
    assert_eq!(capacity_setting(None), 100);
    assert_eq!(capacity_setting(Some("250")), 250);
    assert_eq!(capacity_setting(Some("lots")), 100);
    assert_eq!(capacity_setting(Some("-5")), 100);
    assert_eq!(capacity_setting(Some("18446744073709551616")), 100);
}

#[test]
fn error_messages() {
    assert_eq!(LimiterError::InvalidConfig("capacity must be > 0".to_string()).message(),
        "invalid config: capacity must be > 0");
    assert_eq!(LimiterError::Storage("invalid tokens".to_string()).message(), "storage error: invalid tokens");
    assert_eq!(LimiterError::RateLimited.message(), "rate limited");
}

#[test]
fn allow_script_replies() {
    let granted = limiter_core::service::allow_outcome(1);
    assert!(granted.allowed);
    assert_eq!(granted.message, "");
    for reply in [0, -1, 2] {
        let refused = limiter_core::service::allow_outcome(reply);
        assert!(!refused.allowed);
        assert_eq!(refused.message, "rate limited");
    }
}
