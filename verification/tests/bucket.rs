use limiter_core::{check_bucket_config, plan_consume, LimiterError};

fn config_message<T>(r: Result<T, LimiterError>) -> String {
    match r {
        Err(LimiterError::InvalidConfig(m)) => m,
        _ => panic!("expected an invalid configuration"),
    }
}

#[test]
fn config_checks_capacity_first() {
    assert_eq!(config_message(check_bucket_config(0, false)), "capacity must be > 0");
    assert_eq!(config_message(check_bucket_config(0, true)), "capacity must be > 0");
}

#[test]
fn config_checks_rate() {
    assert_eq!(config_message(check_bucket_config(10, true)), "refill_rate must be > 0");
    assert!(check_bucket_config(10, false).is_ok());
    assert!(check_bucket_config(1, false).is_ok());
}

#[test]
fn config_with_float_rates() {
    for (rate, ok) in [(1.0f64, true), (0.0, false), (-2.5, false), (f64::NAN, true), (1e-9, true)] {
        assert_eq!(check_bucket_config(5, rate <= 0.0).is_ok(), ok);
    }
}

#[test]
fn nothing_requested_is_granted_at_once() {
    assert_eq!(plan_consume(0, 10).ok(), Some(None));
    assert_eq!(plan_consume(0, 0).ok(), Some(None));
}

#[test]
fn more_than_capacity_is_refused() {
    assert_eq!(config_message(plan_consume(11, 10)), "requested tokens exceed capacity");
    assert_eq!(config_message(plan_consume(u64::MAX, 1)), "requested tokens exceed capacity");
}

#[test]
fn within_capacity_goes_to_the_bucket() {
    assert_eq!(plan_consume(1, 10).ok(), Some(Some(1)));
    assert_eq!(plan_consume(10, 10).ok(), Some(Some(10)));
}
