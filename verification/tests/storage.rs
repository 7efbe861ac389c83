use limiter_core::storage::{format_limit_record, format_record, parse_record, recover_state};
use limiter_core::LimiterError;

fn storage_message(r: Result<limiter_core::BucketRecord, LimiterError>) -> String {
    match r {
        Err(LimiterError::Storage(m)) => m,
        Err(_) => panic!("wrong error kind"),
        Ok(_) => panic!("record was accepted"),
    }
}

#[test]
fn state_roundtrip() {
    let tokens: f64 = 4.000_023_5;
    let secs: u64 = 1_700_000_000;
    let nanos: u32 = 123_456_789;
    let s = format_record(&tokens.to_string(), secs, nanos);
    let restored = parse_record(&s).unwrap();
    let restored_tokens: f64 = restored.tokens.parse().unwrap();
    assert_eq!(restored_tokens, tokens);
    assert_eq!(restored.last_refill_secs, secs);
    assert_eq!(restored.last_refill_nanos, nanos);
}

#[test]
fn record_text_layout() {
    assert_eq!(format_record("42.5", 1_700_000_000, 123_456_789), "42.5:1700000000:123456789");
    assert_eq!(format_record("0", 0, 0), "0:0:0");
    assert_eq!(format_record("inf", u64::MAX, u32::MAX), "inf:18446744073709551615:4294967295");
}

#[test]
fn record_roundtrip_of_extremes() {
    for tokens in ["0", "-0", "1e300", "NaN", "inf", "-inf", "0.1", "5."] {
        for (secs, nanos) in [(0u64, 0u32), (u64::MAX, u32::MAX), (17, 999_999_999)] {
            let r = parse_record(&format_record(tokens, secs, nanos)).unwrap();
            assert_eq!(r.tokens, tokens);
            assert_eq!(r.last_refill_secs, secs);
            assert_eq!(r.last_refill_nanos, nanos);
        }
    }
}

#[test]
fn record_with_wrong_field_count() {
    assert_eq!(storage_message(parse_record("")), "invalid bucket state format");
    assert_eq!(storage_message(parse_record("1.0:2")), "invalid bucket state format");
    assert_eq!(storage_message(parse_record("1.0:2:3:4")), "invalid bucket state format");
    assert_eq!(
        storage_message(parse_record("42.500000:1700000000:123456789:100:10.000000")),
        "invalid bucket state format"
    );
}

#[test]
fn record_with_bad_tokens() {
    assert_eq!(storage_message(parse_record("abc:1:2")), "invalid tokens");
    assert_eq!(storage_message(parse_record(":1:2")), "invalid tokens");
    assert_eq!(storage_message(parse_record(" 1:1:2")), "invalid tokens");
    assert_eq!(storage_message(parse_record("abc:x:y")), "invalid tokens");
}

#[test]
fn record_with_bad_secs() {
    assert_eq!(storage_message(parse_record("1.5:-1:2")), "invalid last_refill_secs");
    assert_eq!(storage_message(parse_record("1.5::2")), "invalid last_refill_secs");
    assert_eq!(
        storage_message(parse_record("1.5:18446744073709551616:2")),
        "invalid last_refill_secs"
    );
    assert_eq!(storage_message(parse_record("1.5:x:y")), "invalid last_refill_secs");
}

#[test]
fn record_with_bad_nanos() {
    assert_eq!(storage_message(parse_record("1.5:1:4294967296")), "invalid last_refill_nanos");
    assert_eq!(storage_message(parse_record("1.5:1:")), "invalid last_refill_nanos");
    assert_eq!(storage_message(parse_record("1.5:1:2.0")), "invalid last_refill_nanos");
}

#[test]
fn record_with_plus_signs_reads() {
    let r = parse_record("+3:+12:+7").unwrap();
    assert_eq!(r.tokens, "+3");
    assert_eq!(r.last_refill_secs, 12);
    assert_eq!(r.last_refill_nanos, 7);
}

#[test]
fn recover_state_from_full_record() {
    let r = recover_state("42.500000:1700000000:123456789:100:10.000000");
    assert_eq!(r.tokens, Some("42.500000".to_string()));
    assert_eq!(r.last_refill_secs, 1_700_000_000);
    assert_eq!(r.last_refill_nanos, 123_456_789);
}

#[test]
fn recover_state_with_defaults() {
    let r = recover_state("oops:nope:-3");
    assert_eq!(r.tokens, None);
    assert_eq!(r.last_refill_secs, 0);
    assert_eq!(r.last_refill_nanos, 0);
    let short = recover_state("7:8");
    assert_eq!(short.tokens, None);
    assert_eq!(short.last_refill_secs, 0);
    assert_eq!(short.last_refill_nanos, 0);
}

#[test]
fn limit_record_layout() {
    assert_eq!(format_limit_record("9.5", 12, 34, 100, "2.5"), "9.5:12:34:100:2.5");
}
