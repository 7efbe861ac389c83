use limiter_core::text::{decimal_string, is_float_text, parse_u32, parse_u64, split_fields};

#[test]
fn decimal_strings() {
    for n in [0u64, 1, 9, 10, 99, 100, 12345, 1_700_000_000, u64::MAX] {
        assert_eq!(decimal_string(n), n.to_string());
    }
}

#[test]
fn unsigned_parsing_agrees_with_std() {
    let inputs = [
        "", "+", "-", "0", "+0", "-0", "00017", "42", " 42", "42 ", "4x2", "18446744073709551615",
        "18446744073709551616", "99999999999999999999999", "4294967295", "4294967296", "++1", "+-1",
        "١",
    ];
    for s in inputs {
        assert_eq!(parse_u64(s), s.parse::<u64>().ok(), "u64 {:?}", s);
        assert_eq!(parse_u32(s), s.parse::<u32>().ok(), "u32 {:?}", s);
    }
}

#[test]
fn float_syntax_agrees_with_std() {
    let inputs = [
        "", "0", "-0", "+0", "1.", ".5", ".", "-.", "1.5", "1.5.2", "1e5", "1E5", "1e+5", "1e-5",
        "1e", "e5", ".e5", "1.e5", ".5e-3", "inf", "-inf", "+INF", "Infinity", "-infinity",
        "infinit", "nan", "NaN", "-NAN", "nan1", " 1", "1 ", "0x10", "1_000", "1e5e5", "--1",
        "+-1", "42.500000", "1e1000", "１",
    ];
    for s in inputs {
        assert_eq!(is_float_text(s), s.parse::<f64>().is_ok(), "{:?}", s);
    }
    for x in [0.0f64, -0.0, 1.5, 1e300, 1e-300, f64::MAX, f64::MIN_POSITIVE, f64::INFINITY,
        f64::NEG_INFINITY, f64::NAN, 4.000_023_5]
    {
        assert!(is_float_text(&x.to_string()));
    }
}

#[test]
fn splitting_agrees_with_std() {
    for s in ["", ":", "a", "a:b", "a::b", ":a:", "1.5:2:3", "é:ü:ß"] {
        let expected: Vec<String> = s.split(':').map(|p| p.to_string()).collect();
        assert_eq!(split_fields(s, ':'), expected, "{:?}", s);
    }
}
