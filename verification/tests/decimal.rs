use codecrafters_redis::decimal::{parse_i64, push_decimal, push_digits};

fn written(v: i64) -> Vec<u8> {
    let mut out = Vec::new();
    push_decimal(&mut out, v);
    out
}

#[test]
fn digits_are_read() {
    assert_eq!(parse_i64(b"0"), Some(0));
    assert_eq!(parse_i64(b"7"), Some(7));
    assert_eq!(parse_i64(b"120"), Some(120));
    assert_eq!(parse_i64(b"0042"), Some(42));
    assert_eq!(parse_i64(b"00000000000000000000000000000001"), Some(1));
}

#[test]
fn sign_is_read() {
    assert_eq!(parse_i64(b"-1"), Some(-1));
    assert_eq!(parse_i64(b"+1"), Some(1));
    assert_eq!(parse_i64(b"-0"), Some(0));
    assert_eq!(parse_i64(b"+0"), Some(0));
    assert_eq!(parse_i64(b"-0012"), Some(-12));
}

#[test]
fn limits_are_read() {
    assert_eq!(parse_i64(b"9223372036854775807"), Some(i64::MAX));
    assert_eq!(parse_i64(b"+9223372036854775807"), Some(i64::MAX));
    assert_eq!(parse_i64(b"-9223372036854775808"), Some(i64::MIN));
    assert_eq!(parse_i64(b"-9223372036854775807"), Some(i64::MIN + 1));
}

#[test]
fn what_does_not_fit_is_not_read() {
    assert_eq!(parse_i64(b"9223372036854775808"), None);
    assert_eq!(parse_i64(b"-9223372036854775809"), None);
    assert_eq!(parse_i64(b"10000000000000000000"), None);
    assert_eq!(parse_i64(b"92233720368547758070"), None);
    assert_eq!(parse_i64(b"99999999999999999999999999999999999999999"), None);
    assert_eq!(parse_i64(b"-99999999999999999999999999999999999999999"), None);
}

#[test]
fn what_is_no_number_is_not_read() {
    assert_eq!(parse_i64(b""), None);
    assert_eq!(parse_i64(b"-"), None);
    assert_eq!(parse_i64(b"+"), None);
    assert_eq!(parse_i64(b"+-1"), None);
    assert_eq!(parse_i64(b"1-"), None);
    assert_eq!(parse_i64(b" 1"), None);
    assert_eq!(parse_i64(b"1 "), None);
    assert_eq!(parse_i64(b"1_000"), None);
    assert_eq!(parse_i64(b"0x10"), None);
    assert_eq!(parse_i64(b"12a"), None);
    assert_eq!(parse_i64(b"1.0"), None);
    assert_eq!(parse_i64(b"/"), None);
    assert_eq!(parse_i64(b":"), None);
    assert_eq!(parse_i64(&[0xd9, 0xa1]), None);
    assert_eq!(parse_i64(b"99999999999999999999x"), None);
}

#[test]
fn reading_agrees_with_the_standard_library() {
    let texts: [&str; 14] = [
        "0", "-0", "+5", "005", "-", "+", "", "12x", "9223372036854775807",
        "9223372036854775808", "-9223372036854775808", "-9223372036854775809", "++1", "1e3",
    ];
    for text in texts {
        assert_eq!(parse_i64(text.as_bytes()), text.parse::<i64>().ok(), "{:?}", text);
    }
}

#[test]
fn numbers_are_written() {
    assert_eq!(written(0), b"0");
    assert_eq!(written(9), b"9");
    assert_eq!(written(10), b"10");
    assert_eq!(written(1234567890), b"1234567890");
    assert_eq!(written(-1), b"-1");
    assert_eq!(written(-10), b"-10");
    assert_eq!(written(i64::MAX), b"9223372036854775807");
    assert_eq!(written(i64::MIN), b"-9223372036854775808");
}

#[test]
fn digits_are_appended() {
    let mut out = b"n=".to_vec();
    push_digits(&mut out, 0);
    push_digits(&mut out, 405);
    push_digits(&mut out, u64::MAX);
    assert_eq!(out, b"n=040518446744073709551615");
}

#[test]
fn written_numbers_are_read_back() {
    let samples: [i64; 9] = [0, 1, -1, 9, 10, -100, 4096, i64::MAX, i64::MIN];
    for v in samples {
        assert_eq!(parse_i64(&written(v)), Some(v));
        assert_eq!(written(v), v.to_string().into_bytes());
    }
}
