use paper_ecash::utils::encoding::{format_amount_msat, format_nonce, format_number, truncate_string};

#[test]
fn test_truncate_string() {
    assert_eq!(truncate_string("hello", 10), "hello");
    assert_eq!(truncate_string("hello world", 8), "he...ld");
    assert_eq!(truncate_string("abcdefghij", 7), "ab...ij");
}

#[test]
fn test_format_amount() {
    assert_eq!(format_amount_msat(500), "500 msat");
    assert_eq!(format_amount_msat(1000), "1 sats");
    assert_eq!(format_amount_msat(100000), "100 sats");
    assert_eq!(format_amount_msat(1000000), "1,000 sats");
    assert_eq!(format_amount_msat(100000000000), "1.00000000 BTC");
}

#[test]
fn test_format_number() {
    assert_eq!(format_number(123), "123");
    assert_eq!(format_number(1234), "1,234");
    assert_eq!(format_number(1234567), "1,234,567");
}

#[test]
fn truncate_short_limits_keep_a_prefix() {
    assert_eq!(truncate_string("abcdefgh", 4), "abcd");
    assert_eq!(truncate_string("abcdefgh", 0), "");
    assert_eq!(truncate_string("abcdefgh", 5), "a...h");
    assert_eq!(truncate_string("", 3), "");
}

#[test]
fn format_nonce_keeps_six_bytes_at_each_end() {
    let nonce = "0279be667ef9dcbbac55a06295ce870b";
    assert_eq!(format_nonce(nonce), "0279be...ce870b");
    assert_eq!(format_nonce("0279be667ef9dcbb"), "0279be667ef9dcbb");
}

#[test]
fn amount_boundaries() {
    assert_eq!(format_amount_msat(0), "0 msat");
    assert_eq!(format_amount_msat(999), "999 msat");
    assert_eq!(format_amount_msat(1999), "1 sats");
    assert_eq!(format_amount_msat(999_999), "999 sats");
    assert_eq!(format_amount_msat(999_999_999), "999,999 sats");
    assert_eq!(format_amount_msat(1_000_000_000), "0.01000000 BTC");
    assert_eq!(format_amount_msat(123_456_789_012), "1.23456789 BTC");
    assert_eq!(format_amount_msat(99_999_999_999_600), "1000.00000000 BTC");
}

#[test]
fn number_grouping() {
    assert_eq!(format_number(0), "0");
    assert_eq!(format_number(100), "100");
    assert_eq!(format_number(1000), "1,000");
    assert_eq!(format_number(18446744073709551615), "18,446,744,073,709,551,615");
}

#[test]
fn btc_amounts_round_as_f64_division_does() {
    assert_eq!(format_amount_msat(1_234_567_890_500), "12.34567890 BTC");
    assert_eq!(format_amount_msat(1_000_000_001_500), "10.00000001 BTC");
    // 9/512 BTC is exact in binary; its ninth decimal is a tie.
    assert_eq!(format_amount_msat(1_757_812_500), "0.01757812 BTC");
}

#[test]
fn btc_amounts_match_f64_formatting() {
    let mut values: Vec<u64> = vec![
        1_000_000_000,
        1_234_567_890_500,
        1_000_000_001_500,
        1_757_812_500,
        100_195_312_500,
        300_195_312_500,
        99_999_999_999_600,
        123_456_789_012,
        1 << 53,
        (1 << 53) + 1,
        (1 << 53) + 3,
        (1 << 54) + 2,
        (1 << 54) + 6,
        (1 << 63) + 1023,
        (1 << 63) + 1024,
        (1 << 63) + 3072,
        u64::MAX - 1,
        u64::MAX,
    ];
    // Exact binary fractions of a bitcoin, whose ninth decimal is a tie.
    for j in 1..2000u64 {
        values.push(100_000_000_000 * j / 512 + 100_000_000_000 * (j % 7));
    }
    let mut s: u64 = 0x9E37_79B9_7F4A_7C15;
    for _ in 0..50_000 {
        s = s.wrapping_mul(6_364_136_223_846_793_005).wrapping_add(1_442_695_040_888_963_407);
        let v = s >> (s % 34);
        if v >= 1_000_000_000 {
            values.push(v);
        }
    }
    for v in values {
        if v < 1_000_000_000 {
            continue;
        }
        let expected = format!("{:.8} BTC", v as f64 / 1e11);
        assert_eq!(format_amount_msat(v), expected, "msat = {}", v);
    }
}
