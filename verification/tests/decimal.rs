use bitrate_tree::decimal::{decimal_string, parse_u32};

#[test]
fn decimal_string_writes_every_digit() {
    assert_eq!(decimal_string(0), "0");
    assert_eq!(decimal_string(7), "7");
    assert_eq!(decimal_string(10), "10");
    assert_eq!(decimal_string(1234567890), "1234567890");
    assert_eq!(decimal_string(u32::MAX), "4294967295");
    for n in [1u32, 9, 11, 99, 100, 101, 999, 1000, 65535, 65536, 4000000000] {
        assert_eq!(decimal_string(n), n.to_string());
    }
}

#[test]
fn parse_u32_reads_plain_numbers() {
    assert_eq!(parse_u32("0"), Some(0));
    assert_eq!(parse_u32("1234"), Some(1234));
    assert_eq!(parse_u32("+5"), Some(5));
    assert_eq!(parse_u32("007"), Some(7));
    assert_eq!(parse_u32("4294967295"), Some(u32::MAX));
    assert_eq!(parse_u32("000000000000000000004294967295"), Some(u32::MAX));
}

#[test]
fn parse_u32_refuses_everything_else() {
    for bad in ["", "+", "-", "-5", "-0", "++1", "4294967296", "99999999999", "12a", "a12", " 12", "12 ", "1_000", "1.5", "0x1f", "\u{ff11}\u{ff12}", "12\r", "١٢"] {
        assert_eq!(parse_u32(bad), None, "{:?}", bad);
    }
}

#[test]
fn parse_u32_agrees_with_str_parse() {
    let inputs = [
        "", "+", "-", "0", "+0", "-0", "1", "+1", "-1", "42", "4294967294", "4294967295", "4294967296", "4294967300",
        "42949672950", "00", "0000000000000", "+0000000000001", "1+", "+-1", "12 34", "\t1", "1\n", "9999999999",
        "18446744073709551616", "3000000000", "\u{e9}", "5\u{e9}", "٣",
    ];
    for input in inputs {
        assert_eq!(parse_u32(input), input.parse::<u32>().ok(), "{:?}", input);
    }
}

#[test]
fn parse_reads_back_what_decimal_string_writes() {
    for n in [0u32, 1, 9, 10, 255, 1000, 123456789, u32::MAX - 1, u32::MAX] {
        assert_eq!(parse_u32(&decimal_string(n)), Some(n));
    }
}

#[test]
fn parse_u32_agrees_with_str_parse_on_mixed_texts() {
    let parts = ["+", "-", "0", "1", "4", "9", "42949", "67295", "67296", " ", "a", "\u{663}", ""];
    let mut seed = 7u64;
    for _ in 0..3000 {
        let mut text = String::new();
        seed = seed.wrapping_mul(6364136223846793005).wrapping_add(1442695040888963407);
        let n = (seed >> 33) as usize % 5;
        for _ in 0..n {
            seed = seed.wrapping_mul(6364136223846793005).wrapping_add(1442695040888963407);
            text.push_str(parts[(seed >> 33) as usize % parts.len()]);
        }
        assert_eq!(parse_u32(&text), text.parse::<u32>().ok(), "{:?}", text);
    }
}
