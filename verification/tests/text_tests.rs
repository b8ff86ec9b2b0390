use evm_deployment_info::text::{format_u64, from_chars, parse_u64, text_eq, text_less, to_chars};

#[test]
fn chars_round_trip() {
    let chars = to_chars("añ-✓");
    assert_eq!(chars, vec!['a', 'ñ', '-', '✓']);
    assert_eq!(from_chars(&chars), "añ-✓");
}

#[test]
fn text_eq_compares_characters() {
    assert!(text_eq("hardhat", "hardhat"));
    assert!(!text_eq("hardhat", "Hardhat"));
    assert!(!text_eq("hardhat", "hardhat "));
    assert!(text_eq("", ""));
}

#[test]
fn text_less_is_the_order_of_str() {
    let words = ["", "a", "ab", "b", "B", "Mainnet", "mainnet", "é", "z", "10", "9"];
    for a in words {
        for b in words {
            assert_eq!(text_less(a, b), a < b, "{:?} < {:?}", a, b);
        }
    }
}

#[test]
fn parse_u64_reads_digits() {
    assert_eq!(parse_u64("0"), Some(0));
    assert_eq!(parse_u64("137"), Some(137));
    assert_eq!(parse_u64("007"), Some(7));
    assert_eq!(parse_u64("+5"), Some(5));
    assert_eq!(parse_u64("18446744073709551615"), Some(u64::MAX));
}

#[test]
fn parse_u64_refuses_what_is_no_number() {
    assert_eq!(parse_u64(""), None);
    assert_eq!(parse_u64("+"), None);
    assert_eq!(parse_u64("-1"), None);
    assert_eq!(parse_u64("++1"), None);
    assert_eq!(parse_u64("1 "), None);
    assert_eq!(parse_u64("12a"), None);
    assert_eq!(parse_u64("٣"), None);
    assert_eq!(parse_u64("18446744073709551616"), None);
    assert_eq!(parse_u64("99999999999999999999999"), None);
}

#[test]
fn parse_u64_agrees_with_the_standard_library() {
    for text in ["1", "+1", "-0", "0", "00", "+0", "+", "1_0", "18446744073709551615", "18446744073709551616", "1844674407370955161x"] {
        assert_eq!(parse_u64(text), text.parse::<u64>().ok(), "{:?}", text);
    }
}

#[test]
fn format_u64_writes_base_ten() {
    assert_eq!(format_u64(0), "0");
    assert_eq!(format_u64(9), "9");
    assert_eq!(format_u64(10), "10");
    assert_eq!(format_u64(80002), "80002");
    assert_eq!(format_u64(u64::MAX), "18446744073709551615");
}

#[test]
fn format_then_parse_gives_the_number_back() {
    for n in [0u64, 1, 9, 10, 137, 80002, 11155111, u64::MAX] {
        assert_eq!(parse_u64(&format_u64(n)), Some(n));
    }
}
