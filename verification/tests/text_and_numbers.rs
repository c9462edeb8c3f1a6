use kv_store::decimal_text::{parse_u32, parse_u64, u64_to_string};
use kv_store::text::{split_field, starts_with};

#[test]
fn decimal_writing_of_numbers() {
    assert_eq!(u64_to_string(0), "0");
    assert_eq!(u64_to_string(7), "7");
    assert_eq!(u64_to_string(10), "10");
    assert_eq!(u64_to_string(12345), "12345");
    assert_eq!(u64_to_string(u64::MAX), "18446744073709551615");
}

#[test]
fn parsing_unsigned_numbers() {
    assert_eq!(parse_u64("42"), Some(42));
    assert_eq!(parse_u64("+7"), Some(7));
    assert_eq!(parse_u64("007"), Some(7));
    assert_eq!(parse_u64("18446744073709551615"), Some(u64::MAX));
    assert_eq!(parse_u64("18446744073709551616"), None);
    assert_eq!(parse_u64(""), None);
    assert_eq!(parse_u64("+"), None);
    assert_eq!(parse_u64("-1"), None);
    assert_eq!(parse_u64(" 1"), None);
    assert_eq!(parse_u64("1a"), None);
    assert_eq!(parse_u32("4294967295"), Some(u32::MAX));
    assert_eq!(parse_u32("4294967296"), None);
    assert_eq!(parse_u32("2"), Some(2));
}

#[test]
fn parsing_agrees_with_std() {
    for s in ["0", "+0", "12", "+", "", "x", "99999999999999999999", "4294967296", "٣", "1_000"] {
        assert_eq!(parse_u64(s), s.parse::<u64>().ok(), "text {:?}", s);
        assert_eq!(parse_u32(s), s.parse::<u32>().ok(), "text {:?}", s);
    }
}

#[test]
fn printing_then_parsing_gives_the_number_back() {
    for n in [0u64, 1, 9, 10, 99, 100, 4096, 1 << 40, u64::MAX - 1, u64::MAX] {
        assert_eq!(parse_u64(&u64_to_string(n)), Some(n));
    }
}

#[test]
fn prefixes() {
    assert!(starts_with("kv-store-0", "kv-store"));
    assert!(starts_with("net", "net"));
    assert!(starts_with("anything", ""));
    assert!(!starts_with("ne", "net"));
    assert!(!starts_with("kv-stor", "kv-store"));
    assert!(!starts_with("xnet", "net"));
}

#[test]
fn fields_split_like_str_split() {
    let cases = ["kv-store-2", "net", "", "-", "a--b", "a-b-c-d", "ünï-cödé-3"];
    for s in cases {
        let parts: Vec<&str> = s.split('-').collect();
        for i in 0..6 {
            assert_eq!(split_field(s, '-', i), parts.get(i).map(|p| p.to_string()), "{:?} {}", s, i);
        }
    }
}
