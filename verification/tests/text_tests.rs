use downmanager::text::{decimal_text, parse_i32_text};

#[test]
fn decimal_texts() {
    for n in [0u64, 7, 10, 99, 100, 1234567890, u64::MAX] {
        assert_eq!(decimal_text(n), n.to_string());
    }
}

#[test]
fn i32_parse_matches_std() {
    for s in [
        "0", "42", "+42", "-42", "-", "+", "", "2147483647", "2147483648", "-2147483648",
        "-2147483649", "007", "1a", " 1", "+-1", "-+1", "99999999999999999999",
    ] {
        assert_eq!(parse_i32_text(s), s.parse::<i32>().ok(), "{:?}", s);
    }
}
