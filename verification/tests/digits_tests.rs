use xdp_dispatcher::digits::{parse_dec, usize_to_dec};

#[test]
fn renders_decimal_without_padding() {
    assert_eq!(usize_to_dec(0), "0");
    assert_eq!(usize_to_dec(7), "7");
    assert_eq!(usize_to_dec(10), "10");
    assert_eq!(usize_to_dec(255), "255");
    assert_eq!(usize_to_dec(1234567890), "1234567890");
}

#[test]
fn parses_what_it_renders() {
    for n in [0usize, 1, 9, 10, 99, 100, 255, 4096, usize::MAX] {
        assert_eq!(parse_dec(usize_to_dec(n).as_str()), Some(n));
    }
}

#[test]
fn rejects_non_numerals() {
    assert_eq!(parse_dec(""), None);
    assert_eq!(parse_dec("-1"), None);
    assert_eq!(parse_dec("+1"), None);
    assert_eq!(parse_dec("1 "), None);
    assert_eq!(parse_dec("12a"), None);
    assert_eq!(parse_dec("a12"), None);
}

#[test]
fn rejects_overflow_but_not_leading_zeros() {
    assert_eq!(parse_dec("000000000000000000000042"), Some(42));
    assert_eq!(parse_dec("18446744073709551615"), Some(usize::MAX));
    assert_eq!(parse_dec("18446744073709551616"), None);
    assert_eq!(parse_dec("99999999999999999999999999"), None);
}
