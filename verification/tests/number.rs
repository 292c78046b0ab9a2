use windows_entities::number::parse_i32;

#[test]
fn parse_reads_plain_and_signed_numbers() {
    assert_eq!(parse_i32("0"), Some(0));
    assert_eq!(parse_i32("4096"), Some(4096));
    assert_eq!(parse_i32("+17"), Some(17));
    assert_eq!(parse_i32("-17"), Some(-17));
    assert_eq!(parse_i32("-0"), Some(0));
    assert_eq!(parse_i32("007"), Some(7));
}

#[test]
fn parse_keeps_to_thirty_two_bits() {
    assert_eq!(parse_i32("2147483647"), Some(2147483647));
    assert_eq!(parse_i32("2147483648"), None);
    assert_eq!(parse_i32("-2147483648"), Some(-2147483648));
    assert_eq!(parse_i32("-2147483649"), None);
    assert_eq!(parse_i32("99999999999999999999999999"), None);
    assert_eq!(parse_i32("00000000000000000000000012"), Some(12));
}

#[test]
fn parse_refuses_what_is_no_number() {
    assert_eq!(parse_i32(""), None);
    assert_eq!(parse_i32("+"), None);
    assert_eq!(parse_i32("-"), None);
    assert_eq!(parse_i32("12a"), None);
    assert_eq!(parse_i32(" 12"), None);
    assert_eq!(parse_i32("1 2"), None);
    assert_eq!(parse_i32("1_000"), None);
    assert_eq!(parse_i32("--1"), None);
    assert_eq!(parse_i32("٣"), None);
    assert_eq!(parse_i32("99999999999999999999x"), None);
}

#[test]
fn parse_agrees_with_the_standard_parser() {
    let samples = [
        "", "0", "-", "+", "+0", "-1", "12", "0012", "2147483647", "2147483648", "-2147483648",
        "-2147483649", "4294967296", "1e3", "1.0", "abc", "12 ", "+-1", "１２",
    ];
    for sample in samples {
        assert_eq!(parse_i32(sample), sample.parse::<i32>().ok(), "{:?}", sample);
    }
}
