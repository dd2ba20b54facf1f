use dynamo_parsers::decimal::{digits_of, numeral_of, parse_i64};

fn text(chars: Vec<char>) -> String {
    chars.into_iter().collect()
}

fn read(numeral: &str) -> Option<i64> {
    let chars: Vec<char> = numeral.chars().collect();
    parse_i64(&chars)
}

#[test]
fn numerals_have_no_leading_zeros() {
    assert_eq!(text(digits_of(0)), "0");
    assert_eq!(text(digits_of(1070)), "1070");
    assert_eq!(text(digits_of(u64::MAX)), "18446744073709551615");
    assert_eq!(text(numeral_of(-1)), "-1");
    assert_eq!(text(numeral_of(i64::MIN)), "-9223372036854775808");
}

#[test]
fn numerals_read_back() {
    for number in [0, 1, -1, 42, i64::MAX, i64::MIN, i64::MIN + 1] {
        assert_eq!(parse_i64(&numeral_of(number)), Some(number));
    }
}

#[test]
fn only_integers_that_fit_are_read() {
    assert_eq!(read("+5"), Some(5));
    assert_eq!(read("007"), Some(7));
    assert_eq!(read("-0"), Some(0));
    for numeral in ["", "+", "-", "1a", " 1", "1.0", "9223372036854775808", "-9223372036854775809"] {
        assert_eq!(read(numeral), None, "{numeral}");
    }
}
