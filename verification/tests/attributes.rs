use dynamo_parsers::attributes::{attr_value, escape_attr, parse_attrs, unescape_attr};

fn chars(text: &str) -> Vec<char> {
    text.chars().collect()
}

fn unescaped(text: &str) -> String {
    unescape_attr(&chars(text)).into_iter().collect()
}

fn attrs(text: &str) -> Option<Vec<(String, String)>> {
    parse_attrs(&chars(text))
}

fn pair(name: &str, value: &str) -> (String, String) {
    (name.to_string(), value.to_string())
}

#[test]
fn quotes_and_ampersands_are_escaped() {
    assert_eq!(escape_attr("a\"b&c<d"), "a&quot;b&amp;c<d");
    assert_eq!(escape_attr("&quot;"), "&amp;quot;");
}

#[test]
fn reading_gives_back_what_was_written() {
    for value in ["", "plain", "\"", "&", "&quot;", "&amp;", "&amp;quot;", "a&\"b\"&&", "ñ&😀"] {
        assert_eq!(unescaped(&escape_attr(value)), value);
    }
}

#[test]
fn attributes_are_read_in_order() {
    assert_eq!(
        attrs(" tool=\"a\"  index=\"1\"\n"),
        Some(vec![pair("tool", "a"), pair("index", "1")])
    );
    assert_eq!(attrs(""), Some(vec![]));
    assert_eq!(attrs("a_1=\"x\"b=\"y\""), Some(vec![pair("a_1", "x"), pair("b", "y")]));
}

#[test]
fn names_may_hold_letters_and_numerals_of_any_script() {
    assert_eq!(attrs("größe٣=\"x\""), Some(vec![pair("größe٣", "x")]));
    assert_eq!(attrs("a-b=\"x\""), None);
    assert_eq!(attrs("€=\"x\""), None);
}

#[test]
fn letters_and_numerals_of_ascii() {
    for code in 0..0x80u32 {
        let ch = char::from_u32(code).unwrap();
        if ch.is_ascii_whitespace() || ch == '\u{b}' {
            continue;
        }
        let expected = ch.is_ascii_alphanumeric() || ch == '_';
        assert_eq!(attrs(&format!("{ch}=\"x\"")).is_some(), expected, "{ch:?}");
    }
}

#[test]
fn what_is_no_attribute_is_refused() {
    for text in ["a", "a=", "a=x", "a=\"x", "=\"x\"", "a =\"x\"", "a=\"x\" b"] {
        assert_eq!(attrs(text), None, "{text}");
    }
}

#[test]
fn the_first_attribute_with_a_name_counts() {
    let list = attrs("a=\"1\" b=\"2\" a=\"3\"").unwrap();
    assert_eq!(attr_value(&list, "a"), Some("1"));
    assert_eq!(attr_value(&list, "b"), Some("2"));
    assert_eq!(attr_value(&list, "c"), None);
}

#[test]
fn white_space_is_in_no_name() {
    let mut seen: usize = 0;
    for ch in ('\0'..=char::MAX).filter(|ch| ch.is_whitespace()) {
        assert_eq!(attrs(&format!("a{ch}b=\"x\"")), None, "{ch:?}");
        assert_eq!(attrs(&format!("{ch}a=\"x\"")), Some(vec![pair("a", "x")]), "{ch:?}");
        seen += 1;
    }
    assert_eq!(seen, 25);
}

#[test]
fn a_list_of_attributes_is_read_back() {
    let list = vec![
        pair("tool", "a\"&b"),
        pair("größe", ""),
        pair("tool", "<|sep|>"),
        pair("_", "&quot;"),
    ];
    let text: String =
        list.iter().map(|(name, value)| format!(" {name}=\"{}\"", escape_attr(value))).collect();
    assert_eq!(attrs(&text), Some(list));
}
