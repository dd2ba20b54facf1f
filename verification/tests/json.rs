use dynamo_parsers::json::{
    braced_text, comes_before, find_member, member_string, put_member, quote, JsonNumber,
    JsonValue,
};

fn text_of(text: &str) -> String {
    JsonValue::from_text(text).unwrap().to_text()
}

#[test]
fn texts_are_compact_and_keys_ascend() {
    assert_eq!(
        text_of(r#" { "b" : [ 1 , -2 , true , null ] , "a" : { } , "B" : "x" } "#),
        r#"{"B":"x","a":{},"b":[1,-2,true,null]}"#
    );
}

#[test]
fn the_last_of_repeated_keys_counts() {
    assert_eq!(text_of(r#"{"a":1,"a":2}"#), r#"{"a":2}"#);
}

#[test]
fn what_is_no_json_is_refused() {
    for text in ["", "{", "{a:1}", "[1,]", "1e999", "nul", "'a'", "1 2"] {
        assert!(JsonValue::from_text(text).is_none(), "{text}");
    }
}

#[test]
fn numbers_are_integers_or_decimal_texts() {
    assert_eq!(
        JsonValue::from_text("18446744073709551615"),
        Some(JsonValue::Number(JsonNumber::PosInt(u64::MAX)))
    );
    assert_eq!(
        JsonValue::from_text("-9223372036854775808"),
        Some(JsonValue::Number(JsonNumber::NegInt(i64::MIN)))
    );
    assert_eq!(
        JsonValue::from_text("1.50"),
        Some(JsonValue::Number(JsonNumber::Float("1.5".to_string())))
    );
    assert_eq!(text_of("1.50"), "1.5");
    assert_eq!(text_of("1e2"), "100.0");
    assert_eq!(text_of("-0"), "-0.0");
    assert_eq!(JsonValue::Number(JsonNumber::Float("inf".to_string())).to_text(), "null");
}

#[test]
fn strings_are_escaped() {
    assert_eq!(quote("plain"), "\"plain\"");
    assert_eq!(quote("\u{8}\u{c}\n\r\t\"\\"), r#""\b\f\n\r\t\"\\""#);
    assert_eq!(quote("\u{0}\u{1f}\u{7f}ñ/"), "\"\\u0000\\u001f\u{7f}ñ/\"");
    for code in 0..0x20 {
        let ch = char::from_u32(code).unwrap();
        let value = JsonValue::from_text(&quote(&ch.to_string()));
        assert_eq!(value, Some(JsonValue::Text(ch.to_string())));
    }
}

#[test]
fn members_are_put_in_their_place_and_found() {
    let mut entries: Vec<(String, JsonValue)> = Vec::new();
    put_member(&mut entries, "b".to_string(), JsonValue::Bool(true));
    put_member(&mut entries, "a".to_string(), JsonValue::Null);
    put_member(&mut entries, "c".to_string(), JsonValue::Text("x".to_string()));
    put_member(&mut entries, "b".to_string(), JsonValue::Bool(false));
    assert_eq!(find_member(&entries, "b"), Some(&JsonValue::Bool(false)));
    assert_eq!(find_member(&entries, "d"), None);
    assert_eq!(
        JsonValue::Object(entries).to_text(),
        r#"{"a":null,"b":false,"c":"x"}"#
    );
}

#[test]
fn keys_are_ordered_by_their_characters() {
    assert!(comes_before(&[], &['a']));
    assert!(comes_before(&['a'], &['a', 'a']));
    assert!(comes_before(&['Z'], &['a']));
    assert!(comes_before(&['z'], &['é']));
    assert!(comes_before(&['\u{ffff}'], &['😀']));
    assert!(!comes_before(&['a'], &['a']));
}

#[test]
fn members_are_joined_with_commas() {
    assert_eq!(braced_text(&vec![]), "{}");
    let parts = vec![member_string("a\"", "1"), member_string("b", "[2]")];
    assert_eq!(braced_text(&parts), r#"{"a\"":1,"b":[2]}"#);
}

#[test]
fn values_tell_what_they_are() {
    let value = JsonValue::from_text(r#"{"n":7,"s":"x","l":[1]}"#).unwrap();
    let entries = value.as_object().unwrap();
    assert_eq!(find_member(entries, "n").unwrap().as_u64(), Some(7));
    assert_eq!(find_member(entries, "s").unwrap().as_u64(), None);
    assert_eq!(find_member(entries, "s").unwrap().as_str(), Some("x"));
    assert_eq!(find_member(entries, "n").unwrap().as_str(), None);
    assert_eq!(find_member(entries, "l").unwrap().as_array().unwrap().len(), 1);
    assert!(value.as_array().is_none());
    assert!(JsonValue::Null.as_object().is_none());
    assert_eq!(value.clone(), value);
}
