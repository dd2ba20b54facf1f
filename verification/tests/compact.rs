use dynamo_parsers::compact::compact_json_lexically;

fn compact(text: &str) -> String {
    let chars: Vec<char> = text.chars().collect();
    compact_json_lexically(&chars).into_iter().collect()
}

#[test]
fn white_space_outside_of_strings_goes() {
    assert_eq!(
        compact("{ \"b\" : 1.0 ,\n\t\"a\" : [ 2 , 3e1 ] }"),
        r#"{"b":1.0,"a":[2,3e1]}"#
    );
}

#[test]
fn strings_stay_as_they_are() {
    assert_eq!(compact(r#"[ "a b", "c\" d", "\\" , " " ]"#), r#"["a b","c\" d","\\"," "]"#);
}

#[test]
fn compact_texts_stay_as_they_are() {
    for text in ["", "{}", r#"{"z":1,"a":" x "}"#, "[1,2]", "\"open ", "1\u{a0}2"] {
        let once = compact(text);
        assert_eq!(compact(&once), once);
    }
    assert_eq!(compact(r#"{"z":1,"a":" x "}"#), r#"{"z":1,"a":" x "}"#);
}
