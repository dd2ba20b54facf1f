use dynamo_parsers::arguments::reorder_arguments;

fn names(list: &[&str]) -> Vec<String> {
    list.iter().map(|name| name.to_string()).collect()
}

#[test]
fn members_follow_the_source_order() {
    assert_eq!(
        reorder_arguments(r#"{"a": 1, "b": [2, 3], "c": "x"}"#, &names(&["c", "a", "b"])),
        r#"{"c":"x","a":1,"b":[2,3]}"#
    );
}

#[test]
fn a_repeated_name_counts_once() {
    assert_eq!(
        reorder_arguments(r#"{"a":1,"b":2}"#, &names(&["b", "a", "b"])),
        r#"{"b":2,"a":1}"#
    );
}

#[test]
fn unnamed_members_follow_in_object_order() {
    assert_eq!(
        reorder_arguments(r#"{"d":4,"a":1,"c":3,"b":2}"#, &names(&["c", "x"])),
        r#"{"c":3,"a":1,"b":2,"d":4}"#
    );
}

#[test]
fn what_is_no_object_stays_as_it_is() {
    for text in ["[1, 2]", "not json", "", " 7 ", "{\"a\": }"] {
        assert_eq!(reorder_arguments(text, &names(&["a"])), text);
    }
}

#[test]
fn an_empty_object_stays_empty() {
    assert_eq!(reorder_arguments("{ }", &names(&["a"])), "{}");
}
