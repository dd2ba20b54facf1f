use dynamo_parsers::error::ToolCallError;
use dynamo_parsers::pythonic::{
    detect_tool_call_start_pythonic, get_regex_matches, parse_first_list, parse_tool_calls,
    strip_text, try_tool_call_parse_pythonic,
};
use dynamo_parsers::response::ToolCallResponse;
use ruff_python_parser::parse_expression;
use serde_json::Value;

fn json(text: &str) -> Value {
    serde_json::from_str(text).unwrap()
}

fn extract_name_and_args(call: ToolCallResponse) -> (String, serde_json::Value) {
    let args: serde_json::Value = serde_json::from_str(&call.function.arguments).unwrap();
    (call.function.name, args)
}

#[test]
fn test_strip_text() {
    let message = "Hello, world!";
    let stripped = strip_text(message);
    assert_eq!(stripped, "Hello, world!");

    let message = "<|python_start|>foo(a=1, b=2)<|python_end|>";
    let stripped = strip_text(message);
    assert_eq!(stripped, "foo(a=1, b=2)");

    let message = "<|python_start|>foo(a=1, b=2)";
    let stripped = strip_text(message);
    assert_eq!(stripped, "foo(a=1, b=2)");

    let message = "foo(a=1, b=2)<|python_end|>";
    let stripped = strip_text(message);
    assert_eq!(stripped, "foo(a=1, b=2)");
}

#[test]
fn test_get_regex_matches_simple_case() {
    // Simple Case
    let message = "[foo(a=1, b=2), bar(x=3)]";
    let matches = get_regex_matches(message);
    assert_eq!(matches.len(), 1);
    assert_eq!(matches[0], "[foo(a=1, b=2), bar(x=3)]");
}

#[test]
fn test_get_regex_matches_text_before_and_after() {
    // Spacing in arg and value and text before and after
    let message = "Hey yo ! [foo(a=1, b=2), bar(x= 3)] Hey yo";
    let matches = get_regex_matches(message);
    assert_eq!(matches.len(), 1);
    assert_eq!(matches[0], "[foo(a=1, b=2), bar(x= 3)]");
}

#[test]
fn test_get_regex_matches_new_line_in_arg_and_value() {
    // New Line in Arg and value
    let message = "Hey \n yo ! [foo(a=1,b=2), \n bar(x=3)] Hey yo";
    let matches = get_regex_matches(message);
    assert_eq!(matches.len(), 1);
    assert_eq!(matches[0], "[foo(a=1,b=2), \n bar(x=3)]");
}

#[test]
fn test_get_regex_matches_no_call() {
    // No Call
    let message = "Hey yo !";
    let matches = get_regex_matches(message);
    assert_eq!(matches.len(), 0);
}

#[test]
fn test_parse_tool_call_parse_pythonic_basic() {
    let message = "[foo(a=1, b=2), bar(x=3)]";
    let (result, content) = try_tool_call_parse_pythonic(message, None).unwrap();
    assert_eq!(content, Some("".to_string()));
    assert!(!result.is_empty());
    assert_eq!(result.len(), 2);
    let (name, args) = extract_name_and_args(result[0].clone());
    assert_eq!(name, "foo");
    assert_eq!(args["a"], 1);
    assert_eq!(args["b"], 2);
    let (name, args) = extract_name_and_args(result[1].clone());
    assert_eq!(name, "bar");
    assert_eq!(args["x"], 3);
}

#[test]
fn test_parse_tool_call_parse_pythonic_with_text() {
    let message = "Hey yo ! [foo(a=1, b=2), bar(x=3)] Hey yo";
    let (result, content) = try_tool_call_parse_pythonic(message, None).unwrap();
    assert_eq!(content, Some("Hey yo !".to_string()));
    assert!(!result.is_empty());
    assert_eq!(result.len(), 2);
    let (name, args) = extract_name_and_args(result[0].clone());
    assert_eq!(name, "foo");
    assert_eq!(args["a"], 1);
    assert_eq!(args["b"], 2);
    let (name, args) = extract_name_and_args(result[1].clone());
    assert_eq!(name, "bar");
    assert_eq!(args["x"], 3);
}

#[test]
fn test_parse_tool_call_parse_pythonic_with_text_and_new_line() {
    let message = "Hey \n yo ! [foo(a=1, b=2), bar(x=3)] Hey yo";
    let (result, content) = try_tool_call_parse_pythonic(message, None).unwrap();
    assert_eq!(content, Some("Hey \n yo !".to_string()));
    assert!(!result.is_empty());
    assert_eq!(result.len(), 2);
    let (name, args) = extract_name_and_args(result[0].clone());
    assert_eq!(name, "foo");
    assert_eq!(args["a"], 1);
    assert_eq!(args["b"], 2);
    let (name, args) = extract_name_and_args(result[1].clone());
    assert_eq!(name, "bar");
    assert_eq!(args["x"], 3);
}

#[test]
fn test_parse_tool_call_parse_pythonic_with_no_calls() {
    let message = "Hey \n yo !";
    let (result, content) = try_tool_call_parse_pythonic(message, None).unwrap();
    assert_eq!(content, Some("Hey \n yo !".to_string()));
    assert!(result.is_empty());
    assert_eq!(result.len(), 0)
}

#[test]
fn test_parse_tool_call_parse_pythonic_with_python_tags() {
    let message = "<|python_start|>[foo(a=1, b=2), bar(x=3)]<|python_end|>";
    let (result, content) = try_tool_call_parse_pythonic(message, None).unwrap();
    assert_eq!(content, Some("".to_string()));
    assert!(!result.is_empty());
    assert_eq!(result.len(), 2);
    let (name, args) = extract_name_and_args(result[0].clone());
    assert_eq!(name, "foo");
    assert_eq!(args["a"], 1);
    assert_eq!(args["b"], 2);
    let (name, args) = extract_name_and_args(result[1].clone());
    assert_eq!(name, "bar");
    assert_eq!(args["x"], 3);
}

#[test]
fn test_parse_tool_call_parse_pythonic_with_list_arg_values() {
    let message = "[foo(a=[1, 2, 3], b=2), bar(x=[3, 4, 5])]";
    let (result, _) = try_tool_call_parse_pythonic(message, None).unwrap();
    assert!(!result.is_empty());
    assert_eq!(result.len(), 2);
    let (name, args) = extract_name_and_args(result[0].clone());
    assert_eq!(name, "foo");
    assert_eq!(args["a"], json(r#"[1, 2, 3]"#));
    assert_eq!(args["b"], 2);
    let (name, args) = extract_name_and_args(result[1].clone());
    assert_eq!(name, "bar");
    assert_eq!(args["x"], json(r#"[3, 4, 5]"#));
}

#[test]
fn test_parse_tool_call_parse_pythonic_with_dict_arg_values() {
    let message = "[foo(a={'a': 1, 'b': 2}, b=2), bar(x={'x': 3, 'y': {'e': 'f'}})]";
    let (result, _) = try_tool_call_parse_pythonic(message, None).unwrap();
    assert!(!result.is_empty());
    assert_eq!(result.len(), 2);
    let (name, args) = extract_name_and_args(result[0].clone());
    assert_eq!(name, "foo");
    assert_eq!(args["a"], json(r#"{"a": 1, "b": 2}"#));
    assert_eq!(args["b"], 2);
    let (name, args) = extract_name_and_args(result[1].clone());
    assert_eq!(name, "bar");
    assert_eq!(args["x"], json(r#"{"x": 3, "y": {"e": "f"}}"#));
}

#[test]
fn test_parse_tool_call_parse_pythonic_scalar_literals() {
    let message = "[foo(flag=True, empty=None, ratio=1.5, text='hello', huge=18446744073709551616)]";
    let (result, _) = try_tool_call_parse_pythonic(message, None).unwrap();
    let (name, args) = extract_name_and_args(result[0].clone());

    assert_eq!(name, "foo");
    assert_eq!(args["flag"], true);
    assert_eq!(args["empty"], Value::Null);
    assert_eq!(args["ratio"], 1.5);
    assert_eq!(args["text"], "hello");
    assert_eq!(args["huge"], "18446744073709551616");
}

#[test]
fn test_parse_tool_calls_skips_unsupported_arguments() {
    let result = parse_tool_calls("[foo(valid=1, computed=1 + 2, **extra)]").unwrap();
    let (name, args) = extract_name_and_args(result[0].clone());

    assert_eq!(name, "foo");
    assert_eq!(args, json(r#"{"valid": 1}"#));
}

#[test]
fn test_detect_tool_call_start_pythonic_chunk_with_tool_call_start_token() {
    let text = r#"[foo(a=1, b=2), bar(x=3)]"#;
    let result = detect_tool_call_start_pythonic(text);
    assert!(result);
}

#[test]
fn test_detect_tool_call_start_pythonic_chunk_without_tool_call_start_token() {
    let text = r#"foo(a=1, b=2)"#;
    let result = detect_tool_call_start_pythonic(text);
    assert!(!result);
}

#[test]
fn test_detect_tool_call_start_pythonic_chunk_with_tool_call_start_token_in_middle() {
    let text = r#"information: [foo(a=1, b=2), bar(x=3)]"#;
    let result = detect_tool_call_start_pythonic(text);
    assert!(result);
}

#[test]
fn test_detect_tool_call_start_pythonic_false_positive() {
    // Since we detect just "[" as tool call start token, this will be a false positive
    let text = r#"Hey [ There is one tool call here . foo(a=1, b=2)"#;
    let result = detect_tool_call_start_pythonic(text);
    assert!(result);
}

#[test]
fn test_parse_tool_calls_reports_syntax_errors() {
    let error = parse_tool_calls("[foo(").unwrap_err();
    assert!(matches!(&error, ToolCallError::PythonSyntax(_)));
    assert_eq!(error.message(), parse_expression("[foo(").unwrap_err().to_string());
    assert!(error.message().contains("at byte range"));
    let message = "text [foo(a=1, b==2)]";
    let error = try_tool_call_parse_pythonic(message, None).unwrap_err();
    assert_eq!(error.message(), parse_expression("[foo(a=1, b==2)]").unwrap_err().to_string());
}

#[test]
fn test_parse_tool_calls_of_other_expressions() {
    assert!(parse_tool_calls("foo(a=1)").unwrap().is_empty());
    assert!(parse_tool_calls("[]").unwrap().is_empty());
    assert!(parse_tool_calls("[1, x.f(a=1), 'f']").unwrap().is_empty());
}

#[test]
fn test_parse_tool_calls_ids_count_every_element() {
    let calls = parse_tool_calls("[1, f(), x.g(), h(b=1)]").unwrap();
    assert_eq!(calls.len(), 2);
    assert_eq!(calls[0].id, "call-2");
    assert_eq!(calls[0].function.name, "f");
    assert_eq!(calls[0].function.arguments, "{}");
    assert_eq!(calls[1].id, "call-4");
    assert_eq!(calls[1].function.arguments, r#"{"b":1}"#);
}

fn arguments(src: &str) -> String {
    parse_tool_calls(src).unwrap()[0].function.arguments.clone()
}

#[test]
fn test_parse_tool_calls_arguments_are_sorted() {
    assert_eq!(arguments("[f(0, b=1, a='x' 'y')]"), r#"{"a":"xy","b":1}"#);
    assert_eq!(arguments("[f(z=True, y=False, x=None)]"), r#"{"x":null,"y":false,"z":true}"#);
}

#[test]
fn test_parse_tool_calls_numbers() {
    assert_eq!(arguments("[f(a=18446744073709551615)]"), r#"{"a":18446744073709551615}"#);
    assert_eq!(arguments("[f(a=18446744073709551616)]"), r#"{"a":"18446744073709551616"}"#);
    assert_eq!(arguments("[f(a=0x10, b=1_000)]"), r#"{"a":16,"b":1000}"#);
    assert_eq!(arguments("[f(a=2.50, b=1e2, c=1e999)]"), r#"{"a":2.5,"b":100.0,"c":null}"#);
    assert_eq!(arguments("[f(a=1j, b=-1, c=1)]"), r#"{"c":1}"#);
}

#[test]
fn test_parse_tool_calls_dictionaries() {
    assert_eq!(
        arguments("[f(a={'b': 1, 2: 'c', None: [], 1.5: {}, True: 0, 'b': 3})]"),
        r#"{"a":{"1.5":{},"2":"c","b":3,"null":[],"true":0}}"#
    );
    assert_eq!(arguments("[f(a={**x}, b={'k': g()}, c=[1, x], d={})]"), r#"{"d":{}}"#);
}

#[test]
fn test_parse_pythonic_empty_and_tags_only() {
    for message in ["", "  \n", "<|python_start|> <|python_end|>"] {
        let (calls, content) = try_tool_call_parse_pythonic(message, None).unwrap();
        assert!(calls.is_empty());
        assert_eq!(content, Some(String::new()));
    }
}

#[test]
fn test_parse_pythonic_takes_the_first_list() {
    let (calls, content) =
        try_tool_call_parse_pythonic(" one [f(a=1)] two [g(b=2)] ", None).unwrap();
    assert_eq!(get_regex_matches("one [f(a=1)] two [g(b=2)]").len(), 2);
    assert_eq!(calls.len(), 1);
    assert_eq!(calls[0].function.name, "f");
    assert_eq!(content, Some("one".to_string()));
}

#[test]
fn test_parse_first_list_of_given_lists() {
    let lists = vec!["[g(b=2)]".to_string(), "[f(a=1)]".to_string()];
    let (calls, content) = parse_first_list(" x [f(a=1)] [g(b=2)] [g(b=2)]", &lists).unwrap();
    assert_eq!(calls[0].function.name, "g");
    assert_eq!(content, Some("x [f(a=1)]".to_string()));
    let (calls, content) = parse_first_list(" x ", &vec![]).unwrap();
    assert!(calls.is_empty());
    assert_eq!(content, Some(" x ".to_string()));
}

#[test]
fn test_detect_tool_call_start_pythonic_of_nothing() {
    assert!(!detect_tool_call_start_pythonic(""));
    assert!(!detect_tool_call_start_pythonic(" \n"));
    assert!(detect_tool_call_start_pythonic(" [ "));
}
