use dynamo_parsers::kimi_k3::{
    detect_tool_call_start_kimi_k3, find_tool_call_end_position_kimi_k3, parse_call_at,
    try_tool_call_parse_kimi_k3, KimiK3ParserConfig, ARGUMENT_CLOSE, CALL_CLOSE, CALL_OPEN_PREFIX,
    END_OF_MSG, JSON_CLOSE, JSON_OPEN_PREFIX, MESSAGE_CLOSE, RESPONSE_CLOSE, RESPONSE_OPEN, SEP,
    TOOLS_CLOSE, TOOLS_OPEN,
};
use dynamo_parsers::response::ToolCallResponse;
use dynamo_parsers::tools::ToolDefinition;
use serde_json::Value;

fn chars(text: &str) -> Vec<char> {
    text.chars().collect()
}

fn arg(key: &str, arg_type: Option<&str>, value: &str) -> String {
    let type_attr = arg_type
        .map(|arg_type| format!(" type=\"{arg_type}\""))
        .unwrap_or_default();
    format!("<|open|>argument key=\"{key}\"{type_attr}<|sep|>{value}{ARGUMENT_CLOSE}")
}

fn call(attrs: &str, body: &str) -> String {
    format!("{CALL_OPEN_PREFIX} {attrs}{SEP}{body}{CALL_CLOSE}")
}

fn tools(body: &str) -> String {
    format!("{TOOLS_OPEN}{body}{TOOLS_CLOSE}")
}

fn parse(input: &str) -> (Vec<ToolCallResponse>, String) {
    let (calls, normal) =
        try_tool_call_parse_kimi_k3(input, &KimiK3ParserConfig::default(), None).unwrap();
    (calls, normal.unwrap())
}

#[test]
fn coalesced_message_uses_the_outermost_visible_terminator() {
    let input = format!("{RESPONSE_OPEN}42{RESPONSE_CLOSE}{MESSAGE_CLOSE}{END_OF_MSG}");

    assert_eq!(
        find_tool_call_end_position_kimi_k3(&input, &KimiK3ParserConfig::default()),
        Some(input.len())
    );
}

#[test]
fn parses_response_and_all_typed_arguments() {
    let body = [
        arg("city", Some("string"), "Paris"),
        arg("days", Some("number"), "1.0"),
        arg("rain", Some("boolean"), "true"),
        arg("none", Some("null"), "null"),
        arg("filters", Some("object"), r#"{"b": 1, "a": 2}"#),
        arg("hours", Some("array"), "[8, 20]"),
    ]
    .concat();
    let input = format!(
        "{RESPONSE_OPEN}I'll check.{RESPONSE_CLOSE}{}{MESSAGE_CLOSE}{END_OF_MSG}",
        tools(&call("tool=\"get_weather\" index=\"1\"", &body))
    );

    let (calls, normal) = parse(&input);

    assert_eq!(normal, "I'll check.");
    assert_eq!(calls.len(), 1);
    assert_eq!(calls[0].id, "get_weather:0");
    assert_eq!(calls[0].function.name, "get_weather");
    assert_eq!(
        calls[0].function.arguments,
        r#"{"city":"Paris","days":1.0,"rain":true,"none":null,"filters":{"b":1,"a":2},"hours":[8,20]}"#
    );
}

#[test]
fn raw_json_arguments_are_byte_preserving() {
    let raw = r#"{"b": 1,  "a": [2 , 3]}"#;
    let json = format!("{JSON_OPEN_PREFIX} type=\"object\"{SEP}{raw}{JSON_CLOSE}");
    let (calls, _) = parse(&tools(&call("tool=\"run\" index=\"2\"", &json)));

    assert_eq!(calls[0].id, "run:1");
    assert_eq!(calls[0].function.arguments, raw);
}

#[test]
fn prompt_consumed_response_open_preserves_content_and_strips_markers() {
    let input = format!("answer{RESPONSE_CLOSE}{MESSAGE_CLOSE}{END_OF_MSG}");
    let (calls, normal) = parse(&input);

    assert!(calls.is_empty());
    assert_eq!(normal, "answer");

    for marker in [RESPONSE_OPEN, RESPONSE_CLOSE, MESSAGE_CLOSE, END_OF_MSG] {
        let (_, marker_normal) = parse(marker);
        assert_eq!(marker_normal, "", "marker {marker}");
    }
}

#[test]
fn multiple_calls_ids_and_missing_name() {
    let input = tools(
        &[
            call("tool=\"first\" index=\"3\"", ""),
            call("index=\"4\"", &arg("x", Some("number"), "1")),
            call("tool=\"second\" index=\"raw\"", ""),
            call("tool=\"third\"", ""),
        ]
        .concat(),
    );

    let (calls, _) = parse(&input);

    assert_eq!(calls.len(), 3);
    assert_eq!(calls[0].id, "first:2");
    assert_eq!(calls[1].id, "second:raw");
    assert_eq!(calls[2].id, "third");
}

#[test]
fn attributes_unescape_in_inverse_order() {
    let input = tools(&call("tool=\"a&amp;quot;b&amp;c\" index=\"1\"", ""));
    let (calls, _) = parse(&input);

    // `&quot;` is replaced before `&amp;`, so an encoded literal
    // `&quot;` remains text rather than becoming a quote recursively.
    assert_eq!(calls[0].function.name, "a&quot;b&c");

    let input = tools(&call("tool=\"a&quot;b&amp;c\" index=\"1\"", ""));
    let (calls, _) = parse(&input);
    assert_eq!(calls[0].function.name, "a\"b&c");
}

#[test]
fn missing_type_defaults_to_string_and_malformed_typed_value_falls_back() {
    let body = [
        arg("plain", None, "raw text"),
        arg("bad", Some("number"), "not-a-number"),
    ]
    .concat();
    let (calls, _) = parse(&tools(&call("tool=\"f\" index=\"1\"", &body)));
    let args: Value = serde_json::from_str(&calls[0].function.arguments).unwrap();

    assert_eq!(args["plain"], "raw text");
    assert_eq!(args["bad"], "not-a-number");
}

#[test]
fn complete_calls_survive_a_truncated_later_call() {
    let first = call("tool=\"first\" index=\"1\"", "");
    let second = format!(
        "{CALL_OPEN_PREFIX} tool=\"second\" index=\"2\"{SEP}<|open|>argument key=\"x\" type=\"string\"{SEP}ambiguous"
    );
    let input = format!("{TOOLS_OPEN}{first}{second}{TOOLS_CLOSE}");

    let (calls, normal) = parse(&input);

    assert_eq!(normal, "");
    assert_eq!(calls.len(), 1);
    assert_eq!(calls[0].function.name, "first");
}

#[test]
fn finalize_recovers_only_delimiter_terminated_calls() {
    let complete_body = arg("x", Some("number"), "1");
    let complete_without_outer_closes =
        format!("{TOOLS_OPEN}{CALL_OPEN_PREFIX} tool=\"calc\" index=\"1\"{SEP}{complete_body}");
    let incomplete_value = format!(
        "{TOOLS_OPEN}{CALL_OPEN_PREFIX} tool=\"calc\" index=\"1\"{SEP}<|open|>argument key=\"x\" type=\"string\"{SEP}Par"
    );

    let (before_finalize, _) = parse(&complete_without_outer_closes);
    assert!(before_finalize.is_empty());

    let recovery = KimiK3ParserConfig {
        allow_eof_recovery: true,
    };
    let (recovered, _) =
        try_tool_call_parse_kimi_k3(&complete_without_outer_closes, &recovery, None).unwrap();
    let (dropped, _) = try_tool_call_parse_kimi_k3(&incomplete_value, &recovery, None).unwrap();

    assert_eq!(recovered.len(), 1);
    assert_eq!(recovered[0].function.arguments, r#"{"x":1}"#);
    assert!(dropped.is_empty());
}

#[test]
fn unknown_tool_is_still_emitted() {
    let defined = [ToolDefinition {
        name: "known".to_string(),
        parameters: None,
        strict: None,
    }];
    let input = tools(&call("tool=\"unknown\" index=\"1\"", ""));
    let (calls, _) =
        try_tool_call_parse_kimi_k3(&input, &KimiK3ParserConfig::default(), Some(&defined))
            .unwrap();

    assert_eq!(calls.len(), 1);
    assert_eq!(calls[0].function.name, "unknown");
}

#[test]
fn detects_partial_markers_and_finds_contextual_end() {
    let config = KimiK3ParserConfig::default();
    assert!(detect_tool_call_start_kimi_k3("answer<|ope", &config));
    assert!(!detect_tool_call_start_kimi_k3("ordinary answer", &config));

    let response = format!("{RESPONSE_OPEN}answer{RESPONSE_CLOSE}");
    assert_eq!(
        find_tool_call_end_position_kimi_k3(&response, &config),
        Some(RESPONSE_OPEN.len())
    );

    let tools = tools(&call("tool=\"f\" index=\"1\"", ""));
    assert_eq!(
        find_tool_call_end_position_kimi_k3(&tools, &config),
        Some(tools.len())
    );
    assert_eq!(
        find_tool_call_end_position_kimi_k3(TOOLS_OPEN, &config),
        None
    );
}

#[test]
fn identifiers_count_from_zero() {
    let id = |index: &str| {
        let (calls, _) = parse(&tools(&call(&format!("tool=\"f\" index=\"{index}\""), "")));
        calls[0].id.clone()
    };
    assert_eq!(id("1"), "f:0");
    assert_eq!(id("0"), "f:-1");
    assert_eq!(id("+2"), "f:1");
    assert_eq!(id("007"), "f:6");
    assert_eq!(id(""), "f");
    assert_eq!(id("1.0"), "f:1.0");
    assert_eq!(id("9223372036854775808"), "f:9223372036854775808");
    assert_eq!(id("-9223372036854775808"), "f:9223372036854775807");
}

#[test]
fn a_repeated_argument_keeps_its_place_and_takes_the_last_value() {
    let body = [
        arg("a", Some("number"), "1"),
        arg("b", Some("string"), "x\"y"),
        arg("a", Some("number"), "2"),
    ]
    .concat();
    let (calls, _) = parse(&tools(&call("tool=\"f\" index=\"1\"", &body)));
    assert_eq!(calls[0].function.arguments, r#"{"a":2,"b":"x\"y"}"#);
}

#[test]
fn bodies_that_cannot_be_read_give_no_call() {
    for body in [
        "text",
        "<|open|>argument key=\"x\"",
        "<|open|>argument key=\"x\"<|sep|>1",
        "<|open|>argument key=x<|sep|>1<|close|>argument<|sep|>",
        "<|open|>json<|sep|>{}",
        "<|open|>json<|sep|>{}<|close|>json<|sep|>more",
    ] {
        let (calls, _) = parse(&tools(&call("tool=\"f\" index=\"1\"", body)));
        assert!(calls.is_empty(), "{body}");
    }
    let (calls, _) = parse(&tools(&call("tool=f", "")));
    assert!(calls.is_empty());
}

#[test]
fn a_call_outside_of_a_tools_section_counts() {
    let (calls, normal) = parse(&format!("hello {}", call("tool=\"f\" index=\"1\"", "")));
    assert_eq!(calls.len(), 1);
    assert_eq!(calls[0].function.arguments, "{}");
    assert_eq!(normal, "hello ");
}

#[test]
fn what_stands_behind_the_end_of_a_message_does_not_count() {
    let late = tools(&call("tool=\"f\" index=\"1\"", ""));
    let (calls, normal) = parse(&format!("answer{MESSAGE_CLOSE}{late}"));
    assert!(calls.is_empty());
    assert_eq!(normal, "answer");
}

#[test]
fn responses_hold_no_closers() {
    for message in [
        format!("{RESPONSE_OPEN}a{RESPONSE_CLOSE}b{RESPONSE_CLOSE}{MESSAGE_CLOSE}"),
        format!("a{RESPONSE_CLOSE}b{END_OF_MSG}{RESPONSE_CLOSE}"),
        format!("{RESPONSE_OPEN}a{TOOLS_OPEN}{END_OF_MSG}"),
        format!("a{END_OF_MSG}{MESSAGE_CLOSE}"),
    ] {
        let (_, normal) = parse(&message);
        assert_eq!(normal, "a", "{message}");
    }
}

#[test]
fn a_message_opener_before_the_text_goes() {
    let (_, normal) = parse("<|open|>message role=\"assistant\"<|sep|>hello");
    assert_eq!(normal, "hello");
    let (_, normal) = parse("<|open|>message role");
    assert_eq!(normal, "<|open|>message role");
    let (_, normal) = parse(&format!("x{ARGUMENT_CLOSE}"));
    assert_eq!(normal, "");
}

#[test]
fn every_split_boundary_is_noticed() {
    let config = KimiK3ParserConfig::default();
    for marker in config.start_tokens() {
        for cut in 1..=marker.len() {
            assert!(detect_tool_call_start_kimi_k3(&format!("ñ{}", &marker[..cut]), &config));
        }
    }
    assert!(!detect_tool_call_start_kimi_k3("", &config));
    assert!(!detect_tool_call_start_kimi_k3("<|x", &config));
}

#[test]
fn spans_end_in_bytes_behind_their_closer() {
    let config = KimiK3ParserConfig::default();
    let section = tools(&call("tool=\"ñ\" index=\"1\"", ""));
    let chunk = format!("añ€😀{section} rest");
    assert_eq!(
        find_tool_call_end_position_kimi_k3(&chunk, &config),
        Some("añ€😀".len() + section.len())
    );
    let bare = call("tool=\"f\"", "");
    assert_eq!(
        find_tool_call_end_position_kimi_k3(&format!("{bare}more"), &config),
        Some(bare.len())
    );
    assert_eq!(find_tool_call_end_position_kimi_k3(CALL_OPEN_PREFIX, &config), None);
    assert_eq!(find_tool_call_end_position_kimi_k3("plain", &config), None);
    for marker in [RESPONSE_OPEN, RESPONSE_CLOSE, ARGUMENT_CLOSE, TOOLS_CLOSE, CALL_CLOSE] {
        assert_eq!(
            find_tool_call_end_position_kimi_k3(&format!("x{marker}y{TOOLS_CLOSE}"), &config),
            Some(1 + marker.len())
        );
    }
    let ended = format!("{TOOLS_OPEN}x{MESSAGE_CLOSE}");
    assert_eq!(
        find_tool_call_end_position_kimi_k3(&ended, &config),
        Some(ended.len())
    );
}

#[test]
fn recovery_needs_a_complete_last_element() {
    let recovery = KimiK3ParserConfig {
        allow_eof_recovery: true,
    };
    let open = format!("{CALL_OPEN_PREFIX} tool=\"f\" index=\"1\"{SEP}");
    let raw = format!("{JSON_OPEN_PREFIX}{SEP}{{}}{JSON_CLOSE}");
    let recovered = |message: &str| {
        try_tool_call_parse_kimi_k3(message, &recovery, None).unwrap().0
    };
    assert_eq!(recovered(&format!("{TOOLS_OPEN}{open}{raw} \n"))[0].function.arguments, "{}");
    assert_eq!(recovered(&format!("{open}{raw}"))[0].function.arguments, "{}");
    assert!(recovered(&format!("{TOOLS_OPEN}{open}")).is_empty());
    assert!(recovered(&format!("{TOOLS_OPEN}{open}{raw}{TOOLS_CLOSE}")).is_empty());
}

#[test]
fn plain_messages_pass_through() {
    let config = KimiK3ParserConfig::default();
    for message in ["", "plain", " a > b \n", "añ€😀"] {
        let (calls, normal) = parse(message);
        assert!(calls.is_empty());
        assert_eq!(normal, message);
        assert_eq!(find_tool_call_end_position_kimi_k3(message, &config), None);
        assert!(!detect_tool_call_start_kimi_k3(message, &config));
    }
    let (_, normal) = parse(&format!("{RESPONSE_OPEN} a < b {RESPONSE_CLOSE}{MESSAGE_CLOSE}"));
    assert_eq!(normal, " a < b ");
}

#[test]
fn a_closed_call_is_read_the_same_whatever_follows() {
    let first = call("tool=\"f\" index=\"3\"", &arg("x", Some("number"), "1"));
    let nameless = call("index=\"3\"", "");
    for closed in [first, nameless] {
        let (expected, used) = parse_call_at(&chars(&closed), false).unwrap();
        assert_eq!(used, closed.chars().count());
        for rest in ["", "text", CALL_CLOSE, SEP, END_OF_MSG, ARGUMENT_CLOSE, TOOLS_CLOSE, "ñ\""] {
            let input = chars(&format!("{closed}{rest}"));
            assert_eq!(parse_call_at(&input, false), Some((expected.clone(), used)));
            assert_eq!(parse_call_at(&input, true), Some((expected.clone(), used)));
        }
    }
}

#[test]
fn a_call_is_read_where_it_begins() {
    let input = call("tool=\"f\" index=\"3\"", "");
    let (found, _) = parse_call_at(&chars(&input), false).unwrap();
    let found = found.unwrap();
    assert_eq!(found.id, "f:2");
    assert_eq!(found.function.name, "f");
    assert_eq!(found.function.arguments, "{}");
    assert_eq!(parse_call_at(&chars(&format!(" {input}")), true), None);
    assert_eq!(parse_call_at(&chars(CALL_OPEN_PREFIX), true), None);
    let open = format!("{CALL_OPEN_PREFIX} tool=\"f\"{SEP}");
    assert_eq!(parse_call_at(&chars(&open), true), None);
    let complete = format!("{open}{}", arg("x", None, "1"));
    assert_eq!(parse_call_at(&chars(&complete), false), None);
    assert!(parse_call_at(&chars(&complete), true).is_some());
}

#[test]
fn messages_without_boundaries_pass_through() {
    for message in ["a < b", "<|open|>think", "x <|open|>message y", "<|close|>call", "<|sep|>"] {
        let (calls, normal) = parse(message);
        assert!(calls.is_empty());
        assert_eq!(normal, message);
        let config = KimiK3ParserConfig::default();
        assert_eq!(find_tool_call_end_position_kimi_k3(message, &config), None);
    }
}
