use dynamo_parsers::json::JsonValue;
use dynamo_parsers::kimi_k2::KimiK2ToolStreamParser;
use dynamo_parsers::response::ToolParseResult;
use dynamo_parsers::tools::Tool;

fn schema(text: &str) -> JsonValue {
    JsonValue::from_text(text).unwrap()
}

fn weather_tools() -> Vec<Tool> {
    vec![Tool {
        name: "get_weather".to_string(),
        description: None,
        parameters: schema(
            r#"{"type": "object", "properties": {"location": {"type": "string"}}}"#,
        ),
        strict: None,
    }]
}

fn parse_chunks(tools: &[Tool], chunks: &[&str]) -> ToolParseResult {
    let mut parser = KimiK2ToolStreamParser::new(tools);
    let mut out = ToolParseResult::default();
    for chunk in chunks {
        out.append(parser.push(chunk).expect("push"));
    }
    out.append(parser.finish().expect("finish"));
    out
}

#[test]
fn kimi_k2_emits_complete_call_on_close() {
    let out = parse_chunks(
        &weather_tools(),
        &[
            "<|tool_calls_section_begin|><|tool_call_begin|>",
            "functions.get_weather:0<|tool_call_argument_begin|>",
            "{\"location\":\"NYC\"}<|tool_call_end|><|tool_calls_section_end|>",
        ],
    );
    assert_eq!(out.normal_text, "");
    let merged = out.coalesce_calls();
    assert_eq!(merged.calls.len(), 1);
    assert_eq!(merged.calls[0].tool_index, 0);
    assert_eq!(merged.calls[0].name.as_deref(), Some("get_weather"));
    assert_eq!(merged.calls[0].arguments, r#"{"location":"NYC"}"#);
}

#[test]
fn emits_two_calls_in_one_section() {
    let tools = vec![
        Tool {
            name: "get_weather".to_string(),
            description: None,
            parameters: schema(r#"{"type": "object"}"#),
            strict: None,
        },
        Tool {
            name: "get_time".to_string(),
            description: None,
            parameters: schema(r#"{"type": "object"}"#),
            strict: None,
        },
    ];
    let out = parse_chunks(
        &tools,
        &[
            "<|tool_calls_section_begin|><|tool_call_begin|>functions.get_weather:0<|tool_call_argument_begin|>{\"location\":\"NYC\"}<|tool_call_end|>",
            "<|tool_call_begin|>functions.get_time:1<|tool_call_argument_begin|>{\"timezone\":\"EST\"}<|tool_call_end|><|tool_calls_section_end|>",
        ],
    );
    let merged = out.coalesce_calls();
    assert_eq!(merged.calls.len(), 2);
    assert_eq!(merged.calls[0].name.as_deref(), Some("get_weather"));
    assert_eq!(merged.calls[0].arguments, r#"{"location":"NYC"}"#);
    assert_eq!(merged.calls[1].name.as_deref(), Some("get_time"));
    assert_eq!(merged.calls[1].arguments, r#"{"timezone":"EST"}"#);
}

#[test]
fn preserves_prefix_text_before_section() {
    let out = parse_chunks(
        &weather_tools(),
        &[
            "I will",
            " check the weather. <|tool_calls_section_begin|>",
            "<|tool_call_begin|>functions.get_weather:0<|tool_call_argument_begin|>{\"location\":\"NYC\"}<|tool_call_end|><|tool_calls_section_end|>",
        ],
    );
    assert_eq!(out.normal_text, "I will check the weather. ");
    assert_eq!(out.coalesce_calls().calls.len(), 1);
}

#[test]
fn preserves_post_section_narration() {
    let out = parse_chunks(
        &weather_tools(),
        &[
            "<|tool_calls_section_begin|><|tool_call_begin|>functions.get_weather:0<|tool_call_argument_begin|>{\"location\":\"NYC\"}<|tool_call_end|><|tool_calls_section_end|>",
            " Done.",
        ],
    );
    // In-section markup is suppressed; post-section narration is preserved
    // verbatim once the section closes.
    assert_eq!(out.normal_text, " Done.");
    assert_eq!(out.coalesce_calls().calls.len(), 1);
}

#[test]
fn preserves_inter_section_narration() {
    // Two sections separated by narration: the prefix and the
    // inter-section text both flow into normal_text; both calls are emitted.
    let tools = vec![
        Tool {
            name: "get_weather".to_string(),
            description: None,
            parameters: schema(r#"{"type": "object"}"#),
            strict: None,
        },
        Tool {
            name: "get_time".to_string(),
            description: None,
            parameters: schema(r#"{"type": "object"}"#),
            strict: None,
        },
    ];
    let out = parse_chunks(
        &tools,
        &[
            "First. <|tool_calls_section_begin|><|tool_call_begin|>functions.get_weather:0<|tool_call_argument_begin|>{\"location\":\"NYC\"}<|tool_call_end|><|tool_calls_section_end|>",
            " Then. <|tool_calls_section_begin|><|tool_call_begin|>functions.get_time:1<|tool_call_argument_begin|>{\"timezone\":\"EST\"}<|tool_call_end|><|tool_calls_section_end|>",
        ],
    );
    assert_eq!(out.normal_text, "First.  Then. ");
    let merged = out.coalesce_calls();
    assert_eq!(merged.calls.len(), 2);
    assert_eq!(merged.calls[0].name.as_deref(), Some("get_weather"));
    assert_eq!(merged.calls[1].name.as_deref(), Some("get_time"));
}

#[test]
fn holds_back_marker_split_across_every_char() {
    // Worst case: the whole input arrives one fragment at a time, splitting
    // every grammar marker. No partial marker may leak into normal_text.
    let full = "<|tool_calls_section_begin|><|tool_call_begin|>functions.get_weather:0<|tool_call_argument_begin|>{\"location\":\"NYC\"}<|tool_call_end|><|tool_calls_section_end|>";
    let chunks: Vec<&str> = full
        .as_bytes()
        .chunks(3)
        .map(|c| std::str::from_utf8(c).unwrap())
        .collect();
    let out = parse_chunks(&weather_tools(), &chunks);
    assert_eq!(out.normal_text, "");
    let merged = out.coalesce_calls();
    assert_eq!(merged.calls.len(), 1);
    assert_eq!(merged.calls[0].name.as_deref(), Some("get_weather"));
    assert_eq!(merged.calls[0].arguments, r#"{"location":"NYC"}"#);
}

#[test]
fn suppresses_truncated_call_at_eof() {
    // Section + call header streamed, but no call_end / section_end before
    // EOF. The truncated call is dropped and no markup leaks.
    let out = parse_chunks(
        &weather_tools(),
        &[
            "<|tool_calls_section_begin|><|tool_call_begin|>functions.get_weather:0<|tool_call_argument_begin|>",
            "{\"location\":\"NY",
        ],
    );
    assert_eq!(out.normal_text, "");
    assert!(out.calls.is_empty());
}

#[test]
fn strips_orphan_call_end_outside_section() {
    // A complete orphan `call_end` with no open section is stray double-close
    // markup: it must be stripped, never leaked, and the surrounding genuine
    // prose preserved .
    let out = parse_chunks(
        &weather_tools(),
        &["Here you go.", "<|tool_call_end|>", "All set."],
    );
    assert_eq!(out.normal_text, "Here you go.All set.");
    assert!(out.calls.is_empty());
}

#[test]
fn strips_orphan_argument_begin_outside_section() {
    let out = parse_chunks(
        &weather_tools(),
        &["Here you go.", "<|tool_call_argument_begin|>", "All set."],
    );
    assert_eq!(out.normal_text, "Here you go.All set.");
    assert!(out.calls.is_empty());
}

#[test]
fn strips_orphan_section_end_outside_section() {
    let out = parse_chunks(
        &weather_tools(),
        &["Here you go.", "<|tool_calls_section_end|>", "All set."],
    );
    assert_eq!(out.normal_text, "Here you go.All set.");
    assert!(out.calls.is_empty());
}

#[test]
fn recovers_complete_bare_call_without_section() {
    let out = parse_chunks(
        &weather_tools(),
        &[
            "<|tool_call_begin|>functions.get_weather:0<|tool_call_argument_begin|>",
            "{\"location\":\"NYC\"}<|tool_call_end|>",
        ],
    );
    assert_eq!(out.normal_text, "");
    let merged = out.coalesce_calls();
    assert_eq!(merged.calls.len(), 1);
    assert_eq!(merged.calls[0].name.as_deref(), Some("get_weather"));
    assert_eq!(merged.calls[0].arguments, r#"{"location":"NYC"}"#);
}

const CALL: &str = "<|tool_call_begin|>functions.get_weather:0<|tool_call_argument_begin|>{\"location\":\"NYC\"}<|tool_call_end|>";

fn one(text: &str) -> ToolParseResult {
    parse_chunks(&[], &[text])
}

#[test]
fn where_a_stream_is_cut_does_not_matter() {
    let stream = format!(
        "Hi <b> {CALL} x <|tool_calls_section_begin|>{CALL}y{CALL}<|tool_call_section_end|> z <|tool_call_end|><|tool_"
    );
    let whole = one(&stream);
    assert_eq!(whole.normal_text, "Hi <b>  z <|tool_");
    assert_eq!(whole.calls.len(), 3);
    for cut in 0..=stream.len() {
        assert_eq!(parse_chunks(&[], &[&stream[..cut], &stream[cut..]]), whole);
    }
    let letters: Vec<&str> = (0..stream.len()).map(|at| &stream[at..at + 1]).collect();
    assert_eq!(parse_chunks(&[], &letters), whole);
}

#[test]
fn calls_are_numbered_in_order() {
    let out = one(&format!(
        "<|tool_calls_section_begin|>{CALL}{CALL}<|tool_calls_section_end|>{CALL}"
    ));
    let indices: Vec<usize> = out.calls.iter().map(|call| call.tool_index).collect();
    assert_eq!(indices, vec![0, 1, 2]);
}

#[test]
fn plain_text_reaches_the_reader_at_once() {
    let mut parser = KimiK2ToolStreamParser::new(&[]);
    assert!(parser.preserve_special_tokens());
    assert_eq!(parser.push("a > b").expect("push").normal_text, "a > b");
    assert_eq!(parser.push(" and <").expect("push").normal_text, " and ");
    assert_eq!(parser.push(" c").expect("push").normal_text, "< c");
    assert_eq!(parser.finish().expect("finish").normal_text, "");
}

#[test]
fn text_behind_a_bare_call_is_dropped_until_a_stray_closer() {
    let out = one(&format!("{CALL} markup <|tool_calls_section_end|> text"));
    assert_eq!(out.normal_text, " text");
    assert_eq!(out.calls.len(), 1);
}

#[test]
fn a_call_that_its_section_cuts_off_is_dropped() {
    let out = one(&format!(
        "<|tool_calls_section_begin|><|tool_call_begin|>functions.f:0<|tool_call_argument_begin|>{{}}<|tool_calls_section_end|> text {CALL}"
    ));
    assert_eq!(out.normal_text, " text ");
    assert_eq!(out.calls.len(), 1);
    assert_eq!(out.calls[0].name.as_deref(), Some("get_weather"));
    assert_eq!(out.calls[0].tool_index, 0);
}

#[test]
fn identifiers_that_cannot_be_read_give_no_call() {
    for id in ["get_weather:0", "functions.:0", "functions.f", "functions.f:", "functions.f:x"] {
        let out = one(&format!(
            "<|tool_call_begin|>{id}<|tool_call_argument_begin|>{{}}<|tool_call_end|>"
        ));
        assert!(out.calls.is_empty(), "{id}");
    }
    let out = one("<|tool_call_begin|>functions.f:0{}<|tool_call_end|>");
    assert!(out.calls.is_empty());
}

#[test]
fn names_may_hold_dots_and_colons() {
    let out = one(
        "<|tool_call_begin|> functions.a.b:c:12 <|tool_call_argument_begin|> {} <|tool_call_end|>",
    );
    assert_eq!(out.calls[0].name.as_deref(), Some("a.b:c"));
    assert_eq!(out.calls[0].arguments, "{}");
}

#[test]
fn json_arguments_are_compact_and_others_raw() {
    let call = |payload: &str| {
        let out = one(&format!(
            "<|tool_call_begin|>functions.f:0<|tool_call_argument_begin|>{payload}<|tool_call_end|>"
        ));
        out.calls[0].arguments.clone()
    };
    assert_eq!(call("{\"z\": 1.0, \"a\": \"x y\"}"), "{\"z\":1.0,\"a\":\"x y\"}");
    assert_eq!(call("{\"z\":1.0,\"a\":\"x y\"}"), "{\"z\":1.0,\"a\":\"x y\"}");
    assert_eq!(call("{\"z\": 1.0, \"a\": "), "{\"z\": 1.0, \"a\":");
}

#[test]
fn a_finished_parser_holds_nothing_back() {
    let mut parser = KimiK2ToolStreamParser::new(&[]);
    assert_eq!(parser.push("<|tool_calls_section_begin|><|tool_call_b").expect("push"), ToolParseResult::default());
    assert_eq!(parser.finish().expect("finish"), ToolParseResult::default());
    assert_eq!(parser.finish().expect("finish"), ToolParseResult::default());
}

const CUT_OFF: &str = "<|tool_calls_section_begin|><|tool_call_begin|>functions.a:0<|tool_call_argument_begin|>{}<|tool_calls_section_end|>";

#[test]
fn text_behind_a_section_that_cuts_its_call_off_reaches_the_reader() {
    let stream = format!("{CUT_OFF} Done.");
    let out = one(&stream);
    assert_eq!(out.normal_text, " Done.");
    assert!(out.calls.is_empty());
    for cut in 0..=stream.len() {
        assert_eq!(parse_chunks(&[], &[&stream[..cut], &stream[cut..]]), out);
    }
    let letters: Vec<&str> = (0..stream.len()).map(|at| &stream[at..at + 1]).collect();
    assert_eq!(parse_chunks(&[], &letters), out);
}

#[test]
fn a_section_that_cuts_its_call_off_is_left_at_once() {
    let mut parser = KimiK2ToolStreamParser::new(&[]);
    assert_eq!(parser.push(CUT_OFF).expect("push"), ToolParseResult::default());
    assert_eq!(parser.push(" Done.").expect("push").normal_text, " Done.");
    assert_eq!(parser.finish().expect("finish"), ToolParseResult::default());
}

#[test]
fn a_call_behind_one_that_was_cut_off_is_the_first() {
    let early = "<|tool_calls_section_begin|><|tool_call_begin|>functions.a:0<|tool_calls_section_end|>";
    for cut_off in [CUT_OFF, early] {
        let out = one(&format!(
            "{cut_off} mid <|tool_calls_section_begin|>{CALL}<|tool_calls_section_end|>"
        ));
        assert_eq!(out.normal_text, " mid ");
        assert_eq!(out.calls.len(), 1);
        assert_eq!(out.calls[0].tool_index, 0);
        assert_eq!(out.calls[0].name.as_deref(), Some("get_weather"));
    }
}

#[test]
fn text_between_sections_reaches_the_reader() {
    let time = "<|tool_call_begin|>functions.get_time:1<|tool_call_argument_begin|>{}<|tool_call_end|>";
    let out = one(&format!(
        "First. <|tool_calls_section_begin|>{CALL}<|tool_calls_section_end|> Then. <|tool_calls_section_begin|>{time}<|tool_calls_section_end|>"
    ));
    assert_eq!(out.normal_text, "First.  Then. ");
    let names: Vec<Option<&str>> = out.calls.iter().map(|call| call.name.as_deref()).collect();
    assert_eq!(names, vec![Some("get_weather"), Some("get_time")]);
    assert_eq!(out.calls[1].tool_index, 1);
}

#[test]
fn a_malformed_call_uses_up_no_index() {
    let bad = "<|tool_call_begin|>nameless<|tool_call_argument_begin|>{}<|tool_call_end|>";
    let out = one(&format!(
        "<|tool_calls_section_begin|>{CALL}{bad}{CALL}<|tool_calls_section_end|>{bad}{CALL}"
    ));
    let indices: Vec<usize> = out.calls.iter().map(|call| call.tool_index).collect();
    assert_eq!(indices, vec![0, 1, 2]);
}

#[test]
fn text_with_parts_of_markers_is_kept() {
    let section = format!("<|tool_calls_section_begin|>{CALL}<|tool_calls_section_end|>");
    let stream = format!("if a < b <|tool_<|{section} then <c> <|tool_call_");
    let whole = one(&stream);
    assert_eq!(whole.normal_text, "if a < b <|tool_<| then <c> <|tool_call_");
    assert_eq!(whole.calls.len(), 1);
    for cut in 0..=stream.len() {
        assert_eq!(parse_chunks(&[], &[&stream[..cut], &stream[cut..]]), whole);
    }
    let mut parser = KimiK2ToolStreamParser::new(&[]);
    let pushed = parser.push(&stream).expect("push").normal_text;
    assert_eq!(pushed, "if a < b <|tool_<| then <c> ");
    assert_eq!(parser.finish().expect("finish").normal_text, "<|tool_call_");
}

#[test]
fn text_with_parts_of_markers_is_kept_around_stray_and_bare_markup() {
    assert_eq!(one("1 < 2 <|tool_call_end|> <| 3").normal_text, "1 < 2  <| 3");
    assert_eq!(one(&format!("x <|y {CALL}")).normal_text, "x <|y ");
    assert_eq!(one(&format!("x < {CUT_OFF} <y")).normal_text, "x <  <y");
}
