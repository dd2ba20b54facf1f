use dynamo_parsers::json::JsonValue;
use dynamo_parsers::qwen3_coder::{source_parameter_order, Qwen3CoderToolStreamParser};
use dynamo_parsers::response::ToolParseResult;
use dynamo_parsers::tools::Tool;

fn schema(text: &str) -> JsonValue {
    JsonValue::from_text(text).unwrap()
}

fn weather_tools() -> Vec<Tool> {
    vec![Tool {
        name: "get_weather".to_string(),
        description: None,
        parameters: schema(
            r#"{"type": "object", "properties": {"location": {"type": "string"}}}"#,
        ),
        strict: None,
    }]
}

fn parse_chunks(tools: &[Tool], chunks: &[&str]) -> ToolParseResult {
    let mut parser = Qwen3CoderToolStreamParser::new(tools);
    let mut out = ToolParseResult::default();
    for chunk in chunks {
        out.append(parser.push(chunk).expect("push"));
    }
    out.append(parser.finish().expect("finish"));
    out
}

#[test]
fn qwen3_coder_emits_complete_call_on_close() {
    let out = parse_chunks(
        &weather_tools(),
        &[
            "<tool_call> <function=get_weather>",
            " <parameter=location>",
            " NYC </parameter> </function>",
            " </tool_call>",
        ],
    );
    assert_eq!(out.normal_text, "");
    assert_eq!(out.calls.len(), 1);
    assert_eq!(out.calls[0].tool_index, 0);
    assert_eq!(out.calls[0].name.as_deref(), Some("get_weather"));
    // Value is schema-typed (string) and trimmed.
    assert_eq!(out.calls[0].arguments, r#"{"location":"NYC"}"#);
}

#[test]
fn preserves_prefix_text_before_block() {
    let out = parse_chunks(
        &weather_tools(),
        &[
            "I will",
            " check the weather. <tool_call>",
            " <function=get_weather>",
            " <parameter=location>NYC</parameter> </function> </tool_call>",
        ],
    );
    assert_eq!(out.normal_text, "I will check the weather. ");
    assert_eq!(out.calls.len(), 1);
}

#[test]
fn recovers_complete_bare_function() {
    let out = parse_chunks(
        &weather_tools(),
        &[
            "I will check that. <function=get_weather>",
            " <parameter=location>NYC</parameter>",
            " </function>",
        ],
    );
    assert_eq!(out.normal_text, "I will check that. ");
    assert_eq!(out.calls.len(), 1);
    assert_eq!(out.calls[0].arguments, r#"{"location":"NYC"}"#);
}

#[test]
fn preserves_trailing_text_after_block() {
    // railing narration after a complete block flows into normal_text.
    let out = parse_chunks(
        &weather_tools(),
        &[
            "<tool_call> <function=get_weather> <parameter=location>NYC</parameter> </function> </tool_call>",
            " Let me know if you need more.",
        ],
    );
    assert_eq!(out.normal_text, " Let me know if you need more.");
    assert_eq!(out.coalesce_calls().calls.len(), 1);
}

#[test]
fn preserves_inter_call_and_trailing_text() {
    // narration between two complete blocks flows into normal_text;
    // both calls are emitted with distinct indices.
    let out = parse_chunks(
        &weather_tools(),
        &[
            "I will check the weather. <tool_call> <function=get_weather> <parameter=location>NYC</parameter> </function> </tool_call>",
            " Then check LA weather. <tool_call> <function=get_weather> <parameter=location>LA</parameter> </function> </tool_call>",
        ],
    );
    assert_eq!(
        out.normal_text,
        "I will check the weather.  Then check LA weather. "
    );
    let merged = out.coalesce_calls();
    assert_eq!(merged.calls.len(), 2);
    assert_eq!(merged.calls[0].arguments, r#"{"location":"NYC"}"#);
    assert_eq!(merged.calls[1].arguments, r#"{"location":"LA"}"#);
}

#[test]
fn suppresses_incomplete_function_at_eof() {
    let out = parse_chunks(
        &weather_tools(),
        &[
            "<tool_call> <function=get_weather>",
            " <parameter=location> NY",
        ],
    );
    assert_eq!(out.normal_text, "");
    assert!(out.calls.is_empty());
}

#[test]
fn holds_back_split_orphan_close() {
    // A stray/orphan `</tool_call>` split across a chunk boundary with no tool
    // call open must NOT leak its first half ("</tool") into normal_text: the
    // partial close is held back until the next chunk completes the marker, at
    // which point the orphan-close handler drops it entirely.
    let out = parse_chunks(&weather_tools(), &["done </tool", "_call> ok"]);
    assert!(out.calls.is_empty());
    assert!(
        !out.normal_text.contains('<'),
        "markup fragment leaked into normal_text: {:?}",
        out.normal_text
    );
    assert_eq!(out.normal_text, "done  ok");
}

#[test]
fn preserves_source_parameter_order() {
    // path, old_str, new_str, command is deliberately NOT alphabetical: the
    // serialized arguments must keep the model-emitted parameter order.
    let tools = vec![Tool {
        name: "file_editor".to_string(),
        description: None,
        parameters: schema(
            r#"{
                "type": "object",
                "properties": {
                    "path": {"type": "string"},
                    "old_str": {"type": "string"},
                    "new_str": {"type": "string"},
                    "command": {"type": "string"}
                }
            }"#,
        ),
        strict: None,
    }];
    let out = parse_chunks(
        &tools,
        &[
            "<tool_call> <function=file_editor>",
            " <parameter=path>/app/x.go</parameter>",
            " <parameter=old_str>foo</parameter>",
            " <parameter=new_str>bar</parameter>",
            " <parameter=command>str_replace</parameter>",
            " </function> </tool_call>",
        ],
    );
    assert_eq!(out.calls.len(), 1);
    assert_eq!(
        out.calls[0].arguments,
        r#"{"path":"/app/x.go","old_str":"foo","new_str":"bar","command":"str_replace"}"#
    );
}

const FUNCTION: &str = "<function=get_weather><parameter=location>NYC</parameter></function>";

#[test]
fn where_a_qwen_stream_is_cut_does_not_matter() {
    let stream = format!(
        "Hi <b> {FUNCTION} x </tool_call> y <tool_call>{FUNCTION}</tool_call> z </function> <tool_"
    );
    let whole = parse_chunks(&weather_tools(), &[&stream]);
    assert_eq!(whole.normal_text, "Hi <b>  y  z </function> <tool_");
    assert_eq!(whole.calls.len(), 2);
    for cut in 0..=stream.len() {
        let halves = [&stream[..cut], &stream[cut..]];
        assert_eq!(parse_chunks(&weather_tools(), &halves), whole);
    }
}

#[test]
fn text_in_a_block_without_a_call_is_dropped() {
    let out = parse_chunks(&weather_tools(), &["a<tool_call> b <function=></function> c</tool_call>d"]);
    assert_eq!(out.normal_text, "ad");
    assert!(out.calls.is_empty());
}

#[test]
fn an_invoke_may_go_past_the_end_of_its_block() {
    let out = parse_chunks(
        &weather_tools(),
        &["<tool_call><function=get_weather><parameter=location>a</tool_call>b</parameter></function>"],
    );
    assert_eq!(out.calls.len(), 1);
    assert_eq!(out.calls[0].arguments, r#"{"location":"a</tool_call>b"}"#);
}

fn typed(declared: &str, value: &str) -> String {
    let tools = vec![Tool {
        name: "f".to_string(),
        description: None,
        parameters: schema(&format!(r#"{{"properties": {{"x": {declared}}}}}"#)),
        strict: None,
    }];
    let stream = format!("<function=f><parameter=x>{value}</parameter></function>");
    parse_chunks(&tools, &[&stream]).calls[0].arguments.clone()
}

#[test]
fn values_are_typed_by_the_schema() {
    assert_eq!(typed(r#"{"type": "string"}"#, " 1 "), r#"{"x":"1"}"#);
    assert_eq!(typed(r#"{"type": "integer"}"#, " 1 "), r#"{"x":1}"#);
    assert_eq!(typed(r#"{"type": "integer"}"#, "one"), r#"{"x":"one"}"#);
    assert_eq!(typed(r#"{"type": "object"}"#, r#"{"b": 1, "a": 2}"#), r#"{"x":{"a":2,"b":1}}"#);
    assert_eq!(typed("{}", "1"), r#"{"x":"1"}"#);
    assert_eq!(typed(r#"{"type": ["integer", "null"]}"#, "1"), r#"{"x":"1"}"#);
    assert_eq!(typed("true", "1"), r#"{"x":"1"}"#);
}

#[test]
fn a_tool_that_is_not_offered_has_string_arguments() {
    let out = parse_chunks(&weather_tools(), &["<function=g><parameter=n>1</parameter></function>"]);
    assert_eq!(out.calls[0].name.as_deref(), Some("g"));
    assert_eq!(out.calls[0].arguments, r#"{"n":"1"}"#);
}

#[test]
fn names_may_stand_between_quotes_and_repeat() {
    let out = parse_chunks(
        &[],
        &["<function= \"f\" ><parameter=\" b \">1</parameter><parameter=a>2</parameter><parameter=b>3</parameter><parameter=>4</parameter></function>"],
    );
    assert_eq!(out.calls[0].name.as_deref(), Some("f"));
    assert_eq!(out.calls[0].arguments, r#"{"b":"3","a":"2"}"#);
}

#[test]
fn a_parameter_without_its_closer_goes_to_the_end() {
    let out = parse_chunks(&[], &["<function=f><parameter=a> x </function>"]);
    assert_eq!(out.calls[0].arguments, r#"{"a":"x"}"#);
    let out = parse_chunks(&[], &["<function=f> no parameters </function>"]);
    assert_eq!(out.calls[0].arguments, "{}");
}

#[test]
fn parameter_names_come_in_source_order() {
    let names = source_parameter_order("<parameter=b>1</parameter><parameter= \"a\" ><parameter=><parameter=b>x<parameter=c");
    assert_eq!(names, vec!["b".to_string(), "a".to_string(), "b".to_string()]);
}

#[test]
fn every_closer_is_removed_where_it_stands() {
    let out = parse_chunks(&[], &["a</tool_call>b</tool_call></tool_call>c"]);
    assert_eq!(out.normal_text, "abc");
    let out = parse_chunks(&[], &["</tool</tool_call>_call>"]);
    assert_eq!(out.normal_text, "</tool_call>");
}
