use dynamo_parsers::error::ToolCallError;
use dynamo_parsers::format::StructuralTag;
use dynamo_parsers::json::JsonValue;
use dynamo_parsers::kimi_k3::{
    parse_call_at, try_tool_call_parse_kimi_k3, KimiK3ParserConfig, MESSAGE_CLOSE, RESPONSE_CLOSE,
    RESPONSE_OPEN, TOOLS_CLOSE, TOOLS_OPEN,
};
use dynamo_parsers::structural_tag::{
    argument_tag, arguments_block, bounded_string_regex, build_kimi_k3, call_tag,
    StructuralTagSchemaMode, ToolCallFormatBuildContext, ToolChoice,
};
use dynamo_parsers::tools::ToolDefinition;
use serde_json::Value;

fn to_value(tag: StructuralTag) -> Value {
    serde_json::from_str(&tag.to_json().to_text()).unwrap()
}

fn tools() -> Vec<ToolDefinition> {
    vec![
        ToolDefinition {
            name: "get_weather".to_string(),
            parameters: JsonValue::from_text(
                r#"{
                    "type": "object",
                    "properties": {
                        "city": {"type": "string"},
                        "days": {"type": "integer"}
                    },
                    "required": ["city"]
                }"#,
            ),
            strict: None,
        },
        ToolDefinition {
            name: "run_command".to_string(),
            parameters: JsonValue::from_text(
                r#"{"type": "object", "properties": {"command": {"type": "string"}}}"#,
            ),
            strict: None,
        },
    ]
}

fn context<'a>(
    choice: &'a ToolChoice,
    tools: &'a [ToolDefinition],
) -> ToolCallFormatBuildContext<'a> {
    ToolCallFormatBuildContext {
        tool_choice: choice,
        tools,
        parallel_tool_calls: None,
        schema_mode: StructuralTagSchemaMode::Auto,
        starts_in_reasoning: false,
    }
}

#[test]
fn named_choice_requires_only_selected_xtml_call() {
    let tools = tools();
    let choice = ToolChoice::Named("get_weather".to_string());
    let value =
        to_value(build_kimi_k3(&context(&choice, &tools)).unwrap().unwrap());

    assert_eq!(value["type"], "structural_tag");
    assert_eq!(value["format"]["type"], "sequence");
    let tools_tag = &value["format"]["elements"][2];
    assert_eq!(tools_tag["begin"], TOOLS_OPEN);
    let calls = tools_tag["content"]["tags"].as_array().unwrap();
    assert_eq!(calls.len(), 1);
    assert!(
        calls[0]["begin"]
            .as_str()
            .unwrap()
            .contains("tool=\"get_weather\"")
    );
    assert!(
        !value.to_string().contains("tool=\\\"run_command\\\""),
        "a named choice must exclude every other tool"
    );
}

#[test]
fn named_choice_requires_an_empty_response_body() {
    let tools = tools();
    let choice = ToolChoice::Named("get_weather".to_string());
    let value =
        to_value(build_kimi_k3(&context(&choice, &tools)).unwrap().unwrap());

    let response_body = &value["format"]["elements"][1]["content"];
    assert_eq!(response_body["type"], "const_string");
    assert_eq!(response_body["value"], "");
}

#[test]
fn non_named_choices_keep_the_existing_response_body() {
    let tools = tools();

    for choice in [ToolChoice::Auto, ToolChoice::Required] {
        let value =
            to_value(build_kimi_k3(&context(&choice, &tools)).unwrap().unwrap());
        let response_body = &value["format"]["elements"][1]["content"];

        assert_eq!(
            response_body["type"], "any_text",
            "{choice:?} must retain response text"
        );
        assert_eq!(
            response_body["excludes"],
            Value::Array(vec![]),
            "{choice:?} must retain the existing unrestricted response body"
        );
    }
}

#[test]
fn named_choice_is_mandatory_and_auto_is_optional() {
    let tools = tools();
    let named = ToolChoice::Named("get_weather".to_string());
    let named_value =
        to_value(build_kimi_k3(&context(&named, &tools)).unwrap().unwrap());
    assert_eq!(named_value["format"]["elements"][2]["type"], "tag");

    let auto = ToolChoice::Auto;
    let auto_value =
        to_value(build_kimi_k3(&context(&auto, &tools)).unwrap().unwrap());
    assert_eq!(auto_value["format"]["elements"][2]["type"], "optional");
}

#[test]
fn named_choice_keeps_declared_argument_schema() {
    let tools = tools();
    let choice = ToolChoice::Named("get_weather".to_string());
    let value =
        to_value(build_kimi_k3(&context(&choice, &tools)).unwrap().unwrap());
    let call = &value["format"]["elements"][2]["content"]["tags"][0];
    let argument_alternatives = &call["content"]["elements"][2]["content"]["elements"];
    assert!(
        argument_alternatives
            .to_string()
            .contains("key=\\\"city\\\"")
    );
    assert!(
        argument_alternatives
            .to_string()
            .contains("key=\\\"days\\\"")
    );
}

#[test]
fn explicit_non_strict_tool_uses_vllm_permissive_argument_shape() {
    let tools = vec![ToolDefinition {
        name: "get_weather".to_string(),
        parameters: JsonValue::from_text(
            r#"{"type": "object", "properties": {"city": {"type": "string"}}}"#,
        ),
        strict: Some(false),
    }];
    let choice = ToolChoice::Named("get_weather".to_string());
    let value =
        to_value(build_kimi_k3(&context(&choice, &tools)).unwrap().unwrap());
    let call = &value["format"]["elements"][2]["content"]["tags"][0];
    let arguments = &call["content"]["elements"][2];

    assert_eq!(arguments["type"], "star");
    assert_eq!(arguments["content"]["begin"], "<|open|>argument ");
    assert!(
        !arguments.to_string().contains("key=\\\"city\\\""),
        "vLLM treats strict=false as a permissive argument schema"
    );
}

#[test]
fn parallel_false_stops_after_the_first_k3_call() {
    let tools = tools();
    let choice = ToolChoice::Required;
    let ctx = ToolCallFormatBuildContext {
        tool_choice: &choice,
        tools: &tools,
        parallel_tool_calls: Some(false),
        schema_mode: StructuralTagSchemaMode::Auto,
        starts_in_reasoning: false,
    };
    let value = to_value(build_kimi_k3(&ctx).unwrap().unwrap());

    assert_eq!(
        value["format"]["elements"][2]["content"]["stop_after_first"],
        true
    );
}

fn schema(text: &str) -> JsonValue {
    JsonValue::from_text(text).unwrap()
}

fn tool(name: &str, parameters: &str) -> ToolDefinition {
    ToolDefinition {
        name: name.to_string(),
        parameters: JsonValue::from_text(parameters),
        strict: None,
    }
}

fn argument(schema_text: &str) -> Value {
    let tag = argument_tag("k", &schema(schema_text), &vec![]).unwrap();
    serde_json::from_str(&tag.to_json().to_text()).unwrap()
}

#[test]
fn a_tool_that_is_not_offered_is_an_error() {
    let tools = tools();
    let choice = ToolChoice::Named("unknown".to_string());
    let error = build_kimi_k3(&context(&choice, &tools)).unwrap_err();
    assert!(matches!(&error, ToolCallError::UnknownTool(name) if name == "unknown"));
    assert_eq!(error.message(), "no tool is named 'unknown'");
}

#[test]
fn without_tools_there_is_no_tag() {
    let offered = tools();
    assert!(build_kimi_k3(&context(&ToolChoice::NoTools, &offered)).unwrap().is_none());
    for choice in [ToolChoice::Auto, ToolChoice::Required] {
        assert!(build_kimi_k3(&context(&choice, &[])).unwrap().is_none());
    }
}

#[test]
fn required_choice_lists_every_tool() {
    let offered = tools();
    let value = to_value(build_kimi_k3(&context(&ToolChoice::Required, &offered)).unwrap().unwrap());
    let section = &value["format"]["elements"][2];
    assert_eq!(section["type"], "tag");
    assert_eq!(section["end"], TOOLS_CLOSE);
    assert_eq!(section["content"]["type"], "tags_with_separator");
    assert_eq!(section["content"]["separator"], "");
    assert_eq!(section["content"]["at_least_one"], true);
    assert_eq!(section["content"]["stop_after_first"], false);
    let begins: Vec<&str> = section["content"]["tags"]
        .as_array()
        .unwrap()
        .iter()
        .map(|tag| tag["begin"].as_str().unwrap())
        .collect();
    assert_eq!(
        begins,
        vec![
            "<|open|>call tool=\"get_weather\" index=\"",
            "<|open|>call tool=\"run_command\" index=\"",
        ]
    );
    assert_eq!(value["format"]["elements"][0]["type"], "optional");
    assert_eq!(value["format"]["elements"][0]["content"]["value"], RESPONSE_OPEN);
    assert_eq!(value["format"]["elements"][1]["begin"], "");
    assert_eq!(value["format"]["elements"][1]["end"], RESPONSE_CLOSE);
    assert_eq!(value["format"]["elements"][3]["content"]["value"], MESSAGE_CLOSE);
}

#[test]
fn strict_schemas_override_the_opt_out() {
    let mut offered = tools();
    offered[0].strict = Some(false);
    let choice = ToolChoice::Named("get_weather".to_string());
    let mut ctx = context(&choice, &offered);
    ctx.schema_mode = StructuralTagSchemaMode::Strict;
    let value = to_value(build_kimi_k3(&ctx).unwrap().unwrap());
    assert!(value.to_string().contains("key=\\\"city\\\""));
}

#[test]
fn string_arguments_follow_their_schema() {
    let any = argument(r#"{"type": "string"}"#);
    assert_eq!(any["begin"], "<|open|>argument key=\"k\" type=\"string\"<|sep|>");
    assert_eq!(any["end"], "<|close|>argument<|sep|>");
    assert_eq!(any["content"]["type"], "any_text");
    assert_eq!(any["content"]["excludes"][0], "<|close|>");
    let listed = argument(r#"{"type": "string", "enum": ["a", "b"], "const": "c"}"#);
    assert_eq!(listed["content"]["type"], "or");
    assert_eq!(listed["content"]["elements"][1]["value"], "b");
    let fixed = argument(r#"{"type": "string", "const": "c"}"#);
    assert_eq!(fixed["content"]["type"], "const_string");
    assert_eq!(fixed["content"]["value"], "c");
    for open in [
        r#"{"type": "string", "enum": []}"#,
        r#"{"type": "string", "enum": ["a", 1], "const": "c"}"#,
        r#"{"type": "string", "enum": ["<|x"]}"#,
    ] {
        assert_eq!(argument(open)["content"]["type"], "any_text", "{open}");
    }
}

#[test]
fn long_lists_of_values_are_not_listed() {
    let list = |count: usize| {
        let values: Vec<String> = (0..count).map(|value| format!("\"{value}\"")).collect();
        argument(&format!(r#"{{"type": "string", "enum": [{}]}}"#, values.join(",")))
    };
    assert_eq!(list(256)["content"]["type"], "or");
    assert_eq!(list(257)["content"]["type"], "any_text");
}

#[test]
fn bounded_strings_have_a_pattern() {
    let pattern = |text: &str| bounded_string_regex(schema(text).as_object().unwrap());
    assert_eq!(
        pattern(r#"{"maxLength": 12, "minLength": 3}"#),
        Some("(?:[^<]|<[^|]){3,12}".to_string())
    );
    assert_eq!(
        pattern(r#"{"maxLength": 4096, "minLength": 5000}"#),
        Some("(?:[^<]|<[^|]){0,4096}".to_string())
    );
    assert_eq!(pattern(r#"{"maxLength": 0}"#), Some("(?:[^<]|<[^|]){0,0}".to_string()));
    assert_eq!(pattern(r#"{"maxLength": 4097}"#), None);
    assert_eq!(pattern(r#"{"maxLength": 1.5}"#), None);
    assert_eq!(pattern(r#"{"minLength": 1}"#), None);
    assert_eq!(argument(r#"{"type": "string", "maxLength": 2}"#)["content"]["type"], "regex");
}

#[test]
fn other_arguments_embed_their_schema_and_shared_definitions() {
    let value = arguments_block(Some(&schema(
        r##"{
            "$defs": {"A": {"type": "null"}},
            "definitions": 1,
            "properties": {
                "n": {"type": "integer"},
                "o": {"type": "object", "$defs": {}},
                "u": {"type": ["string", "null"]}
            }
        }"##,
    )));
    let value: Value = serde_json::from_str(&value.to_json().to_text()).unwrap();
    assert_eq!(value["type"], "star");
    let elements = &value["content"]["elements"];
    assert_eq!(elements[0]["begin"], "<|open|>argument key=\"n\" type=\"number\"<|sep|>");
    assert_eq!(elements[0]["content"]["type"], "json_schema");
    assert_eq!(
        elements[0]["content"]["json_schema"].to_string(),
        r#"{"$defs":{"A":{"type":"null"}},"type":"integer"}"#
    );
    assert_eq!(
        elements[1]["content"]["json_schema"].to_string(),
        r#"{"$defs":{},"type":"object"}"#
    );
    assert_eq!(elements[2]["begin"], "<|open|>argument ");
    assert_eq!(elements[2]["content"]["elements"][0]["pattern"], r"[^<]*<\|sep\|>");
}

#[test]
fn without_properties_any_argument_is_allowed() {
    for parameters in ["{}", "[]", r#"{"properties": {}}"#, r#"{"properties": 1}"#] {
        let format = arguments_block(Some(&schema(parameters)));
        let value: Value = serde_json::from_str(&format.to_json().to_text()).unwrap();
        assert_eq!(value["type"], "star");
        assert_eq!(value["content"]["begin"], "<|open|>argument ");
    }
}

#[test]
fn what_a_call_tag_lets_through_is_read_as_a_call() {
    let offered = vec![tool("a\"&b", r#"{"properties": {"x": {"type": "integer"}}}"#)];
    let tag = call_tag(&offered[0], false);
    let argument = argument_tag("k&", &schema(r#"{"type": "integer"}"#), &vec![]).unwrap();
    let message = format!(
        "{TOOLS_OPEN}{}12\"<|sep|>{}[1 , 2]{}{}{TOOLS_CLOSE}",
        tag.begin, argument.begin, argument.end, tag.end
    );
    let (calls, _) =
        try_tool_call_parse_kimi_k3(&message, &KimiK3ParserConfig::default(), None).unwrap();
    assert_eq!(calls.len(), 1);
    assert_eq!(calls[0].id, "a\"&b:11");
    assert_eq!(calls[0].function.name, "a\"&b");
    assert_eq!(calls[0].function.arguments, r#"{"k&":[1,2]}"#);
}

#[test]
fn a_call_tag_without_arguments_is_read_back() {
    for (name, number, id) in [
        ("f", "1", "f:0"),
        ("a\"&b", "10", "a\"&b:9"),
        ("<|close|>", "9223372036854775807", "<|close|>:9223372036854775806"),
    ] {
        let tag = call_tag(&tool(name, "{}"), true);
        let text = format!("{}{number}\"<|sep|>{}", tag.begin, tag.end);
        let input: Vec<char> = format!("{text}rest").chars().collect();
        let (call, used) = parse_call_at(&input, false).unwrap();
        let call = call.unwrap();
        assert_eq!(used, text.chars().count());
        assert_eq!(call.id, id);
        assert_eq!(call.function.name, name);
        assert_eq!(call.function.arguments, "{}");
    }
}
