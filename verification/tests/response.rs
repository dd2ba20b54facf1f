use dynamo_parsers::response::{ToolCallDelta, ToolParseResult};

fn delta(tool_index: usize, name: Option<&str>, arguments: &str) -> ToolCallDelta {
    ToolCallDelta {
        tool_index,
        name: name.map(|name| name.to_string()),
        arguments: arguments.to_string(),
    }
}

#[test]
fn appending_puts_text_and_calls_in_a_row() {
    let mut first = ToolParseResult {
        normal_text: "a".to_string(),
        calls: vec![delta(0, Some("f"), "{")],
    };
    first.append(ToolParseResult {
        normal_text: "b".to_string(),
        calls: vec![delta(0, None, "}")],
    });
    assert_eq!(first.normal_text, "ab");
    assert_eq!(first.calls, vec![delta(0, Some("f"), "{"), delta(0, None, "}")]);
}

#[test]
fn the_default_holds_nothing() {
    let nothing = ToolParseResult::default();
    assert_eq!(nothing.normal_text, "");
    assert!(nothing.calls.is_empty());
}

#[test]
fn coalescing_leaves_one_delta_for_each_call() {
    let result = ToolParseResult {
        normal_text: "text".to_string(),
        calls: vec![
            delta(1, None, "{\"a\""),
            delta(0, Some("f"), "{}"),
            delta(1, Some("g"), ":1"),
            delta(1, Some("h"), "}"),
        ],
    };
    let merged = result.coalesce_calls();
    assert_eq!(merged.normal_text, "text");
    assert_eq!(
        merged.calls,
        vec![delta(1, Some("g"), "{\"a\":1}"), delta(0, Some("f"), "{}")]
    );
}
