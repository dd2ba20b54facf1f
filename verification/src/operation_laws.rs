//! What the public operations give, told in terms of what is handed to them.
use crate::arguments::reorder_arguments;
use crate::attributes::{attr_of, attr_value, attrs_view};
use crate::attributes_laws::lemma_attr_of;
use crate::call_format_laws::{lemma_choices, lemma_named_tool};
use crate::compact::compacted;
use crate::error::ToolCallError;
use crate::families::{
    create_tool_parser_for_family, family_names, lemma_registered, DelegatedFamily, FamilyParser,
};
use crate::format::StructuralTag;
use crate::json::{items_view, json_parsed, lemma_items_view, quoted, JsonModel, JsonValue};
use crate::kimi_k2::{checked_arguments, KimiK2ToolStreamParser};
use crate::kimi_k3::{
    boundary_texts, calls_in, detect_tool_call_start_kimi_k3, encode_parsed_value,
    find_tool_call_end_position_kimi_k3, holds_marker, try_tool_call_parse_kimi_k3,
    KimiK3ParserConfig, RESPONSE_CLOSE, RESPONSE_OPEN, TOOLS_CLOSE, TOOLS_OPEN,
};
use crate::kimi_k3_message_laws::{
    comes_behind, is_next_boundary, is_unended, lemma_behind, lemma_boundaries,
    lemma_calls_of_open_section, lemma_calls_of_section, lemma_response_channel,
    lemma_span_of_boundary,
};
use crate::python::{exprs_view, lemma_exprs_view, python_parsed, PyExpr, PyModel};
use crate::pythonic::{
    call_lists, const_expr, constant, detect_tool_call_start_pythonic, expression_calls,
    parse_first_list, text_before, try_tool_call_parse_pythonic, without_python_tags,
};
use crate::pythonic_laws::lemma_list_constant;
use crate::qwen3_coder::{type_parsed_value, Qwen3CoderToolStreamParser};
use crate::request_laws::{lemma_family_names, lemma_known_tools};
use crate::response::{
    calls_view, coalesced, CallModel, ParseModel, ToolCallDelta, ToolCallResponse, ToolParseResult,
};
use crate::scan::{same_run, ScanState};
use crate::structural_tag::{
    build_kimi_k3, message_format, references_view, resolve_tools_to_include, ChoiceModel,
    StructuralTagSchemaMode, ToolCallFormatBuildContext, ToolChoice,
};
use crate::text::{first_index, occurs};
use crate::text_laws::{ends_solid, is_blank, lemma_trim_of, starts_solid};
use crate::tools::{definitions_view, Tool, ToolDefinition};
use vstd::prelude::*;
use vstd::utf8::encode_utf8;

verus! {

broadcast use {lemma_exprs_view, lemma_items_view};

/// The model may make one call only where parallel calls are turned off, and nowhere else.
pub proof fn lemma_stop_after_first(ctx: &ToolCallFormatBuildContext, stop: bool)
    requires
        call_ensures(ToolCallFormatBuildContext::stop_after_first, (ctx,), stop),
    ensures
        stop <==> ctx.parallel_tool_calls == Some(false),
{
}

/// Every schema holds in strict mode, and only there.
pub proof fn lemma_strict_schema(ctx: &ToolCallFormatBuildContext, strict: bool)
    requires
        call_ensures(ToolCallFormatBuildContext::strict_schema, (ctx,), strict),
    ensures
        strict <==> ctx.schema_mode == StructuralTagSchemaMode::Strict,
{
}

/// Both stream parsers want the special tokens in the text.
pub proof fn lemma_special_tokens(
    kimi: &KimiK2ToolStreamParser,
    qwen: &Qwen3CoderToolStreamParser,
    preserve: bool,
)
    requires
        call_ensures(KimiK2ToolStreamParser::preserve_special_tokens, (kimi,), preserve)
            || call_ensures(Qwen3CoderToolStreamParser::preserve_special_tokens, (qwen,), preserve),
    ensures
        preserve,
{
}

/// What the tools of a request come to: none where tools are turned off, the one that is named,
/// and all of them in order otherwise. One must be called where it is named, or where a call
/// is required.
pub proof fn lemma_tools_resolved(
    ctx: &ToolCallFormatBuildContext,
    chosen: Result<(Vec<&ToolDefinition>, bool), ToolCallError>,
)
    requires
        call_ensures(resolve_tools_to_include, (ctx,), chosen),
    ensures
        *ctx.tool_choice is NoTools ==> (chosen matches Ok((tools, _)) && tools@.len() == 0),
        *ctx.tool_choice is Auto || *ctx.tool_choice is Required ==> (chosen matches Ok(
            (tools, must),
        ) && tools@.len() == ctx.tools@.len() && (forall|k: int|
            0 <= k < tools@.len() ==> (#[trigger] tools@[k])@ == ctx.tools@[k]@) && must == (
        *ctx.tool_choice is Required)),
        forall|k: int|
            is_first_named(ctx, k) ==> (chosen matches Ok((tools, must)) && tools@.len() == 1
                && tools@[0]@ == (#[trigger] ctx.tools@[k])@ && must),
        names_no_tool(ctx) ==> chosen is Err,
{
    let tools = definitions_view(ctx.tools@);
    lemma_choices(tools);
    if let Ok((found, _)) = chosen {
        assert(references_view(found@).len() == found@.len());
        assert(forall|k: int|
            0 <= k < found@.len() ==> references_view(found@)[k] == (#[trigger] found@[k])@);
    }
    assert(forall|k: int|
        0 <= k < ctx.tools@.len() ==> tools[k] == (#[trigger] ctx.tools@[k])@);
    if let ToolChoice::Named(name) = *ctx.tool_choice {
        lemma_named_tool(tools, name@, 0);
        assert forall|k: int| is_first_named(ctx, k) implies (chosen matches Ok((found, must))
            && found@.len() == 1 && found@[0]@ == (#[trigger] ctx.tools@[k])@ && must) by {
            lemma_named_tool(tools, name@, k);
        }
    }
}

/// Tool `k` is the first with the name that the request gives.
pub open spec fn is_first_named(ctx: &ToolCallFormatBuildContext, k: int) -> bool {
    *ctx.tool_choice matches ToolChoice::Named(name) && {
        &&& 0 <= k < ctx.tools@.len()
        &&& ctx.tools@[k].name@ == name@
        &&& forall|j: int| 0 <= j < k ==> (#[trigger] ctx.tools@[j]).name@ != name@
    }
}

/// The request names a tool that it does not offer.
pub open spec fn names_no_tool(ctx: &ToolCallFormatBuildContext) -> bool {
    *ctx.tool_choice matches ToolChoice::Named(name) && forall|j: int|
        0 <= j < ctx.tools@.len() ==> (#[trigger] ctx.tools@[j]).name@ != name@
}

/// There is no structural tag where there is nothing to call, and an error with the name where
/// a tool is named that is not offered.
pub proof fn lemma_nothing_built(
    ctx: &ToolCallFormatBuildContext,
    built: Result<Option<StructuralTag>, ToolCallError>,
)
    requires
        call_ensures(build_kimi_k3, (ctx,), built),
    ensures
        *ctx.tool_choice is NoTools ==> built == Ok::<
            Option<StructuralTag>,
            ToolCallError,
        >(None),
        ctx.tools@.len() == 0 && !(*ctx.tool_choice is Named) ==> built == Ok::<
            Option<StructuralTag>,
            ToolCallError,
        >(None),
        names_no_tool(ctx) ==> (built matches Err(ToolCallError::UnknownTool(name))
            && *ctx.tool_choice matches ToolChoice::Named(wanted) && name@ == wanted@),
{
    let tools = definitions_view(ctx.tools@);
    lemma_choices(tools);
    assert(tools.len() == ctx.tools@.len());
    if let ToolChoice::Named(name) = *ctx.tool_choice {
        assert(forall|k: int|
            0 <= k < ctx.tools@.len() ==> tools[k] == (#[trigger] ctx.tools@[k])@);
        lemma_named_tool(tools, name@, 0);
        assert(ctx.tool_choice@ == ChoiceModel::Named(name@));
    }
}

/// The structural tag holds all tools, and a call is due only where one is required. Schemas
/// are held to strictly in strict mode only, and one call is made only where parallel calls
/// are turned off.
pub proof fn lemma_format_built(
    ctx: &ToolCallFormatBuildContext,
    built: Result<Option<StructuralTag>, ToolCallError>,
)
    requires
        call_ensures(build_kimi_k3, (ctx,), built),
        *ctx.tool_choice is Auto || *ctx.tool_choice is Required,
        ctx.tools@.len() > 0,
    ensures
        built matches Ok(Some(tag)) && tag.format@ == message_format(
            definitions_view(ctx.tools@),
            *ctx.tool_choice is Required,
            false,
            ctx.schema_mode == StructuralTagSchemaMode::Strict,
            ctx.parallel_tool_calls == Some(false),
        ),
{
    let tools = definitions_view(ctx.tools@);
    lemma_choices(tools);
    assert(tools.len() == ctx.tools@.len());
}

/// The structural tag for a named tool holds this one only, and a call of it is due.
pub proof fn lemma_named_format_built(
    ctx: &ToolCallFormatBuildContext,
    built: Result<Option<StructuralTag>, ToolCallError>,
    k: int,
)
    requires
        call_ensures(build_kimi_k3, (ctx,), built),
        is_first_named(ctx, k),
    ensures
        built matches Ok(Some(tag)) && tag.format@ == message_format(
            seq![ctx.tools@[k]@],
            true,
            true,
            ctx.schema_mode == StructuralTagSchemaMode::Strict,
            ctx.parallel_tool_calls == Some(false),
        ),
{
    let tools = definitions_view(ctx.tools@);
    if let ToolChoice::Named(name) = *ctx.tool_choice {
        assert(forall|j: int|
            0 <= j < ctx.tools@.len() ==> tools[j] == (#[trigger] ctx.tools@[j])@);
        lemma_named_tool(tools, name@, k);
    }
}

/// The calls are those of the models, each with its identifier, name and arguments.
pub open spec fn are_calls(calls: Seq<ToolCallResponse>, models: Seq<CallModel>) -> bool {
    calls.len() == models.len() && forall|k: int|
        0 <= k < calls.len() ==> {
            &&& (#[trigger] calls[k]).id@ == models[k].id
            &&& calls[k].function.name@ == models[k].name
            &&& calls[k].function.arguments@ == models[k].arguments
        }
}

proof fn lemma_are_calls(calls: Seq<ToolCallResponse>, models: Seq<CallModel>)
    requires
        calls_view(calls) == models,
    ensures
        are_calls(calls, models),
{
    assert(calls_view(calls).len() == calls.len());
    assert forall|k: int| 0 <= k < calls.len() implies {
        &&& (#[trigger] calls[k]).id@ == models[k].id
        &&& calls[k].function.name@ == models[k].name
        &&& calls[k].function.arguments@ == models[k].arguments
    } by {
        assert(calls_view(calls)[k] == calls[k]@);
    }
}

/// A message of Kimi K3 with a response and a tools section gives the text of the response and
/// the calls of the section.
pub proof fn lemma_kimi_k3_message(
    message: &str,
    config: &KimiK3ParserConfig,
    tools: Option<&[ToolDefinition]>,
    parsed: Result<(Vec<ToolCallResponse>, Option<String>), ToolCallError>,
    body: Seq<char>,
    region: Seq<char>,
    rest: Seq<char>,
)
    requires
        call_ensures(try_tool_call_parse_kimi_k3, (message, config, tools), parsed),
        message@ == RESPONSE_OPEN@ + (body + RESPONSE_CLOSE@ + (TOOLS_OPEN@ + (region
            + TOOLS_CLOSE@ + rest))),
        is_unended(message@),
        comes_behind(Seq::empty(), RESPONSE_OPEN@),
        comes_behind(body, RESPONSE_CLOSE@),
        comes_behind(RESPONSE_OPEN@ + (body + RESPONSE_CLOSE@), TOOLS_OPEN@),
        first_index(
            body + RESPONSE_CLOSE@ + (TOOLS_OPEN@ + (region + TOOLS_CLOSE@ + rest)),
            TOOLS_OPEN@,
        ) matches Some(at) ==> body.len() <= at,
        comes_behind(region, TOOLS_CLOSE@),
    ensures
        parsed matches Ok((calls, Some(text))) && text@ == body && are_calls(
            calls@,
            calls_in(region, false),
        ),
{
    let nothing = Seq::<char>::empty();
    let tail = TOOLS_OPEN@ + (region + TOOLS_CLOSE@ + rest);
    assert(nothing + RESPONSE_OPEN@ + (body + RESPONSE_CLOSE@ + tail) =~= message@);
    lemma_response_channel(nothing, body, tail);
    let before = RESPONSE_OPEN@ + (body + RESPONSE_CLOSE@);
    assert(before + TOOLS_OPEN@ + (region + TOOLS_CLOSE@ + rest) =~= message@);
    lemma_calls_of_section(before, region, rest, config.allow_eof_recovery);
    if let Ok((calls, _)) = parsed {
        lemma_are_calls(calls@, calls_in(region, false));
    }
}

/// A tools section that has not been closed counts only where the configuration says that the
/// output has ended.
pub proof fn lemma_kimi_k3_open_section(
    message: &str,
    config: &KimiK3ParserConfig,
    tools: Option<&[ToolDefinition]>,
    parsed: Result<(Vec<ToolCallResponse>, Option<String>), ToolCallError>,
    before: Seq<char>,
    region: Seq<char>,
)
    requires
        call_ensures(try_tool_call_parse_kimi_k3, (message, config, tools), parsed),
        message@ == before + TOOLS_OPEN@ + region,
        is_unended(message@),
        comes_behind(before, TOOLS_OPEN@),
        !occurs(region, TOOLS_CLOSE@),
    ensures
        parsed matches Ok((calls, Some(_))) && are_calls(
            calls@,
            if config.allow_eof_recovery {
                calls_in(region, true)
            } else {
                Seq::empty()
            },
        ),
{
    lemma_calls_of_open_section(before, region);
    if let Ok((calls, _)) = parsed {
        lemma_are_calls(
            calls@,
            if config.allow_eof_recovery {
                calls_in(region, true)
            } else {
                Seq::empty()
            },
        );
    }
}

/// A chunk is held back where one of the nine boundaries stands in it, or may stand at its end,
/// and nowhere else.
pub proof fn lemma_kimi_k3_start(
    chunk: &str,
    config: &KimiK3ParserConfig,
    found: bool,
    marker: Seq<char>,
)
    requires
        call_ensures(detect_tool_call_start_kimi_k3, (chunk, config), found),
    ensures
        boundary_texts().contains(marker) && holds_marker(chunk@, marker) ==> found,
        (forall|text: Seq<char>|
            boundary_texts().contains(text) ==> !#[trigger] holds_marker(chunk@, text)) ==> !found,
        marker == "<|open|>response<|sep|>"@ || marker == "<|open|>tools<|sep|>"@ || marker
            == "<|open|>call"@ || marker == "<|end_of_msg|>"@ ==> boundary_texts().contains(
            marker,
        ),
{
    lemma_boundaries(marker);
    if boundary_texts().contains(marker) {
        let k = choose|k: int| 0 <= k < boundary_texts().len() && boundary_texts()[k] == marker;
        assert(boundary_texts()[k] == marker);
    }
}

/// The end of a tools section is that of its closer, and the end of a boundary that opens none
/// and no call is its own; both in bytes from the start of the chunk.
pub proof fn lemma_kimi_k3_end(
    chunk: &str,
    config: &KimiK3ParserConfig,
    position: Option<usize>,
    text: Seq<char>,
    boundary: Seq<char>,
    region: Seq<char>,
    rest: Seq<char>,
)
    requires
        call_ensures(find_tool_call_end_position_kimi_k3, (chunk, config), position),
        chunk@ == text + boundary + (region + TOOLS_CLOSE@ + rest),
        is_next_boundary(text, boundary, region + TOOLS_CLOSE@ + rest),
        is_unended(boundary + (region + TOOLS_CLOSE@ + rest)),
        boundary == TOOLS_OPEN@ ==> comes_behind(boundary + region, TOOLS_CLOSE@),
        boundary != "<|open|>call"@,
    ensures
        boundary == TOOLS_OPEN@ ==> (position matches Some(bytes) && bytes == encode_utf8(
            text + boundary + region + TOOLS_CLOSE@,
        ).len()),
        boundary != TOOLS_OPEN@ ==> (position matches Some(bytes) && bytes == encode_utf8(
            text + boundary,
        ).len()),
{
    lemma_span_of_boundary(text, boundary, region + TOOLS_CLOSE@ + rest);
    if boundary == TOOLS_OPEN@ {
        lemma_behind(boundary + region, TOOLS_CLOSE@, rest);
        assert(boundary + region + TOOLS_CLOSE@ + rest =~= boundary + (region + TOOLS_CLOSE@
            + rest));
        let end = text + boundary + region + TOOLS_CLOSE@;
        assert(chunk@.take(end.len() as int) =~= end);
    } else {
        assert(chunk@.take((text + boundary).len() as int) =~= text + boundary);
    }
}

/// The value of an argument of type `string` is a JSON string, also where its text is JSON; that
/// of any other type is its text in compact form where that is JSON, and a JSON string where
/// not.
pub proof fn lemma_argument_encoded(arg_type: &str, raw: &[char], is_json: bool, text: String)
    requires
        call_ensures(encode_parsed_value, (arg_type, raw, is_json), text),
    ensures
        arg_type@ == "string"@ ==> text@ == quoted(raw@),
        !is_json ==> text@ == quoted(raw@),
        arg_type@ != "string"@ && is_json ==> text@ == compacted(raw@),
{
}

/// A payload that is JSON is given in compact form, and any other as it is.
pub proof fn lemma_arguments_checked(payload: &[char], is_json: bool, text: String)
    requires
        call_ensures(checked_arguments, (payload, is_json), text),
    ensures
        is_json ==> text@ == compacted(payload@),
        !is_json ==> text@ == payload@,
{
}

/// A parameter is the JSON value of its text where its tool declares a type for it other than
/// `string`, and its text is JSON; it is a string otherwise.
pub proof fn lemma_parameter_typed(
    declared: Option<&str>,
    raw: &str,
    parsed: Option<JsonValue>,
    value: JsonValue,
)
    requires
        call_ensures(type_parsed_value, (declared, raw, parsed), value),
    ensures
        declared is None ==> value@ == JsonModel::Text(raw@),
        parsed is None ==> value@ == JsonModel::Text(raw@),
        declared matches Some(name) && name@ == "string"@ ==> value@ == JsonModel::Text(raw@),
        declared matches Some(name) && name@ != "string"@ ==> (parsed matches Some(json)
            ==> value@ == json@),
{
}

/// A list of Python constants is a JSON array of as many values, each that of the element at
/// its place.
pub proof fn lemma_list_evaluated(items: Vec<PyExpr>, value: Option<JsonValue>)
    requires
        call_ensures(const_expr, (&PyExpr::List(items),), value),
    ensures
        value is Some <==> forall|k: int|
            0 <= k < items@.len() ==> constant((#[trigger] items@[k])@) is Some,
        value matches Some(JsonValue::Array(values)) ==> values@.len() == items@.len() && forall|
            k: int,
        |
            0 <= k < items@.len() ==> constant((#[trigger] items@[k])@) == Some(values@[k]@),
        value matches Some(value) ==> value is Array,
{
    let models = exprs_view(items@);
    assert((PyExpr::List(items))@ == PyModel::List(models));
    assert(models.len() == items@.len());
    assert(forall|k: int| 0 <= k < items@.len() ==> models[k] == (#[trigger] items@[k])@);
    lemma_list_constant(models);
    if let Some(value) = value {
        if let JsonValue::Array(values) = value {
            assert(value@ == JsonModel::Array(items_view(values@)));
        }
    }
}

/// A list may begin in a chunk with an opening bracket, and in no other.
pub proof fn lemma_pythonic_start(chunk: &str, found: bool)
    requires
        call_ensures(detect_tool_call_start_pythonic, (chunk,), found),
    ensures
        found <==> exists|at: int| 0 <= at < chunk@.len() && #[trigger] chunk@[at] == '[',
{
}

/// A pythonic message gives the calls of its first list of calls and the text before it. Without
/// a list all of its text is for the reader, without the white space around it.
pub proof fn lemma_pythonic_message(
    message: &str,
    tools: Option<&[ToolDefinition]>,
    parsed: Result<(Vec<ToolCallResponse>, Option<String>), ToolCallError>,
    space: Seq<char>,
    text: Seq<char>,
    more: Seq<char>,
)
    requires
        call_ensures(try_tool_call_parse_pythonic, (message, tools), parsed),
        without_python_tags(message@) == space + text + more,
        is_blank(space),
        is_blank(more),
        starts_solid(text),
        ends_solid(text),
    ensures
        text.len() == 0 || call_lists(text).len() == 0 ==> (parsed matches Ok((calls, Some(rest)))
            && calls@.len() == 0 && rest@ == text),
        text.len() > 0 && call_lists(text).len() > 0 && encode_utf8(call_lists(text)[0]).len()
            <= u32::MAX ==> match python_parsed(call_lists(text)[0]) {
            Ok(expr) => parsed matches Ok((calls, Some(rest))) && are_calls(
                calls@,
                expression_calls(expr),
            ) && rest@ == text_before(text, call_lists(text)[0]),
            Err(reason) => parsed matches Err(ToolCallError::PythonSyntax(told)) && told@
                == reason,
        },
{
    lemma_trim_of(space, text, more);
    if let Ok((calls, _)) = parsed {
        lemma_are_calls(calls@, calls_view(calls@));
    }
}

/// Of several lists of calls the first counts.
pub proof fn lemma_first_list(
    text: &str,
    lists: Vec<String>,
    parsed: Result<(Vec<ToolCallResponse>, Option<String>), ToolCallError>,
    expr: PyModel,
)
    requires
        call_ensures(parse_first_list, (text, &lists), parsed),
        lists@.len() > 0,
        encode_utf8(lists@[0]@).len() <= u32::MAX,
        python_parsed(lists@[0]@) == Ok::<PyModel, Seq<char>>(expr),
    ensures
        parsed matches Ok((calls, Some(rest))) && are_calls(calls@, expression_calls(expr))
            && rest@ == text_before(text@, lists@[0]@),
{
    if let Ok((calls, _)) = parsed {
        lemma_are_calls(calls@, calls_view(calls@));
    }
}

/// What a stream parser hands out is what its run gives: the same text, and for each call delta
/// the same number, name and arguments.
pub proof fn lemma_output_of_run(
    state: ScanState,
    model: ParseModel,
    after: ScanState,
    output: Result<ToolParseResult, ToolCallError>,
)
    requires
        same_run((state, Ok::<ParseModel, ToolCallError>(model)), after, output),
    ensures
        after == state,
        output matches Ok(output) && {
            &&& output.normal_text@ == model.normal_text
            &&& output.calls@.len() == model.calls.len()
            &&& forall|k: int|
                0 <= k < output.calls@.len() ==> {
                    let call: ToolCallDelta = #[trigger] output.calls@[k];
                    &&& call.tool_index == model.calls[k].tool_index
                    &&& call.arguments@ == model.calls[k].arguments
                    &&& match (call.name, model.calls[k].name) {
                        (Some(name), Some(expected)) => name@ == expected,
                        (None, None) => true,
                        _ => false,
                    }
                }
        },
{
    if let Ok(output) = output {
        assert(output@.calls.len() == output.calls@.len());
        assert(forall|k: int|
            0 <= k < output.calls@.len() ==> output@.calls[k] == (#[trigger] output.calls@[k])@);
    }
}

/// A stream starts with nothing left over, outside of any block, with text for the reader, and
/// counts calls from zero.
pub proof fn lemma_stream_start()
    ensures
        ScanState::start().buffer.len() == 0,
        !ScanState::start().in_block,
        !ScanState::start().suppress_normal_text,
        ScanState::start().next_index == 0,
        ScanState::start().is_idle(),
{
}

/// A parser of Kimi K2 is ready at the start of a stream, whatever tools are offered.
pub proof fn lemma_kimi_k2_created(
    tools: &[Tool],
    parser: KimiK2ToolStreamParser,
    created: Result<KimiK2ToolStreamParser, ToolCallError>,
)
    ensures
        call_ensures(KimiK2ToolStreamParser::new, (tools,), parser) ==> parser.is_ready()
            && parser.state() == ScanState::start(),
        call_ensures(KimiK2ToolStreamParser::create, (tools,), created) ==> (created matches Ok(
            parser,
        ) && parser.is_ready() && parser.state() == ScanState::start()),
{
}

/// A parser of Qwen3-Coder is ready at the start of a stream, and knows all tools that are
/// offered, in order, with their schemas.
pub proof fn lemma_qwen3_coder_created(
    tools: &[Tool],
    parser: Qwen3CoderToolStreamParser,
    at: int,
)
    requires
        call_ensures(Qwen3CoderToolStreamParser::new, (tools,), parser),
        0 <= at < tools@.len(),
    ensures
        parser.is_ready(),
        parser.state() == ScanState::start(),
        parser.reader().tools@.len() == tools@.len(),
        parser.reader().tools@[at].name@ == tools@[at].name@,
        parser.reader().tools@[at].parameters matches Some(schema) && schema@
            == tools@[at].parameters@,
{
    lemma_known_tools(tools@, parser.reader().tools@, at);
}

/// A family has the parser of its name, and a name without a family is an error with that name.
pub proof fn lemma_family_created(
    family: &str,
    tools: &[Tool],
    parser: Result<FamilyParser, ToolCallError>,
)
    requires
        call_ensures(create_tool_parser_for_family, (family, tools), parser),
    ensures
        family@ == "kimi_k2"@ <==> parser matches Ok(FamilyParser::KimiK2(_)),
        family@ == "qwen3_coder"@ <==> parser matches Ok(FamilyParser::Qwen3Coder(_)),
        family@ == "harmony"@ || family@ == "harmony_text"@ <==> parser matches Ok(
            FamilyParser::Delegated(DelegatedFamily::Harmony),
        ),
        parser is Err <==> !family_names().contains(family@),
        parser matches Err(error) ==> (error matches ToolCallError::UnknownFamily(name) && name@
            == family@),
{
    lemma_family_names(family@);
    lemma_registered(family@);
}

/// A call whose pieces came one by one is put together without touching the text.
pub proof fn lemma_calls_coalesced(parsed: ToolParseResult, result: ToolParseResult)
    requires
        call_ensures(ToolParseResult::coalesce_calls, (parsed,), result),
    ensures
        result.normal_text@ == parsed.normal_text@,
        result@.calls == coalesced(parsed@.calls),
        result@.calls.len() == result.calls@.len(),
{
}

/// Arguments that are no JSON object stay as they are.
pub proof fn lemma_other_arguments_stay(arguments: &str, names: Vec<String>, text: String)
    requires
        call_ensures(reorder_arguments, (arguments, &names), text),
        !(json_parsed(arguments@) matches Some(JsonModel::Object(_))),
    ensures
        text@ == arguments@,
{
}

/// An attribute has the value of the first of its name, and none where there is none.
pub proof fn lemma_attribute_found(
    attrs: Vec<(String, String)>,
    key: &str,
    found: Option<&str>,
    at: int,
)
    requires
        call_ensures(attr_value, (&attrs, key), found),
        0 <= at < attrs@.len(),
        attrs@[at].0@ == key@,
        forall|k: int| 0 <= k < at ==> (#[trigger] attrs@[k]).0@ != key@,
    ensures
        found matches Some(value) && value@ == attrs@[at].1@,
{
    let models = attrs_view(attrs@);
    assert(forall|k: int|
        0 <= k < attrs@.len() ==> models[k] == ((#[trigger] attrs@[k]).0@, attrs@[k].1@));
    lemma_attr_of(models, key@);
    assert(models[at].0 == key@);
    if let Some(value) = attr_of(models, key@) {
        let first = choose|first: int|
            {
                &&& 0 <= first < models.len()
                &&& #[trigger] models[first] == (key@, value)
                &&& forall|k: int| 0 <= k < first ==> (#[trigger] models[k]).0 != key@
            };
        assert(first == at) by {
            assert(first < at ==> attrs@[first].0@ != key@);
            assert(at < first ==> models[at].0 != key@);
        }
    }
}

} // verus!
