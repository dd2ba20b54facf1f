//! Streamed tool calls of Qwen3-Coder.
//!
//! The model writes
//! `<tool_call> <function=NAME> <parameter=KEY>value</parameter> ... </function> </tool_call>`
//! and sometimes a function without the block around it. Values are typed by the
//! schema of the tool, and the arguments keep the order in which the model wrote
//! them.
use crate::arguments::{reorder_object, reordered};
use crate::chunking::{
    is_beginning, is_tag, joined, lemma_same_stream, lemma_separable_advances, lemma_tags_differ,
};
use crate::error::ToolCallError;
use crate::json::{
    braced, entries_view, find_member, json_parsed, lemma_with_member_well_formed, member,
    member_texts, parse_json, put_member, well_formed, with_member, JsonModel, JsonValue,
};
use crate::response::{DeltaModel, ToolCallDelta, ToolParseResult};
use crate::scan_laws::{lemma_pushes_succeed, lemma_run_succeeds};
use crate::scan::{
    same_run, BareRecoveryLatch, Grammar, InvokeEmitter, InvokeLatch, ScanState,
    WrappedBlockScanner, WrappedBlockSpec,
};
use crate::text::{
    begins_with, begins_with_str, chars_of, find_str, first_index, first_of, lemma_first_index,
    lemma_first_index_bounds, lemma_first_index_is, lemma_found_in_rest, lemma_found_stays,
    occurs_at, one_text, rest_of, same_text, string_of, string_texts, trim, trimmed,
};
use crate::tools::{
    definitions_of, definitions_view, known_tools, DefinitionModel, Tool, ToolDefinition,
};
use vstd::prelude::*;

verus! {

broadcast use lemma_first_index_bounds;

pub const BLOCK_START: &'static str = "<tool_call>";

pub const BLOCK_END: &'static str = "</tool_call>";

pub const FUNCTION_START: &'static str = "<function=";

pub const FUNCTION_END: &'static str = "</function>";

pub const PARAMETER_START: &'static str = "<parameter=";

pub const PARAMETER_END: &'static str = "</parameter>";

/// How a stream is scanned. A stray block closer is held back as well, so that no
/// part of it reaches the reader.
pub open spec fn qwen3_coder_grammar() -> Grammar {
    Grammar {
        block_starts: seq![BLOCK_START@],
        block_ends: seq![BLOCK_END@],
        invoke_start: FUNCTION_START@,
        invoke_end: FUNCTION_END@,
        orphan_markers: seq![BLOCK_END@],
        holdback_markers: seq![BLOCK_START@, BLOCK_END@, FUNCTION_START@],
        bare_recovery_latch: BareRecoveryLatch::Suppress,
        invoke_latch: InvokeLatch::IfEmitted,
        drop_invoke_crossing_block_end: false,
    }
}

/// How a stream is scanned.
pub fn spec() -> (spec: WrappedBlockSpec)
    ensures
        spec@ == qwen3_coder_grammar(),
{
    let mut holdback_markers: Vec<String> = Vec::new();
    holdback_markers.push(BLOCK_START.to_owned());
    holdback_markers.push(BLOCK_END.to_owned());
    holdback_markers.push(FUNCTION_START.to_owned());
    assert(string_texts(holdback_markers@) =~= qwen3_coder_grammar().holdback_markers);
    WrappedBlockSpec {
        block_starts: one_text(BLOCK_START),
        block_ends: one_text(BLOCK_END),
        invoke_start: FUNCTION_START.to_owned(),
        invoke_end: FUNCTION_END.to_owned(),
        orphan_markers: one_text(BLOCK_END),
        holdback_markers,
        bare_recovery_latch: BareRecoveryLatch::Suppress,
        invoke_latch: InvokeLatch::IfEmitted,
        drop_invoke_crossing_block_end: false,
    }
}

/// `text` without the quotes that it begins with.
pub open spec fn without_leading_quotes(text: Seq<char>) -> Seq<char>
    decreases text.len(),
{
    if text.len() > 0 && text[0] == '"' {
        without_leading_quotes(text.drop_first())
    } else {
        text
    }
}

/// `text` without the quotes that it ends with.
pub open spec fn without_trailing_quotes(text: Seq<char>) -> Seq<char>
    decreases text.len(),
{
    if text.len() > 0 && text.last() == '"' {
        without_trailing_quotes(text.drop_last())
    } else {
        text
    }
}

/// A name as it is meant: without white space and quotes around it.
pub open spec fn bare_name(text: Seq<char>) -> Seq<char> {
    trim(without_trailing_quotes(without_leading_quotes(trim(text))))
}

/// A name as it is meant.
fn clean_name(text: &[char]) -> (name: &[char])
    ensures
        name@ == bare_name(text@),
{
    let quoted = trimmed(text);
    let mut start: usize = 0;
    assert(quoted@.skip(0) =~= quoted@);
    while start < quoted.len() && quoted[start] == '"'
        invariant
            start <= quoted@.len(),
            without_leading_quotes(quoted@) == without_leading_quotes(quoted@.skip(start as int)),
        decreases quoted.len() - start,
    {
        assert(quoted@.skip(start as int).drop_first() =~= quoted@.skip(start + 1));
        start += 1;
    }
    let rest = rest_of(quoted, start);
    assert(start < quoted@.len() ==> rest@[0] == quoted@[start as int]);
    let mut end: usize = rest.len();
    assert(rest@.take(end as int) =~= rest@);
    while end > 0 && rest[end - 1] == '"'
        invariant
            end <= rest@.len(),
            without_trailing_quotes(rest@) == without_trailing_quotes(rest@.take(end as int)),
        decreases end,
    {
        assert(rest@.take(end as int).drop_last() =~= rest@.take(end - 1));
        end -= 1;
    }
    assert(end > 0 ==> rest@.take(end as int).last() == rest@[end - 1]);
    trimmed(first_of(rest, end))
}

/// The position behind the header that `text` begins with, and the name in it.
pub open spec fn header(text: Seq<char>, opener: Seq<char>) -> Option<(Seq<char>, int)> {
    match first_index(text.skip(opener.len() as int), ">"@) {
        Some(end) => Some(
            (bare_name(text.skip(opener.len() as int).take(end)), opener.len() + end + 1),
        ),
        None => None,
    }
}

/// The names of the parameters in a function, in order and with repeats. A
/// parameter without a name is passed over.
pub open spec fn parameter_names(function: Seq<char>) -> Seq<Seq<char>>
    decreases function.len(),
{
    match first_index(function, PARAMETER_START@) {
        None => Seq::empty(),
        Some(at) => match header(function.skip(at), PARAMETER_START@) {
            Some((name, used)) if 0 < used <= function.len() - at => {
                let later = parameter_names(function.skip(at + used));
                if name.len() > 0 {
                    seq![name] + later
                } else {
                    later
                }
            },
            _ => Seq::empty(),
        },
    }
}

/// Reads a header: the name in it, and how many characters it takes.
fn parse_header<'a>(text: &'a [char], opener: &str) -> (found: Option<(&'a [char], usize)>)
    requires
        begins_with(text@, opener@),
    ensures
        match (found, header(text@, opener@)) {
            (Some((name, used)), Some((model, count))) => name@ == model && used == count && 0
                < used <= text@.len(),
            (None, None) => true,
            _ => false,
        },
{
    proof {
        reveal_strlit(">");
    }
    let open: usize = chars_of(opener).len();
    let rest = rest_of(text, open);
    match find_str(rest, ">") {
        Some(end) => {
            let ghost total = text.len();
            assert(open + end + 1 <= total);
            Some((clean_name(first_of(rest, end)), open + end + 1))
        },
        None => None,
    }
}

/// A text that was found begins what follows it.
proof fn lemma_begins_found(text: Seq<char>, marker: Seq<char>, at: int)
    requires
        first_index(text, marker) == Some(at),
    ensures
        begins_with(text.skip(at), marker),
{
    lemma_first_index(text, marker);
    assert(text.skip(at).take(marker.len() as int) =~= text.subrange(at, at + marker.len()));
}

/// The names of the parameters in a function, in order.
pub fn source_parameter_order(function: &str) -> (names: Vec<String>)
    ensures
        string_texts(names@) == parameter_names(function@),
{
    let text = chars_of(function);
    let mut names: Vec<String> = Vec::new();
    let mut cursor: usize = 0;
    assert(function@.skip(0) =~= function@);
    assert(string_texts(names@) + parameter_names(function@) =~= parameter_names(function@));
    loop
        invariant
            cursor <= text@.len() == text.len(),
            text@ == function@,
            parameter_names(function@) == string_texts(names@) + parameter_names(
                function@.skip(cursor as int),
            ),
        decreases text@.len() - cursor,
    {
        let rest = rest_of(text.as_slice(), cursor);
        assert(string_texts(names@) + Seq::empty() =~= string_texts(names@));
        let at = match find_str(rest, PARAMETER_START) {
            Some(at) => at,
            None => {
                return names;
            },
        };
        proof {
            lemma_begins_found(rest@, PARAMETER_START@, at as int);
        }
        let tag = rest_of(rest, at);
        match parse_header(tag, PARAMETER_START) {
            None => {
                return names;
            },
            Some((name, used)) => {
                let ghost before = string_texts(names@);
                let ghost later = parameter_names(rest@.skip(at + used));
                assert(rest@.skip(at + used) =~= function@.skip(cursor + at + used));
                if name.len() > 0 {
                    names.push(string_of(name));
                    assert(string_texts(names@) =~= before.push(name@));
                    assert(before + (seq![name@] + later) =~= before.push(name@) + later);
                }
                cursor = cursor + at + used;
            },
        }
    }
}

/// The parameters of a function in order, with repeats: names and values. A value
/// goes to the closer of its parameter, or to the end where that is missing; the
/// white space around it does not belong to it.
pub open spec fn parameters(body: Seq<char>) -> Seq<(Seq<char>, Seq<char>)>
    decreases body.len(),
{
    match first_index(body, PARAMETER_START@) {
        None => Seq::empty(),
        Some(at) => match header(body.skip(at), PARAMETER_START@) {
            Some((name, used)) if 0 < used <= body.len() - at => {
                let value = body.skip(at + used);
                match first_index(value, PARAMETER_END@) {
                    Some(close) => seq![(name, trim(value.take(close)))] + parameters(
                        value.skip(close),
                    ),
                    None => seq![(name, trim(value))],
                }
            },
            _ => Seq::empty(),
        },
    }
}

/// The type that the schema of a tool gives a parameter.
pub open spec fn declared_type(
    tools: Seq<DefinitionModel>,
    function: Seq<char>,
    key: Seq<char>,
) -> Option<Seq<char>>
    decreases tools.len(),
{
    if tools.len() == 0 {
        None
    } else if tools[0].name == function {
        match tools[0].parameters {
            Some(schema) => schema_type(schema, key),
            None => None,
        }
    } else {
        declared_type(tools.drop_first(), function, key)
    }
}

/// The member of an object.
pub open spec fn member_of(value: JsonModel, key: Seq<char>) -> Option<JsonModel> {
    match value {
        JsonModel::Object(entries) => member(entries, key),
        _ => None,
    }
}

/// The type that a schema gives a parameter.
pub open spec fn schema_type(schema: JsonModel, key: Seq<char>) -> Option<Seq<char>> {
    match member_of(schema, "properties"@) {
        Some(properties) => match member_of(properties, key) {
            Some(property) => match member_of(property, "type"@) {
                Some(JsonModel::Text(name)) => Some(name),
                _ => None,
            },
            None => None,
        },
        None => None,
    }
}

/// The value of a parameter: a string where the schema says so or says nothing, or
/// where the text is no JSON.
pub open spec fn typed_value(declared: Option<Seq<char>>, raw: Seq<char>) -> JsonModel {
    match (declared, json_parsed(raw)) {
        (Some(name), Some(value)) if name != "string"@ => value,
        _ => JsonModel::Text(raw),
    }
}

/// The arguments of a call: for each name the value that came last.
pub open spec fn typed_arguments(
    tools: Seq<DefinitionModel>,
    function: Seq<char>,
    given: Seq<(Seq<char>, Seq<char>)>,
) -> Seq<(Seq<char>, JsonModel)>
    decreases given.len(),
{
    if given.len() == 0 {
        Seq::empty()
    } else {
        let before = typed_arguments(tools, function, given.drop_last());
        let (key, raw) = given.last();
        if key.len() == 0 {
            before
        } else {
            with_member(before, key, typed_value(declared_type(tools, function, key), raw))
        }
    }
}

/// The name and the arguments of a call, where it names a function. The arguments
/// keep the order in which the parameters were written.
pub open spec fn qwen3_coder_call(tools: Seq<DefinitionModel>, invoke: Seq<char>) -> Option<
    (Seq<char>, Seq<char>),
> {
    match header(invoke, FUNCTION_START@) {
        Some((name, used)) if begins_with(invoke, FUNCTION_START@) && name.len() > 0 => {
            let rest = invoke.skip(used);
            let body = match first_index(rest, FUNCTION_END@) {
                Some(close) => rest.take(close),
                None => rest,
            };
            Some(
                (
                    name,
                    braced(
                        member_texts(
                            reordered(
                                typed_arguments(tools, name, parameters(body)),
                                parameter_names(invoke),
                            ),
                        ),
                    ),
                ),
            )
        },
        _ => None,
    }
}

/// Reads the calls of Qwen3-Coder.
pub struct Qwen3Emitter {
    pub tools: Vec<ToolDefinition>,
}

/// The member of an object.
fn find_member_of<'a>(value: &'a JsonValue, key: &str) -> (found: Option<&'a JsonValue>)
    ensures
        match found {
            Some(found) => member_of(value@, key@) == Some(found@),
            None => member_of(value@, key@) is None,
        },
{
    match value {
        JsonValue::Object(entries) => find_member(entries, key),
        _ => None,
    }
}

/// The type that a schema gives a parameter.
fn find_schema_type<'a>(schema: &'a JsonValue, key: &str) -> (name: Option<&'a str>)
    ensures
        match name {
            Some(name) => schema_type(schema@, key@) == Some(name@),
            None => schema_type(schema@, key@) is None,
        },
{
    match find_member_of(schema, "properties") {
        Some(properties) => match find_member_of(properties, key) {
            Some(property) => match find_member_of(property, "type") {
                Some(JsonValue::Text(name)) => Some(name.as_str()),
                _ => None,
            },
            None => None,
        },
        None => None,
    }
}

/// The type that the schema of a tool gives a parameter.
fn find_declared_type<'a>(tools: &'a Vec<ToolDefinition>, function: &str, key: &str) -> (name:
    Option<&'a str>)
    ensures
        match name {
            Some(name) => declared_type(definitions_view(tools@), function@, key@) == Some(name@),
            None => declared_type(definitions_view(tools@), function@, key@) is None,
        },
{
    let ghost all = definitions_view(tools@);
    let mut at: usize = 0;
    assert(all.skip(0) =~= all);
    while at < tools.len()
        invariant
            at <= tools@.len(),
            all == definitions_view(tools@),
            declared_type(all, function@, key@) == declared_type(
                all.skip(at as int),
                function@,
                key@,
            ),
        decreases tools.len() - at,
    {
        assert(all.skip(at as int)[0] == tools@[at as int]@);
        if same_text(tools[at].name.as_str(), function) {
            return match &tools[at].parameters {
                Some(schema) => find_schema_type(schema, key),
                None => None,
            };
        }
        assert(all.skip(at as int).drop_first() =~= all.skip(at + 1));
        at += 1;
    }
    None
}

/// The value of a parameter, where the parse of its text came to `parsed`.
pub fn type_parsed_value(declared: Option<&str>, raw: &str, parsed: Option<JsonValue>) -> (value:
    JsonValue)
    requires
        parsed matches Some(value) ==> well_formed(value@),
    ensures
        well_formed(value@),
        value@ == (match (declared, parsed) {
            (Some(name), Some(parsed)) if name@ != "string"@ => parsed@,
            _ => JsonModel::Text(raw@),
        }),
{
    if let Some(name) = declared {
        if !same_text(name, "string") {
            if let Some(parsed) = parsed {
                return parsed;
            }
        }
    }
    JsonValue::Text(raw.to_owned())
}

/// The value of a parameter.
fn type_value(declared: Option<&str>, raw: &str) -> (value: JsonValue)
    ensures
        well_formed(value@),
        value@ == typed_value(
            match declared {
                Some(name) => Some(name@),
                None => None,
            },
            raw@,
        ),
{
    type_parsed_value(declared, raw, parse_json(raw))
}

/// The arguments of a call.
fn type_arguments(tools: &Vec<ToolDefinition>, function: &str, body: &[char]) -> (entries: Vec<
    (String, JsonValue),
>)
    ensures
        well_formed(JsonModel::Object(entries_view(entries@))),
        entries_view(entries@) == typed_arguments(
            definitions_view(tools@),
            function@,
            parameters(body@),
        ),
{
    let ghost known = definitions_view(tools@);
    let ghost mut seen: Seq<(Seq<char>, Seq<char>)> = Seq::empty();
    let mut entries: Vec<(String, JsonValue)> = Vec::new();
    let mut cursor: usize = 0;
    assert(body@.skip(0) =~= body@);
    assert(seen + parameters(body@) =~= parameters(body@));
    loop
        invariant
            cursor <= body@.len() == body.len(),
            known == definitions_view(tools@),
            parameters(body@) == seen + parameters(body@.skip(cursor as int)),
            entries_view(entries@) == typed_arguments(known, function@, seen),
            well_formed(JsonModel::Object(entries_view(entries@))),
        decreases body@.len() - cursor,
    {
        let rest = rest_of(body, cursor);
        assert(seen + Seq::empty() =~= seen);
        let at = match find_str(rest, PARAMETER_START) {
            Some(at) => at,
            None => {
                return entries;
            },
        };
        proof {
            lemma_begins_found(rest@, PARAMETER_START@, at as int);
        }
        let tag = rest_of(rest, at);
        match parse_header(tag, PARAMETER_START) {
            None => {
                return entries;
            },
            Some((name, used)) => {
                let value = rest_of(tag, used);
                assert(value@ =~= rest@.skip(at + used));
                let (end, complete) = match find_str(value, PARAMETER_END) {
                    Some(close) => (close, true),
                    None => (value.len(), false),
                };
                let ghost before = seen;
                let raw = trimmed(first_of(value, end));
                assert(!complete ==> value@.take(end as int) =~= value@);
                let ghost one = (name@, raw@);
                proof {
                    seen = before.push(one);
                    assert(seen.drop_last() =~= before);
                }
                if name.len() > 0 {
                    let key = string_of(name);
                    let raw_text = string_of(raw);
                    let declared = find_declared_type(tools, function, key.as_str());
                    let typed = type_value(declared, raw_text.as_str());
                    proof {
                        lemma_with_member_well_formed(entries_view(entries@), key@, typed@);
                    }
                    put_member(&mut entries, key, typed);
                }
                if !complete {
                    assert(before + seq![one] =~= seen);
                    return entries;
                }
                let ghost later = parameters(value@.skip(end as int));
                assert(before + (seq![one] + later) =~= seen + later);
                assert(value@.skip(end as int) =~= body@.skip(cursor + at + used + end));
                cursor = cursor + at + used + end;
            },
        }
    }
}

impl InvokeEmitter for Qwen3Emitter {
    open spec fn emits(&self, invoke: Seq<char>, tool_index: usize) -> Result<
        Option<DeltaModel>,
        ToolCallError,
    > {
        Ok(
            match qwen3_coder_call(definitions_view(self.tools@), invoke) {
                Some((name, arguments)) => Some(
                    DeltaModel { tool_index, name: Some(name), arguments },
                ),
                None => None,
            },
        )
    }

    fn parse_invoke(&self, invoke: &str, tool_index: usize) -> (delta: Result<
        Option<ToolCallDelta>,
        ToolCallError,
    >) {
        let text = chars_of(invoke);
        if !begins_with_str(text.as_slice(), FUNCTION_START) {
            return Ok(None);
        }
        let (name, used) = match parse_header(text.as_slice(), FUNCTION_START) {
            Some((name, used)) => (name, used),
            None => {
                return Ok(None);
            },
        };
        if name.len() == 0 {
            return Ok(None);
        }
        let name = string_of(name);
        let rest = rest_of(text.as_slice(), used);
        let body = match find_str(rest, FUNCTION_END) {
            Some(close) => first_of(rest, close),
            None => rest,
        };
        let entries = type_arguments(&self.tools, name.as_str(), body);
        let names = source_parameter_order(invoke);
        let arguments = reorder_object(&entries, &names);
        Ok(Some(ToolCallDelta { tool_index, name: Some(name), arguments }))
    }
}

/// Parses the streamed output of Qwen3-Coder.
pub struct Qwen3CoderToolStreamParser {
    scanner: WrappedBlockScanner<Qwen3Emitter>,
}

impl Qwen3CoderToolStreamParser {
    /// The parser scans by the markers of Qwen3-Coder.
    pub closed spec fn is_ready(self) -> bool {
        self.scanner.grammar() == qwen3_coder_grammar()
    }

    /// What reads the calls.
    pub closed spec fn reader(self) -> Qwen3Emitter {
        self.scanner.reader()
    }

    /// Where scanning stands.
    pub closed spec fn state(self) -> ScanState {
        self.scanner.state()
    }

    /// A parser at the start of a stream, for the given tools.
    pub fn new(tools: &[Tool]) -> (parser: Qwen3CoderToolStreamParser)
        ensures
            parser.is_ready(),
            definitions_view(parser.reader().tools@) == known_tools(tools@),
            parser.state() == ScanState::start(),
    {
        Qwen3CoderToolStreamParser {
            scanner: WrappedBlockScanner::new(
                spec(),
                Qwen3Emitter { tools: definitions_of(tools) },
            ),
        }
    }

    /// A parser at the start of a stream, for the given tools.
    pub fn create(tools: &[Tool]) -> (parser: Result<Qwen3CoderToolStreamParser, ToolCallError>)
        ensures
            parser matches Ok(parser) && parser.is_ready() && definitions_view(
                parser.reader().tools@,
            ) == known_tools(tools@) && parser.state() == ScanState::start(),
    {
        Ok(Qwen3CoderToolStreamParser::new(tools))
    }

    /// Whether the stream must hold the special tokens of the model: the markers
    /// are such tokens.
    pub fn preserve_special_tokens(&self) -> (preserve: bool)
        ensures
            preserve,
    {
        true
    }

    /// Takes one more chunk of the stream.
    pub fn push(&mut self, chunk: &str) -> (output: Result<ToolParseResult, ToolCallError>)
        requires
            old(self).is_ready(),
        ensures
            final(self).is_ready(),
            final(self).reader() == old(self).reader(),
            output is Ok,
            same_run(
                old(self).state().with_more(chunk@).run(
                    qwen3_coder_grammar(),
                    old(self).reader(),
                    false,
                ),
                final(self).state(),
                output,
            ),
    {
        proof {
            lemma_qwen3_coder_separable();
            lemma_separable_advances(qwen3_coder_grammar(), '<');
            lemma_run_succeeds(
                qwen3_coder_grammar(),
                self.reader(),
                self.state().with_more(chunk@),
                false,
            );
        }
        self.scanner.push(chunk)
    }

    /// Ends the stream.
    pub fn finish(&mut self) -> (output: Result<ToolParseResult, ToolCallError>)
        requires
            old(self).is_ready(),
        ensures
            final(self).is_ready(),
            final(self).reader() == old(self).reader(),
            output is Ok,
            same_run(
                old(self).state().run(qwen3_coder_grammar(), old(self).reader(), true),
                final(self).state(),
                output,
            ),
    {
        proof {
            lemma_qwen3_coder_separable();
            lemma_separable_advances(qwen3_coder_grammar(), '<');
            lemma_run_succeeds(qwen3_coder_grammar(), self.reader(), self.state(), true);
        }
        self.scanner.finish()
    }
}

/// The markers of Qwen3-Coder can be told apart as they arrive.
pub proof fn lemma_qwen3_coder_separable()
    ensures
        qwen3_coder_grammar().is_separable('<'),
        qwen3_coder_grammar().holds_fenced('<'),
{
    reveal_strlit("<tool_call>");
    reveal_strlit("</tool_call>");
    reveal_strlit("<function=");
    reveal_strlit("</function>");
    let grammar = qwen3_coder_grammar();
    let function = FUNCTION_START@;
    assert forall|marker: Seq<char>| #[trigger] grammar.is_marker(marker) && marker
        != function implies is_tag(marker) && marker[1] != 'f' by {
        assert(is_tag(BLOCK_START@));
        assert(is_tag(BLOCK_END@));
        assert(is_tag(FUNCTION_END@));
    }
    assert forall|one: Seq<char>, other: Seq<char>|
        #![trigger grammar.is_marker(one), grammar.is_marker(other)]
        grammar.is_marker(one) && grammar.is_marker(other) && is_beginning(one, other) implies one
        == other by {
        assert(other.take(one.len() as int)[1] == other[1]);
        if one != function && other != function {
            lemma_tags_differ(one, other);
        }
    }
    let held = grammar.holdback_markers;
    assert(held[0] == BLOCK_START@);
    assert(held[1] == BLOCK_END@);
    assert(held[2] == FUNCTION_START@);
    assert(grammar.is_marker(grammar.block_starts[0]));
    assert(grammar.is_marker(grammar.block_ends[0]));
    assert(grammar.is_marker(grammar.invoke_start));
}

/// How a stream of Qwen3-Coder is cut into chunks does not matter: the outputs put
/// together are the same, and so is what ending the stream gives.
pub proof fn lemma_qwen3_coder_chunks(
    emitter: Qwen3Emitter,
    one: Seq<Seq<char>>,
    other: Seq<Seq<char>>,
)
    requires
        joined(one) == joined(other),
    ensures
        ({
            let grammar = qwen3_coder_grammar();
            let start = ScanState::start();
            &&& start.pushed(grammar, emitter, one) == start.pushed(grammar, emitter, other)
            &&& start.pushed(grammar, emitter, one).1 is Ok
            &&& start.pushed(grammar, emitter, one).0.run(grammar, emitter, true) == start.pushed(
                grammar,
                emitter,
                other,
            ).0.run(grammar, emitter, true)
        }),
{
    let grammar = qwen3_coder_grammar();
    lemma_qwen3_coder_separable();
    lemma_separable_advances(grammar, '<');
    lemma_pushes_succeed(grammar, emitter, ScanState::start(), one);
    lemma_pushes_succeed(grammar, emitter, ScanState::start(), other);
    lemma_same_stream(grammar, '<', emitter, one, other);
}

/// A parameter as the model writes it.
pub open spec fn written_parameter(key: Seq<char>, value: Seq<char>) -> Seq<char> {
    PARAMETER_START@ + (key + seq!['>']) + (value + PARAMETER_END@)
}

/// A header that was written is read back.
proof fn lemma_header(opener: Seq<char>, name: Seq<char>, rest: Seq<char>)
    requires
        !name.contains('>'),
    ensures
        header(opener + (name + seq!['>']) + rest, opener) == Some(
            (bare_name(name), (opener.len() + name.len() + 1) as int),
        ),
        (opener + (name + seq!['>']) + rest).skip((opener.len() + name.len() + 1) as int) == rest,
        begins_with(opener + (name + seq!['>']) + rest, opener),
{
    reveal_strlit(">");
    let whole = opener + (name + seq!['>']) + rest;
    let after = name + seq!['>'] + rest;
    assert(whole.skip(opener.len() as int) =~= after);
    assert(after.subrange(name.len() as int, name.len() + 1int) =~= ">"@);
    assert forall|at: int| 0 <= at < name.len() implies !occurs_at(after, ">"@, at) by {
        if occurs_at(after, ">"@, at) {
            assert(after.subrange(at, at + 1)[0] == name[at]);
        }
    }
    lemma_first_index_is(after, ">"@, name.len() as int);
    assert(after.take(name.len() as int) =~= name);
    assert(whole.skip((opener.len() + name.len() + 1) as int) =~= rest);
    assert(whole.take(opener.len() as int) =~= opener);
}

/// The closer of a parameter holds no parameter.
proof fn lemma_parameters_behind_closer(rest: Seq<char>)
    ensures
        parameters(PARAMETER_END@ + rest) == parameters(rest),
{
    reveal_strlit("<parameter=");
    reveal_strlit("</parameter>");
    let whole = PARAMETER_END@ + rest;
    let closer = PARAMETER_END@.len() as int;
    assert forall|at: int| 0 <= at < closer implies !occurs_at(whole, PARAMETER_START@, at) by {
        if occurs_at(whole, PARAMETER_START@, at) {
            let found = whole.subrange(at, at + PARAMETER_START@.len());
            assert(found[0] == PARAMETER_END@[at]);
            assert(found[1] == whole[at + 1]);
        }
    }
    lemma_found_in_rest(whole, closer, PARAMETER_START@);
    assert(whole.skip(closer) =~= rest);
    if let Some(at) = first_index(rest, PARAMETER_START@) {
        assert(whole.skip(closer + at) =~= rest.skip(at));
        if let Some((name, used)) = header(rest.skip(at), PARAMETER_START@) {
            if 0 < used <= rest.len() - at {
                assert(whole.skip(closer + at + used) =~= rest.skip(at + used));
            }
        }
    }
}

/// A parameter that was written is read back: its name, and its value without the
/// white space around it. The name must not hold the end of the tag, and the value
/// not the closer.
pub proof fn lemma_parameter_reads_back(key: Seq<char>, value: Seq<char>, rest: Seq<char>)
    requires
        !key.contains('>'),
        first_index(value + PARAMETER_END@, PARAMETER_END@) == Some(value.len() as int),
    ensures
        parameters(written_parameter(key, value) + rest) == seq![(bare_name(key), trim(value))]
            + parameters(rest),
{
    let text = value + PARAMETER_END@ + rest;
    let whole = written_parameter(key, value) + rest;
    assert(whole =~= PARAMETER_START@ + (key + seq!['>']) + text);
    assert(whole.subrange(0, PARAMETER_START@.len() as int) =~= PARAMETER_START@);
    lemma_first_index_is(whole, PARAMETER_START@, 0);
    assert(whole.skip(0) =~= whole);
    lemma_header(PARAMETER_START@, key, text);
    lemma_found_stays(value + PARAMETER_END@, rest, PARAMETER_END@);
    assert(text.take(value.len() as int) =~= value);
    assert(text.skip(value.len() as int) =~= PARAMETER_END@ + rest);
    lemma_parameters_behind_closer(rest);
}

/// A function as the model writes it.
pub open spec fn written_function(name: Seq<char>, body: Seq<char>) -> Seq<char> {
    FUNCTION_START@ + (name + seq!['>']) + (body + FUNCTION_END@)
}

/// A function that was written is read back: its name, and the parameters in its
/// body as arguments. The name must not hold the end of the tag, and the body not
/// the closer.
pub proof fn lemma_function_reads_back(
    tools: Seq<DefinitionModel>,
    name: Seq<char>,
    body: Seq<char>,
)
    requires
        !name.contains('>'),
        bare_name(name).len() > 0,
        first_index(body + FUNCTION_END@, FUNCTION_END@) == Some(body.len() as int),
    ensures
        qwen3_coder_call(tools, written_function(name, body)) == Some(
            (
                bare_name(name),
                braced(
                    member_texts(
                        reordered(
                            typed_arguments(tools, bare_name(name), parameters(body)),
                            parameter_names(written_function(name, body)),
                        ),
                    ),
                ),
            ),
        ),
{
    let whole = written_function(name, body);
    lemma_header(FUNCTION_START@, name, body + FUNCTION_END@);
    assert((body + FUNCTION_END@).take(body.len() as int) =~= body);
}

} // verus!
