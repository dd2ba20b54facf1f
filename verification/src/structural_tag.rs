//! The structural tag of Kimi K3: which messages the model may write when it is
//! offered tools.
//!
//! A message is a response and a tools section. The section holds calls in the
//! grammar that [`crate::kimi_k3`] reads, with arguments that fit the schemas of
//! the tools.
use crate::attributes::{attr_text, escape_attr};
use crate::decimal::{digits, digits_of};
use crate::error::ToolCallError;
use crate::format::{
    formats_view, lemma_formats_view, lemma_tags_view, tags_view, Format, FormatModel,
    StructuralTag, TagFormat, TagModel,
};
use crate::json::{
    entries_view, find_member, items_view, lemma_entries_view, lemma_items_view, member, put_member,
    with_member, JsonModel, JsonValue, NumberModel,
};
use crate::kimi_k3::{
    ARGUMENT_CLOSE, ARGUMENT_OPEN_PREFIX, CALL_CLOSE, CALL_OPEN_PREFIX, MESSAGE_CLOSE,
    RESPONSE_CLOSE, RESPONSE_OPEN, SEP, TOOLS_CLOSE, TOOLS_OPEN,
};
use crate::text::{
    append_chars, append_str, chars_of, contains_str, occurs, one_text, same_text, string_of,
    string_texts,
};
use crate::tools::{definitions_view, DefinitionModel, ToolDefinition};
use vstd::prelude::*;

verus! {

broadcast use {lemma_formats_view, lemma_tags_view, lemma_items_view, lemma_entries_view};

pub const CLOSE: &'static str = "<|close|>";

/// One character of an argument: markers begin with `<|`, so that is left out.
pub const STRING_ATOM: &'static str = "(?:[^<]|<[^|])";

/// The rest of an open tag, whatever its attributes.
pub const OPEN_TAG_PATTERN: &'static str = "[^<]*<\\|sep\\|>";

/// Which tools the model must or may call.
#[derive(Debug, Clone, PartialEq, Eq)]
pub enum ToolChoice {
    /// It calls none.
    NoTools,
    /// It may call any.
    Auto,
    /// It must call one at least.
    Required,
    /// It must call this one.
    Named(String),
}

/// How far the schemas of the tools are held to.
#[derive(Debug, Clone, Copy, PartialEq, Eq)]
pub enum StructuralTagSchemaMode {
    /// The schema of each tool holds unless the tool opts out.
    Auto,
    /// Every schema holds.
    Strict,
}

/// What a structural tag is built from.
pub struct ToolCallFormatBuildContext<'a> {
    pub tool_choice: &'a ToolChoice,
    /// The tools that are offered.
    pub tools: &'a [ToolDefinition],
    /// Whether the model may make several calls; where nothing is said it may.
    pub parallel_tool_calls: Option<bool>,
    pub schema_mode: StructuralTagSchemaMode,
    /// Whether the output begins with reasoning. The tag of Kimi K3 is the same
    /// either way.
    pub starts_in_reasoning: bool,
}

/// The content, or nothing.
pub fn optional(content: Format) -> (format: Format)
    ensures
        format@ == FormatModel::Optional(Box::new(content@)),
{
    Format::Optional { content: Box::new(content) }
}

/// The content any number of times.
pub fn star(content: Format) -> (format: Format)
    ensures
        format@ == FormatModel::Star(Box::new(content@)),
{
    Format::Star { content: Box::new(content) }
}

/// One of the elements; one alone stands for itself.
pub open spec fn choice_of(elements: Seq<FormatModel>) -> FormatModel {
    if elements.len() == 1 {
        elements[0]
    } else {
        FormatModel::Or(elements)
    }
}

/// One of the elements; one alone stands for itself.
pub fn one_of(elements: Vec<Format>) -> (format: Format)
    ensures
        format@ == choice_of(formats_view(elements@)),
{
    let mut elements = elements;
    if elements.len() == 1 {
        if let Some(element) = elements.pop() {
            return element;
        }
    }
    Format::Or { elements }
}

/// The longest argument for which a pattern counts the characters.
pub const MAX_COUNTED_LENGTH: u64 = 4096;

/// The most values that are listed one by one.
pub const MAX_LISTED_VALUES: usize = 256;

/// The pattern of a string whose length the schema limits, where it does so within
/// the limit of patterns.
pub open spec fn length_pattern(schema: Seq<(Seq<char>, JsonModel)>) -> Option<Seq<char>> {
    match member(schema, "maxLength"@) {
        Some(JsonModel::Number(NumberModel::PosInt(max))) if max <= MAX_COUNTED_LENGTH => {
            let min: u64 = match member(schema, "minLength"@) {
                Some(JsonModel::Number(NumberModel::PosInt(min))) if min <= max => min,
                _ => 0,
            };
            Some(
                STRING_ATOM@ + seq!['{'] + digits(min as nat) + seq![','] + digits(max as nat)
                    + seq!['}'],
            )
        },
        _ => None,
    }
}

/// The number of a member, if it is an integer that is not below zero.
fn member_number(schema: &Vec<(String, JsonValue)>, key: &str) -> (number: Option<u64>)
    ensures
        match number {
            Some(number) => member(entries_view(schema@), key@) == Some(
                JsonModel::Number(NumberModel::PosInt(number)),
            ),
            None => !(member(entries_view(schema@), key@) matches Some(
                JsonModel::Number(NumberModel::PosInt(_)),
            )),
        },
{
    match find_member(schema, key) {
        Some(value) => value.as_u64(),
        None => None,
    }
}

/// The pattern of a string whose length the schema limits.
pub fn bounded_string_regex(schema: &Vec<(String, JsonValue)>) -> (pattern: Option<String>)
    ensures
        match (pattern, length_pattern(entries_view(schema@))) {
            (Some(pattern), Some(model)) => pattern@ == model,
            (None, None) => true,
            _ => false,
        },
{
    let max: u64 = match member_number(schema, "maxLength") {
        Some(max) => max,
        None => {
            return None;
        },
    };
    if max > MAX_COUNTED_LENGTH {
        return None;
    }
    let min: u64 = match member_number(schema, "minLength") {
        Some(min) => if min <= max {
            min
        } else {
            0
        },
        None => 0,
    };
    let mut pattern = chars_of(STRING_ATOM);
    pattern.push('{');
    append_chars(&mut pattern, digits_of(min).as_slice());
    pattern.push(',');
    append_chars(&mut pattern, digits_of(max).as_slice());
    pattern.push('}');
    assert(pattern@ =~= STRING_ATOM@ + seq!['{'] + digits(min as nat) + seq![','] + digits(
        max as nat,
    ) + seq!['}']);
    Some(string_of(pattern.as_slice()))
}

/// The name that the grammar has for a JSON type.
pub open spec fn xtml_type(json_type: Seq<char>) -> Option<Seq<char>> {
    if json_type == "integer"@ {
        Some("number"@)
    } else if json_type == "string"@ || json_type == "number"@ || json_type == "boolean"@
        || json_type == "null"@ || json_type == "object"@ || json_type == "array"@ {
        Some(json_type)
    } else {
        None
    }
}

/// The name that the grammar has for a JSON type.
fn find_xtml_type<'a>(json_type: &'a str) -> (name: Option<&'a str>)
    ensures
        match (name, xtml_type(json_type@)) {
            (Some(name), Some(model)) => name@ == model,
            (None, None) => true,
            _ => false,
        },
{
    if same_text(json_type, "integer") {
        Some("number")
    } else if same_text(json_type, "string") || same_text(json_type, "number") || same_text(
        json_type,
        "boolean",
    ) || same_text(json_type, "null") || same_text(json_type, "object") || same_text(
        json_type,
        "array",
    ) {
        Some(json_type)
    } else {
        None
    }
}

/// The values that a schema lists: those of `enum`, or the one of `const`.
pub open spec fn listed_values(schema: Seq<(Seq<char>, JsonModel)>) -> Option<Seq<JsonModel>> {
    match (member(schema, "enum"@), member(schema, "const"@)) {
        (Some(JsonModel::Array(values)), _) => Some(values),
        (_, Some(JsonModel::Text(value))) => Some(seq![JsonModel::Text(value)]),
        _ => None,
    }
}

/// A string without the beginning of a marker.
pub open spec fn is_plain_text(value: JsonModel) -> bool {
    value matches JsonModel::Text(text) && !occurs(text, "<|"@)
}

/// The values can be listed one by one: there are some, not too many, and each is
/// a string without the beginning of a marker.
pub open spec fn can_be_listed(values: Seq<JsonModel>) -> bool {
    &&& 0 < values.len() <= MAX_LISTED_VALUES
    &&& forall|k: int| 0 <= k < values.len() ==> is_plain_text(#[trigger] values[k])
}

/// Each of the strings as a format.
pub open spec fn const_strings(values: Seq<JsonModel>) -> Seq<FormatModel> {
    values.map_values(
        |value: JsonModel|
            match value {
                JsonModel::Text(text) => FormatModel::ConstString(text),
                _ => FormatModel::ConstString(Seq::empty()),
            },
    )
}

/// What a string argument may be: one of the values that the schema lists, a text
/// of the length that it allows, or any text up to a closing tag.
pub open spec fn string_format(schema: Seq<(Seq<char>, JsonModel)>) -> FormatModel {
    match (listed_values(schema), length_pattern(schema)) {
        (Some(values), _) if can_be_listed(values) => choice_of(const_strings(values)),
        (_, Some(pattern)) => FormatModel::Regex(pattern),
        _ => FormatModel::AnyText(seq![CLOSE@]),
    }
}

/// The text of a string without the beginning of a marker.
fn plain_text(value: &JsonValue) -> (text: Option<&str>)
    ensures
        match text {
            Some(text) => value@ == JsonModel::Text(text@) && is_plain_text(value@),
            None => !is_plain_text(value@),
        },
{
    match value.as_str() {
        Some(text) => if contains_str(chars_of(text).as_slice(), "<|") {
            None
        } else {
            Some(text)
        },
        None => None,
    }
}

/// The strings as formats, where they can be listed.
fn list_values(values: &Vec<JsonValue>) -> (formats: Option<Vec<Format>>)
    ensures
        match formats {
            Some(formats) => can_be_listed(items_view(values@)) && formats_view(formats@)
                == const_strings(items_view(values@)),
            None => !can_be_listed(items_view(values@)),
        },
{
    let ghost all = items_view(values@);
    proof {
        lemma_items_view(values@);
    }
    if values.len() == 0 || values.len() > MAX_LISTED_VALUES {
        return None;
    }
    let mut formats: Vec<Format> = Vec::new();
    let mut at: usize = 0;
    while at < values.len()
        invariant
            at <= values@.len(),
            all == items_view(values@),
            all.len() == values@.len(),
            forall|k: int| 0 <= k < all.len() ==> (#[trigger] all[k]) == values@[k]@,
            formats@.len() == at,
            forall|k: int| 0 <= k < at ==> is_plain_text(#[trigger] all[k]),
            forall|k: int|
                0 <= k < at ==> (#[trigger] formats@[k])@ == FormatModel::ConstString(
                    all[k]->Text_0,
                ),
        decreases values.len() - at,
    {
        assert(all[at as int] == values@[at as int]@);
        match plain_text(&values[at]) {
            Some(text) => {
                formats.push(Format::ConstString { value: text.to_owned() });
            },
            None => {
                return None;
            },
        }
        at += 1;
    }
    proof {
        lemma_formats_view(formats@);
        assert(formats_view(formats@) =~= const_strings(all));
    }
    Some(formats)
}

/// The values that a schema lists.
fn find_listed_values(schema: &Vec<(String, JsonValue)>) -> (values: Option<Vec<JsonValue>>)
    ensures
        match (values, listed_values(entries_view(schema@))) {
            (Some(values), Some(model)) => items_view(values@) == model,
            (None, None) => true,
            _ => false,
        },
{
    if let Some(JsonValue::Array(values)) = find_member(schema, "enum") {
        let mut copies: Vec<JsonValue> = Vec::new();
        let mut at: usize = 0;
        while at < values.len()
            invariant
                at <= values@.len(),
                copies@.len() == at,
                forall|k: int| 0 <= k < at ==> (#[trigger] copies@[k])@ == values@[k]@,
            decreases values.len() - at,
        {
            copies.push(values[at].duplicate());
            at += 1;
        }
        proof {
            lemma_items_view(copies@);
            lemma_items_view(values@);
            assert(items_view(copies@) =~= items_view(values@));
        }
        return Some(copies);
    }
    if let Some(JsonValue::Text(value)) = find_member(schema, "const") {
        let mut values: Vec<JsonValue> = Vec::new();
        values.push(JsonValue::Text(value.clone()));
        proof {
            lemma_items_view(values@);
            assert(items_view(values@) =~= seq![JsonModel::Text(value@)]);
        }
        return Some(values);
    }
    None
}

/// What a string argument may be.
fn string_content(schema: &Vec<(String, JsonValue)>) -> (format: Format)
    ensures
        format@ == string_format(entries_view(schema@)),
{
    if let Some(values) = find_listed_values(schema) {
        if let Some(formats) = list_values(&values) {
            return one_of(formats);
        }
    }
    match bounded_string_regex(schema) {
        Some(pattern) => Format::Regex { pattern },
        None => Format::AnyText { excludes: one_text(CLOSE) },
    }
}

/// A schema with the definitions that it does not have itself.
pub open spec fn with_definitions(
    schema: Seq<(Seq<char>, JsonModel)>,
    definitions: Seq<(Seq<char>, JsonModel)>,
) -> Seq<(Seq<char>, JsonModel)>
    decreases definitions.len(),
{
    if definitions.len() == 0 {
        schema
    } else {
        let before = with_definitions(schema, definitions.drop_last());
        let (key, value) = definitions.last();
        if member(before, key) is Some {
            before
        } else {
            with_member(before, key, value)
        }
    }
}

/// The tag of an argument whose schema says one of the known types.
pub open spec fn argument_format(
    key: Seq<char>,
    schema: JsonModel,
    definitions: Seq<(Seq<char>, JsonModel)>,
) -> Option<TagModel> {
    match schema {
        JsonModel::Object(entries) => match member(entries, "type"@) {
            Some(JsonModel::Text(json_type)) => match xtml_type(json_type) {
                Some(name) => Some(
                    TagModel {
                        begin: argument_begin(key, name),
                        content: Box::new(
                            if json_type == "string"@ {
                                string_format(entries)
                            } else {
                                FormatModel::JsonSchema(
                                    JsonModel::Object(with_definitions(entries, definitions)),
                                )
                            },
                        ),
                        end: ARGUMENT_CLOSE@,
                    },
                ),
                None => None,
            },
            _ => None,
        },
        _ => None,
    }
}

/// The open tag of an argument.
pub open spec fn argument_begin(key: Seq<char>, arg_type: Seq<char>) -> Seq<char> {
    ARGUMENT_OPEN_PREFIX@ + (attr_text("key"@, key) + attr_text("type"@, arg_type) + SEP@)
}

/// The tag of an argument of which nothing is known.
pub open spec fn any_argument_format() -> TagModel {
    TagModel {
        begin: ARGUMENT_OPEN_PREFIX@ + seq![' '],
        content: Box::new(
            FormatModel::Sequence(
                seq![FormatModel::Regex(OPEN_TAG_PATTERN@), FormatModel::AnyText(seq![CLOSE@])],
            ),
        ),
        end: ARGUMENT_CLOSE@,
    }
}

/// The definitions that the schemas of all arguments share.
pub open spec fn shared_definitions(parameters: Seq<(Seq<char>, JsonModel)>) -> Seq<
    (Seq<char>, JsonModel),
> {
    definitions_under(parameters, "$defs"@) + definitions_under(parameters, "definitions"@)
}

/// The definitions under one key, if they are an object.
pub open spec fn definitions_under(
    parameters: Seq<(Seq<char>, JsonModel)>,
    key: Seq<char>,
) -> Seq<(Seq<char>, JsonModel)> {
    match member(parameters, key) {
        Some(JsonModel::Object(entries)) => seq![(key, JsonModel::Object(entries))],
        _ => Seq::empty(),
    }
}

/// The format of each argument.
pub open spec fn argument_formats(
    properties: Seq<(Seq<char>, JsonModel)>,
    definitions: Seq<(Seq<char>, JsonModel)>,
) -> Seq<FormatModel> {
    properties.map_values(
        |property: (Seq<char>, JsonModel)|
            FormatModel::Tag(
                match argument_format(property.0, property.1, definitions) {
                    Some(tag) => tag,
                    None => any_argument_format(),
                },
            ),
    )
}

/// The arguments of a call: any number of those that the schema of the tool names,
/// or of any where it names none.
pub open spec fn arguments_format(parameters: Option<JsonModel>) -> FormatModel {
    let any = FormatModel::Star(Box::new(FormatModel::Tag(any_argument_format())));
    match parameters {
        Some(JsonModel::Object(entries)) => match member(entries, "properties"@) {
            Some(JsonModel::Object(properties)) if properties.len() > 0 => FormatModel::Star(
                Box::new(choice_of(argument_formats(properties, shared_definitions(entries)))),
            ),
            _ => any,
        },
        _ => any,
    }
}

/// The beginning of a call, up to its index.
pub open spec fn call_begin(name: Seq<char>) -> Seq<char> {
    CALL_OPEN_PREFIX@ + attr_text("tool"@, name) + " index=\""@
}

/// The calls of one tool. The schema of the tool holds unless it opts out and
/// schemas are not held to strictly.
pub open spec fn call_format(tool: DefinitionModel, strict: bool) -> TagModel {
    TagModel {
        begin: call_begin(tool.name),
        content: Box::new(
            FormatModel::Sequence(
                seq![
                    FormatModel::Regex("[0-9]+"@),
                    FormatModel::ConstString(seq!['"'] + SEP@),
                    arguments_format(
                        if strict || tool.strict != Some(false) {
                            tool.parameters
                        } else {
                            None
                        },
                    ),
                ],
            ),
        ),
        end: CALL_CLOSE@,
    }
}

/// Appends an attribute.
fn append_attr(text: &mut Vec<char>, name: &str, value: &str)
    ensures
        final(text)@ == old(text)@ + attr_text(name@, value@),
{
    let ghost before = text@;
    text.push(' ');
    append_str(text, name);
    text.push('=');
    text.push('"');
    append_str(text, escape_attr(value).as_str());
    text.push('"');
    assert(text@ =~= before + attr_text(name@, value@));
}

/// A copy of the members of an object.
fn copy_entries(entries: &Vec<(String, JsonValue)>) -> (copies: Vec<(String, JsonValue)>)
    ensures
        entries_view(copies@) == entries_view(entries@),
{
    let mut copies: Vec<(String, JsonValue)> = Vec::new();
    let mut at: usize = 0;
    while at < entries.len()
        invariant
            at <= entries@.len(),
            copies@.len() == at,
            forall|k: int|
                0 <= k < at ==> (#[trigger] copies@[k]).0@ == entries@[k].0@ && copies@[k].1@
                    == entries@[k].1@,
        decreases entries.len() - at,
    {
        copies.push((entries[at].0.clone(), entries[at].1.duplicate()));
        at += 1;
    }
    proof {
        lemma_entries_view(copies@);
        lemma_entries_view(entries@);
        assert(entries_view(copies@) =~= entries_view(entries@));
    }
    copies
}

/// A schema with the definitions that it does not have itself.
fn embed_definitions(
    schema: &Vec<(String, JsonValue)>,
    definitions: &Vec<(String, JsonValue)>,
) -> (embedded: Vec<(String, JsonValue)>)
    ensures
        entries_view(embedded@) == with_definitions(
            entries_view(schema@),
            entries_view(definitions@),
        ),
{
    let ghost all = entries_view(definitions@);
    let mut embedded = copy_entries(schema);
    let mut at: usize = 0;
    assert(all.take(0) =~= Seq::empty());
    while at < definitions.len()
        invariant
            at <= definitions@.len(),
            all == entries_view(definitions@),
            entries_view(embedded@) == with_definitions(
                entries_view(schema@),
                all.take(at as int),
            ),
        decreases definitions.len() - at,
    {
        proof {
            lemma_entries_view(definitions@);
        }
        assert(all.take(at + 1).drop_last() =~= all.take(at as int));
        assert(all.take(at + 1).last() == all[at as int]);
        if find_member(&embedded, definitions[at].0.as_str()).is_none() {
            put_member(
                &mut embedded,
                definitions[at].0.clone(),
                definitions[at].1.duplicate(),
            );
        }
        at += 1;
    }
    proof {
        lemma_entries_view(definitions@);
    }
    assert(all.take(at as int) =~= all);
    embedded
}

/// The tag of an argument whose schema says one of the known types.
pub fn argument_tag(key: &str, schema: &JsonValue, root_defs: &Vec<(String, JsonValue)>) -> (tag:
    Option<TagFormat>)
    ensures
        match (tag, argument_format(key@, schema@, entries_view(root_defs@))) {
            (Some(tag), Some(model)) => tag@ == model,
            (None, None) => true,
            _ => false,
        },
{
    let entries = match schema.as_object() {
        Some(entries) => entries,
        None => {
            return None;
        },
    };
    let json_type = match find_member(entries, "type") {
        Some(JsonValue::Text(json_type)) => json_type,
        _ => {
            return None;
        },
    };
    let name = match find_xtml_type(json_type.as_str()) {
        Some(name) => name,
        None => {
            return None;
        },
    };
    let mut begin = chars_of(ARGUMENT_OPEN_PREFIX);
    append_attr(&mut begin, "key", key);
    append_attr(&mut begin, "type", name);
    append_str(&mut begin, SEP);
    assert(begin@ =~= argument_begin(key@, name@));
    let content = if same_text(json_type.as_str(), "string") {
        string_content(entries)
    } else {
        Format::JsonSchema {
            json_schema: JsonValue::Object(embed_definitions(entries, root_defs)),
        }
    };
    Some(
        TagFormat {
            begin: string_of(begin.as_slice()),
            content: Box::new(content),
            end: ARGUMENT_CLOSE.to_owned(),
        },
    )
}

/// The tag of an argument of which nothing is known.
pub fn permissive_argument_tag() -> (tag: TagFormat)
    ensures
        tag@ == any_argument_format(),
{
    let mut begin = chars_of(ARGUMENT_OPEN_PREFIX);
    begin.push(' ');
    assert(begin@ =~= ARGUMENT_OPEN_PREFIX@ + seq![' ']);
    let mut elements: Vec<Format> = Vec::new();
    elements.push(Format::Regex { pattern: OPEN_TAG_PATTERN.to_owned() });
    elements.push(Format::AnyText { excludes: one_text(CLOSE) });
    proof {
        lemma_formats_view(elements@);
        assert(formats_view(elements@) =~= seq![
            FormatModel::Regex(OPEN_TAG_PATTERN@),
            FormatModel::AnyText(seq![CLOSE@]),
        ]);
    }
    TagFormat {
        begin: string_of(begin.as_slice()),
        content: Box::new(Format::Sequence { elements }),
        end: ARGUMENT_CLOSE.to_owned(),
    }
}

/// Appends the definitions under one key, if they are an object.
fn append_definitions(
    definitions: &mut Vec<(String, JsonValue)>,
    parameters: &Vec<(String, JsonValue)>,
    key: &str,
)
    ensures
        entries_view(final(definitions)@) == entries_view(old(definitions)@) + definitions_under(
            entries_view(parameters@),
            key@,
        ),
{
    let ghost before = definitions@;
    if let Some(JsonValue::Object(entries)) = find_member(parameters, key) {
        definitions.push((key.to_owned(), JsonValue::Object(copy_entries(entries))));
        assert(definitions@.drop_last() =~= before);
    }
    assert(entries_view(definitions@) =~= entries_view(before) + definitions_under(
        entries_view(parameters@),
        key@,
    ));
}

/// The format of each argument.
fn argument_tags(
    properties: &Vec<(String, JsonValue)>,
    root_defs: &Vec<(String, JsonValue)>,
) -> (tags: Vec<Format>)
    ensures
        formats_view(tags@) == argument_formats(
            entries_view(properties@),
            entries_view(root_defs@),
        ),
{
    let ghost all = entries_view(properties@);
    let ghost definitions = entries_view(root_defs@);
    let mut tags: Vec<Format> = Vec::new();
    let mut at: usize = 0;
    proof {
        lemma_entries_view(properties@);
    }
    while at < properties.len()
        invariant
            at <= properties@.len(),
            all == entries_view(properties@),
            all.len() == properties@.len(),
            definitions == entries_view(root_defs@),
            tags@.len() == at,
            forall|k: int|
                0 <= k < at ==> (#[trigger] tags@[k])@ == argument_formats(all, definitions)[k],
        decreases properties.len() - at,
    {
        proof {
            lemma_entries_view(properties@);
            assert(all[at as int] == (properties@[at as int].0@, properties@[at as int].1@));
        }
        let tag = match argument_tag(
            properties[at].0.as_str(),
            &properties[at].1,
            root_defs,
        ) {
            Some(tag) => tag,
            None => permissive_argument_tag(),
        };
        tags.push(Format::Tag(tag));
        at += 1;
    }
    proof {
        lemma_formats_view(tags@);
        assert(formats_view(tags@) =~= argument_formats(all, definitions));
    }
    tags
}

/// The arguments of a call.
pub fn arguments_block(parameters: Option<&JsonValue>) -> (format: Format)
    ensures
        format@ == arguments_format(
            match parameters {
                Some(parameters) => Some(parameters@),
                None => None,
            },
        ),
{
    if let Some(JsonValue::Object(entries)) = parameters {
        if let Some(JsonValue::Object(properties)) = find_member(entries, "properties") {
            proof {
                lemma_entries_view(properties@);
            }
            if properties.len() > 0 {
                let mut root_defs: Vec<(String, JsonValue)> = Vec::new();
                append_definitions(&mut root_defs, entries, "$defs");
                append_definitions(&mut root_defs, entries, "definitions");
                assert(entries_view(root_defs@) =~= shared_definitions(entries_view(entries@)));
                return star(one_of(argument_tags(properties, &root_defs)));
            }
        }
    }
    star(Format::Tag(permissive_argument_tag()))
}

/// The calls of one tool.
pub fn call_tag(tool: &ToolDefinition, strict_schema: bool) -> (tag: TagFormat)
    ensures
        tag@ == call_format(tool@, strict_schema),
{
    let opted_out = match tool.strict {
        Some(strict) => !strict,
        None => false,
    };
    let parameters = if strict_schema || !opted_out {
        tool.parameters.as_ref()
    } else {
        None
    };
    let mut begin = chars_of(CALL_OPEN_PREFIX);
    append_attr(&mut begin, "tool", tool.name.as_str());
    append_str(&mut begin, " index=\"");
    assert(begin@ =~= call_begin(tool.name@));
    let mut separator: Vec<char> = Vec::new();
    separator.push('"');
    append_str(&mut separator, SEP);
    assert(separator@ =~= seq!['"'] + SEP@);
    let mut elements: Vec<Format> = Vec::new();
    elements.push(Format::Regex { pattern: "[0-9]+".to_owned() });
    elements.push(Format::ConstString { value: string_of(separator.as_slice()) });
    elements.push(arguments_block(parameters));
    let tag = TagFormat {
        begin: string_of(begin.as_slice()),
        content: Box::new(Format::Sequence { elements }),
        end: CALL_CLOSE.to_owned(),
    };
    proof {
        lemma_formats_view(elements@);
        assert(FormatModel::Sequence(formats_view(elements@)) == *call_format(
            tool@,
            strict_schema,
        ).content) by {
            assert(formats_view(elements@) =~= seq![
                FormatModel::Regex("[0-9]+"@),
                FormatModel::ConstString(seq!['"'] + SEP@),
                arguments_format(
                    if strict_schema || tool@.strict != Some(false) {
                        tool@.parameters
                    } else {
                        None
                    },
                ),
            ]);
        }
    }
    tag
}

/// What a [`ToolChoice`] holds.
pub enum ChoiceModel {
    NoTools,
    Auto,
    Required,
    Named(Seq<char>),
}

impl View for ToolChoice {
    type V = ChoiceModel;

    open spec fn view(&self) -> ChoiceModel {
        match self {
            ToolChoice::NoTools => ChoiceModel::NoTools,
            ToolChoice::Auto => ChoiceModel::Auto,
            ToolChoice::Required => ChoiceModel::Required,
            ToolChoice::Named(name) => ChoiceModel::Named(name@),
        }
    }
}

/// The first tool with the given name.
pub open spec fn tool_named(tools: Seq<DefinitionModel>, name: Seq<char>) -> Option<DefinitionModel>
    decreases tools.len(),
{
    if tools.len() == 0 {
        None
    } else if tools[0].name == name {
        Some(tools[0])
    } else {
        tool_named(tools.drop_first(), name)
    }
}

/// The tools that the model may call, and whether it must call one. There are none
/// where a tool is named that is not offered.
pub open spec fn chosen_tools(choice: ChoiceModel, tools: Seq<DefinitionModel>) -> Option<
    (Seq<DefinitionModel>, bool),
> {
    match choice {
        ChoiceModel::NoTools => Some((Seq::empty(), false)),
        ChoiceModel::Auto => Some((tools, false)),
        ChoiceModel::Required => Some((tools, true)),
        ChoiceModel::Named(name) => match tool_named(tools, name) {
            Some(tool) => Some((seq![tool], true)),
            None => None,
        },
    }
}

/// A list of references to definitions, as they are meant.
pub open spec fn references_view(tools: Seq<&ToolDefinition>) -> Seq<DefinitionModel> {
    tools.map_values(|tool: &ToolDefinition| tool@)
}

impl<'a> ToolCallFormatBuildContext<'a> {
    /// Every schema holds.
    pub open spec fn is_strict(self) -> bool {
        self.schema_mode is Strict
    }

    /// Whether every schema holds.
    pub fn strict_schema(&self) -> (strict: bool)
        ensures
            strict == self.is_strict(),
    {
        match self.schema_mode {
            StructuralTagSchemaMode::Strict => true,
            StructuralTagSchemaMode::Auto => false,
        }
    }

    /// Whether the model may make one call only: where parallel calls are turned
    /// off.
    pub fn stop_after_first(&self) -> (stop: bool)
        ensures
            stop == (self.parallel_tool_calls == Some(false)),
    {
        match self.parallel_tool_calls {
            Some(parallel) => !parallel,
            None => false,
        }
    }
}

/// The first tool with the given name.
fn find_tool<'a>(tools: &'a [ToolDefinition], name: &str) -> (found: Option<&'a ToolDefinition>)
    ensures
        match (found, tool_named(definitions_view(tools@), name@)) {
            (Some(tool), Some(model)) => tool@ == model,
            (None, None) => true,
            _ => false,
        },
{
    let ghost all = definitions_view(tools@);
    let mut at: usize = 0;
    assert(all.skip(0) =~= all);
    while at < tools.len()
        invariant
            at <= tools@.len(),
            all == definitions_view(tools@),
            tool_named(all, name@) == tool_named(all.skip(at as int), name@),
        decreases tools.len() - at,
    {
        assert(all.skip(at as int)[0] == tools@[at as int]@);
        if same_text(tools[at].name.as_str(), name) {
            return Some(&tools[at]);
        }
        assert(all.skip(at as int).drop_first() =~= all.skip(at + 1));
        at += 1;
    }
    None
}

/// The tools that the model may call, and whether it must call one.
pub fn resolve_tools_to_include<'a>(ctx: &ToolCallFormatBuildContext<'a>) -> (chosen: Result<
    (Vec<&'a ToolDefinition>, bool),
    ToolCallError,
>)
    ensures
        match (chosen, chosen_tools(ctx.tool_choice@, definitions_view(ctx.tools@))) {
            (Ok((tools, at_least_one)), Some((model, must))) => references_view(tools@) == model
                && at_least_one == must,
            (Err(ToolCallError::UnknownTool(name)), None) => ctx.tool_choice@
                == ChoiceModel::Named(name@),
            _ => false,
        },
{
    let mut chosen: Vec<&'a ToolDefinition> = Vec::new();
    match ctx.tool_choice {
        ToolChoice::NoTools => {
            assert(references_view(chosen@) =~= Seq::empty());
            Ok((chosen, false))
        },
        ToolChoice::Named(name) => match find_tool(ctx.tools, name.as_str()) {
            Some(tool) => {
                chosen.push(tool);
                assert(references_view(chosen@) =~= seq![tool@]);
                Ok((chosen, true))
            },
            None => Err(ToolCallError::UnknownTool(name.clone())),
        },
        _ => {
            let mut at: usize = 0;
            while at < ctx.tools.len()
                invariant
                    at <= ctx.tools@.len(),
                    chosen@.len() == at,
                    forall|k: int| 0 <= k < at ==> (#[trigger] chosen@[k])@ == ctx.tools@[k]@,
                decreases ctx.tools.len() - at,
            {
                chosen.push(&ctx.tools[at]);
                at += 1;
            }
            assert(references_view(chosen@) =~= definitions_view(ctx.tools@));
            let at_least_one = match ctx.tool_choice {
                ToolChoice::Required => true,
                _ => false,
            };
            Ok((chosen, at_least_one))
        },
    }
}

/// The calls of each tool.
pub open spec fn call_formats(tools: Seq<DefinitionModel>, strict: bool) -> Seq<TagModel> {
    tools.map_values(|tool: DefinitionModel| call_format(tool, strict))
}

/// The tools section.
pub open spec fn tools_format(
    tools: Seq<DefinitionModel>,
    strict: bool,
    stop_after_first: bool,
) -> FormatModel {
    FormatModel::Tag(
        TagModel {
            begin: TOOLS_OPEN@,
            content: Box::new(
                FormatModel::TagsWithSeparator {
                    tags: call_formats(tools, strict),
                    separator: Seq::empty(),
                    at_least_one: true,
                    stop_after_first,
                },
            ),
            end: TOOLS_CLOSE@,
        },
    )
}

/// The response. Where a tool is named it is empty, so that the model does not
/// write the call a second time as text.
pub open spec fn response_format(named: bool) -> FormatModel {
    FormatModel::Tag(
        TagModel {
            begin: Seq::empty(),
            content: Box::new(
                if named {
                    FormatModel::ConstString(Seq::empty())
                } else {
                    FormatModel::AnyText(Seq::empty())
                },
            ),
            end: RESPONSE_CLOSE@,
        },
    )
}

/// A text that may be left out.
pub open spec fn optional_text(text: Seq<char>) -> FormatModel {
    FormatModel::Optional(Box::new(FormatModel::ConstString(text)))
}

/// The format of a message: the response, the tools section, which may be left out
/// where no call is due, and the end of the message.
pub open spec fn message_format(
    tools: Seq<DefinitionModel>,
    at_least_one: bool,
    named: bool,
    strict: bool,
    stop_after_first: bool,
) -> FormatModel {
    let section = tools_format(tools, strict, stop_after_first);
    FormatModel::Sequence(
        seq![
            optional_text(RESPONSE_OPEN@),
            response_format(named),
            if at_least_one {
                section
            } else {
                FormatModel::Optional(Box::new(section))
            },
            optional_text(MESSAGE_CLOSE@),
        ],
    )
}

/// The calls of each tool.
fn call_tags(tools: &Vec<&ToolDefinition>, strict: bool) -> (tags: Vec<TagFormat>)
    ensures
        tags_view(tags@) == call_formats(references_view(tools@), strict),
{
    let mut tags: Vec<TagFormat> = Vec::new();
    let mut at: usize = 0;
    while at < tools.len()
        invariant
            at <= tools@.len(),
            tags@.len() == at,
            forall|k: int|
                0 <= k < at ==> (#[trigger] tags@[k])@ == call_format(tools@[k]@, strict),
        decreases tools.len() - at,
    {
        tags.push(call_tag(tools[at], strict));
        at += 1;
    }
    proof {
        lemma_tags_view(tags@);
        assert(tags_view(tags@) =~= call_formats(references_view(tools@), strict));
    }
    tags
}

/// The response.
fn response_tag(named: bool) -> (format: Format)
    ensures
        format@ == response_format(named),
{
    proof {
        reveal_strlit("");
        assert(""@ =~= Seq::empty());
    }
    let content = if named {
        Format::ConstString { value: String::new() }
    } else {
        let excludes: Vec<String> = Vec::new();
        assert(string_texts(excludes@) =~= Seq::empty());
        Format::AnyText { excludes }
    };
    tag_of("", content, RESPONSE_CLOSE)
}

/// Content between a beginning and an end.
fn tag_of(begin: &str, content: Format, end: &str) -> (format: Format)
    ensures
        format@ == FormatModel::Tag(
            TagModel { begin: begin@, content: Box::new(content@), end: end@ },
        ),
{
    let tag = TagFormat {
        begin: begin.to_owned(),
        content: Box::new(content),
        end: end.to_owned(),
    };
    assert(tag@ == (TagModel { begin: begin@, content: Box::new(content@), end: end@ }));
    Format::Tag(tag)
}

/// The structural tag for the response and the tools of Kimi K3. There is none
/// where no tool may be called; a tool that is named but not offered is an error.
pub fn build_kimi_k3(ctx: &ToolCallFormatBuildContext<'_>) -> (built: Result<
    Option<StructuralTag>,
    ToolCallError,
>)
    ensures
        match (built, chosen_tools(ctx.tool_choice@, definitions_view(ctx.tools@))) {
            (Ok(Some(tag)), Some((tools, at_least_one))) => tools.len() > 0 && tag.format@
                == message_format(
                tools,
                at_least_one,
                ctx.tool_choice@ is Named,
                ctx.is_strict(),
                ctx.parallel_tool_calls == Some(false),
            ),
            (Ok(None), Some((tools, _))) => tools.len() == 0,
            (Err(ToolCallError::UnknownTool(name)), None) => ctx.tool_choice@
                == ChoiceModel::Named(name@),
            _ => false,
        },
{
    let (tools, at_least_one) = match resolve_tools_to_include(ctx) {
        Ok((tools, at_least_one)) => (tools, at_least_one),
        Err(error) => {
            return Err(error);
        },
    };
    assert(references_view(tools@).len() == tools@.len());
    if tools.len() == 0 {
        return Ok(None);
    }
    let named = match ctx.tool_choice {
        ToolChoice::Named(_) => true,
        _ => false,
    };
    let calls = Format::TagsWithSeparator {
        tags: call_tags(&tools, ctx.strict_schema()),
        separator: String::new(),
        at_least_one: true,
        stop_after_first: ctx.stop_after_first(),
    };
    let tools_channel = tag_of(TOOLS_OPEN, calls, TOOLS_CLOSE);
    assert(tools_channel@ == tools_format(
        references_view(tools@),
        ctx.is_strict(),
        ctx.parallel_tool_calls == Some(false),
    ));
    let tools_part = if at_least_one {
        tools_channel
    } else {
        optional(tools_channel)
    };
    let mut elements: Vec<Format> = Vec::new();
    elements.push(optional(Format::ConstString { value: RESPONSE_OPEN.to_owned() }));
    elements.push(response_tag(named));
    elements.push(tools_part);
    elements.push(optional(Format::ConstString { value: MESSAGE_CLOSE.to_owned() }));
    proof {
        lemma_formats_view(elements@);
        let model = message_format(
            references_view(tools@),
            at_least_one,
            named,
            ctx.is_strict(),
            ctx.parallel_tool_calls == Some(false),
        );
        assert(formats_view(elements@) =~= model->Sequence_0);
    }
    Ok(Some(StructuralTag { format: Format::Sequence { elements } }))
}

} // verus!
