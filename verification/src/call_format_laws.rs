//! What holds of the parts of the structural tag: which schema a call is held to, what each
//! argument may be, and how a message is made up.
use crate::attributes::attr_escaped;
use crate::decimal::digits;
use crate::format::{FormatModel, TagModel};
use crate::json::{
    keys_ascend, lemma_member_of_with_member, lemma_with_member_ascends, member, JsonModel,
    NumberModel,
};
use crate::structural_tag::{
    any_argument_format, argument_format, argument_formats, arguments_format, call_format,
    call_formats, can_be_listed, chosen_tools, const_strings, definitions_under, is_plain_text,
    listed_values, message_format, shared_definitions, string_format, with_definitions, xtml_type,
    ChoiceModel,
};
use crate::text::occurs;
use crate::tools::DefinitionModel;
use vstd::prelude::*;

verus! {

/// The calls of a tool begin with its name, have a decimal index, and end with the closer of
/// calls. Between them stand the arguments that its declared schema allows, in either schema
/// mode. Only where the tool says that it is not strict, and schemas are not held to
/// strictly, any arguments may stand there.
pub proof fn lemma_call_schema(tool: DefinitionModel, strict: bool)
    ensures
        call_format(tool, strict).begin == "<|open|>call tool=\""@ + attr_escaped(tool.name)
            + "\" index=\""@,
        call_format(tool, strict).end == "<|close|>call<|sep|>"@,
        (match *call_format(tool, strict).content {
            FormatModel::Sequence(elements) => {
                &&& elements.len() == 3
                &&& elements[0] == FormatModel::Regex("[0-9]+"@)
                &&& elements[1] == FormatModel::ConstString("\"<|sep|>"@)
                &&& tool.strict != Some(false) ==> elements[2] == arguments_format(
                    tool.parameters,
                )
                &&& strict ==> elements[2] == arguments_format(tool.parameters)
                &&& tool.strict == Some(false) && !strict ==> elements[2] == arguments_format(None)
            },
            _ => false,
        }),
{
    reveal_strlit("<|open|>call tool=\"");
    reveal_strlit("<|open|>call");
    reveal_strlit("tool");
    reveal_strlit("\" index=\"");
    reveal_strlit(" index=\"");
    reveal_strlit("\"<|sep|>");
    reveal_strlit("<|sep|>");
    let tag = call_format(tool, strict);
    assert(tag.begin =~= "<|open|>call tool=\""@ + attr_escaped(tool.name) + "\" index=\""@);
    assert("\"<|sep|>"@ =~= seq!['"'] + "<|sep|>"@);
}

/// There is one call tag for each tool, in the order of the tools.
pub proof fn lemma_call_formats(tools: Seq<DefinitionModel>, strict: bool)
    ensures
        call_formats(tools, strict).len() == tools.len(),
        forall|k: int|
            0 <= k < tools.len() ==> (#[trigger] call_formats(tools, strict)[k]) == call_format(
                tools[k],
                strict,
            ),
{
}

/// The tags of which any number may stand in a call: the alternatives, or the one that there
/// is.
pub open spec fn allowed_arguments(format: FormatModel) -> Seq<FormatModel> {
    match format {
        FormatModel::Star(content) => match *content {
            FormatModel::Or(elements) => elements,
            other => seq![other],
        },
        _ => Seq::empty(),
    }
}

/// A schema with properties allows one argument for each of them, in their order: the one
/// that the property describes where it says a known type, and any argument where not.
pub proof fn lemma_arguments_of_schema(
    schema: Seq<(Seq<char>, JsonModel)>,
    properties: Seq<(Seq<char>, JsonModel)>,
)
    requires
        member(schema, "properties"@) == Some(JsonModel::Object(properties)),
        properties.len() > 0,
    ensures
        ({
            let format = arguments_format(Some(JsonModel::Object(schema)));
            let allowed = allowed_arguments(format);
            &&& format is Star
            &&& allowed.len() == properties.len()
            &&& forall|k: int|
                0 <= k < properties.len() ==> (#[trigger] allowed[k]) == FormatModel::Tag(
                    match argument_format(
                        properties[k].0,
                        properties[k].1,
                        shared_definitions(schema),
                    ) {
                        Some(tag) => tag,
                        None => any_argument_format(),
                    },
                )
        }),
{
    let elements = argument_formats(properties, shared_definitions(schema));
    let allowed = allowed_arguments(arguments_format(Some(JsonModel::Object(schema))));
    assert(elements.len() == properties.len());
    if properties.len() == 1 {
        assert(allowed =~= elements);
    }
}

/// A tool without a schema, or whose schema has no properties, allows any arguments.
pub proof fn lemma_any_arguments(parameters: Option<JsonModel>)
    requires
        parameters matches Some(JsonModel::Object(schema)) ==> !(member(
            schema,
            "properties"@,
        ) matches Some(JsonModel::Object(properties)) && properties.len() > 0),
    ensures
        arguments_format(parameters) == FormatModel::Star(
            Box::new(
                FormatModel::Tag(
                    TagModel {
                        begin: "<|open|>argument "@,
                        content: Box::new(
                            FormatModel::Sequence(
                                seq![
                                    FormatModel::Regex("[^<]*<\\|sep\\|>"@),
                                    FormatModel::AnyText(seq!["<|close|>"@]),
                                ],
                            ),
                        ),
                        end: "<|close|>argument<|sep|>"@,
                    },
                ),
            ),
        ),
{
    reveal_strlit("<|open|>argument ");
    reveal_strlit("<|open|>argument");
    assert("<|open|>argument "@ =~= "<|open|>argument"@ + seq![' ']);
}

/// The types of JSON schemas that are known: those of JSON under their own names, and
/// `integer` as `number`.
pub proof fn lemma_known_types(json_type: Seq<char>)
    ensures
        xtml_type("integer"@) == Some("number"@),
        json_type == "string"@ || json_type == "number"@ || json_type == "boolean"@ || json_type
            == "null"@ || json_type == "object"@ || json_type == "array"@ ==> xtml_type(json_type)
            == Some(json_type),
        json_type != "integer"@ && json_type != "string"@ && json_type != "number"@ && json_type
            != "boolean"@ && json_type != "null"@ && json_type != "object"@ && json_type
            != "array"@ ==> xtml_type(json_type) is None,
{
    reveal_strlit("integer");
    reveal_strlit("string");
    reveal_strlit("number");
    reveal_strlit("boolean");
    reveal_strlit("null");
    reveal_strlit("object");
    reveal_strlit("array");
    assert("integer"@[0] != "string"@[0] && "integer"@[0] != "number"@[0] && "integer"@[0]
        != "boolean"@[0] && "integer"@[0] != "null"@[0] && "integer"@[0] != "object"@[0]
        && "integer"@[0] != "array"@[0]);
}

/// The tag of an argument whose schema says a known type begins with the key and the name of
/// the type, and ends with the closer of arguments. A string may be what the schema says of
/// strings, and any other value is JSON that fits the schema with the definitions that all
/// arguments share.
pub proof fn lemma_argument_schema(
    key: Seq<char>,
    schema: Seq<(Seq<char>, JsonModel)>,
    definitions: Seq<(Seq<char>, JsonModel)>,
    json_type: Seq<char>,
)
    requires
        member(schema, "type"@) == Some(JsonModel::Text(json_type)),
    ensures
        match xtml_type(json_type) {
            Some(name) => argument_format(key, JsonModel::Object(schema), definitions) matches Some(
                tag,
            ) && {
                &&& tag.begin == "<|open|>argument key=\""@ + attr_escaped(key) + "\" type=\""@
                    + attr_escaped(name) + "\"<|sep|>"@
                &&& tag.end == "<|close|>argument<|sep|>"@
                &&& json_type == "string"@ ==> *tag.content == string_format(schema)
                &&& json_type != "string"@ ==> *tag.content == FormatModel::JsonSchema(
                    JsonModel::Object(with_definitions(schema, definitions)),
                )
            },
            None => argument_format(key, JsonModel::Object(schema), definitions) is None,
        },
{
    if let Some(name) = xtml_type(json_type) {
        reveal_strlit("<|open|>argument key=\"");
        reveal_strlit("<|open|>argument");
        reveal_strlit("key");
        reveal_strlit("type");
        reveal_strlit("\" type=\"");
        reveal_strlit("\"<|sep|>");
        reveal_strlit("<|sep|>");
        let tag = argument_format(key, JsonModel::Object(schema), definitions)->0;
        assert(tag.begin =~= "<|open|>argument key=\""@ + attr_escaped(key) + "\" type=\""@
            + attr_escaped(name) + "\"<|sep|>"@);
    }
}

/// A property that is no object, or does not say its type as a text, describes no argument.
pub proof fn lemma_untyped_property(
    key: Seq<char>,
    schema: JsonModel,
    definitions: Seq<(Seq<char>, JsonModel)>,
)
    requires
        schema matches JsonModel::Object(entries) ==> !(member(entries, "type"@) matches Some(
            JsonModel::Text(_),
        )),
    ensures
        argument_format(key, schema, definitions) is None,
{
}

/// A schema keeps its own members; of the shared definitions it gets those that it does not
/// have itself, the first where several have one key.
pub proof fn lemma_embedded_definitions(
    schema: Seq<(Seq<char>, JsonModel)>,
    definitions: Seq<(Seq<char>, JsonModel)>,
    key: Seq<char>,
)
    requires
        keys_ascend(schema),
    ensures
        member(with_definitions(schema, definitions), key) == (match member(schema, key) {
            Some(value) => Some(value),
            None => member(definitions, key),
        }),
        keys_ascend(with_definitions(schema, definitions)),
    decreases definitions.len(),
{
    if definitions.len() > 0 {
        let start = definitions.drop_last();
        let (last, value) = definitions.last();
        let before = with_definitions(schema, start);
        lemma_embedded_definitions(schema, start, key);
        lemma_embedded_definitions(schema, start, last);
        lemma_member_pushed(start, definitions.last(), key);
        assert(definitions =~= start.push(definitions.last()));
        if member(before, last) is None {
            lemma_with_member_ascends(before, last, value);
            lemma_member_of_with_member(before, last, value, key);
        }
    } else {
        assert(member(definitions, key) is None);
    }
}

proof fn lemma_member_pushed(
    entries: Seq<(Seq<char>, JsonModel)>,
    one: (Seq<char>, JsonModel),
    key: Seq<char>,
)
    ensures
        member(entries.push(one), key) == (match member(entries, key) {
            Some(value) => Some(value),
            None => if one.0 == key {
                Some(one.1)
            } else {
                None
            },
        }),
    decreases entries.len(),
{
    let more = entries.push(one);
    if entries.len() > 0 {
        lemma_member_pushed(entries.drop_first(), one, key);
        assert(more.drop_first() =~= entries.drop_first().push(one));
        assert(more[0] == entries[0]);
    } else {
        assert(more.drop_first() =~= Seq::empty());
        assert(member(more.drop_first(), key) is None);
    }
}

/// The definitions that all arguments share are those objects that the schema of the tool
/// has under `$defs` and `definitions`.
pub proof fn lemma_shared_definitions(schema: Seq<(Seq<char>, JsonModel)>, key: Seq<char>)
    ensures
        member(shared_definitions(schema), key) == (match member(schema, key) {
            Some(JsonModel::Object(entries)) if key == "$defs"@ || key == "definitions"@ => Some(
                JsonModel::Object(entries),
            ),
            _ => None,
        }),
{
    reveal_strlit("$defs");
    reveal_strlit("definitions");
    assert("$defs"@.len() != "definitions"@.len());
    reveal_with_fuel(member, 3);
    let first = definitions_under(schema, "$defs"@);
    let second = definitions_under(schema, "definitions"@);
    let all = shared_definitions(schema);
    assert(all == first + second);
    if first.len() > 0 && second.len() > 0 {
        assert(all =~= seq![first[0], second[0]]);
        assert(all.drop_first() =~= seq![second[0]]);
        assert(all.drop_first().drop_first() =~= Seq::empty());
    } else if first.len() > 0 {
        assert(all =~= seq![first[0]]);
        assert(all.drop_first() =~= Seq::empty());
    } else if second.len() > 0 {
        assert(all =~= seq![second[0]]);
        assert(all.drop_first() =~= Seq::empty());
    } else {
        assert(all =~= Seq::empty());
    }
}

/// The values are texts without the beginning of a marker: at least one, and at most as many
/// as are listed.
pub open spec fn are_listable(values: Seq<JsonModel>) -> bool {
    &&& 1 <= values.len() <= 256
    &&& forall|k: int|
        0 <= k < values.len() ==> ((#[trigger] values[k]) matches JsonModel::Text(text) && !occurs(
            text,
            "<|"@,
        ))
}

/// The alternatives of a format.
pub open spec fn alternatives(format: FormatModel) -> Seq<FormatModel> {
    match format {
        FormatModel::Or(elements) => elements,
        other => seq![other],
    }
}

/// A string whose schema lists values that can be listed is one of them, each as it is.
pub proof fn lemma_listed_string(schema: Seq<(Seq<char>, JsonModel)>, values: Seq<JsonModel>)
    requires
        member(schema, "enum"@) == Some(JsonModel::Array(values)),
        are_listable(values),
    ensures
        alternatives(string_format(schema)).len() == values.len(),
        forall|k: int|
            0 <= k < values.len() ==> (#[trigger] alternatives(string_format(schema))[k])
                == FormatModel::ConstString(values[k]->Text_0),
{
    assert forall|k: int|
        0 <= k < values.len() implies is_plain_text(#[trigger] values[k]) by {
    }
    assert(can_be_listed(values));
    let elements = const_strings(values);
    assert(elements.len() == values.len());
    if values.len() == 1 {
        assert(alternatives(string_format(schema)) =~= elements);
    }
}

/// A string whose schema gives one text, without the beginning of a marker, is that text.
pub proof fn lemma_const_string(schema: Seq<(Seq<char>, JsonModel)>, text: Seq<char>)
    requires
        !(member(schema, "enum"@) matches Some(JsonModel::Array(_))),
        member(schema, "const"@) == Some(JsonModel::Text(text)),
        !occurs(text, "<|"@),
    ensures
        string_format(schema) == FormatModel::ConstString(text),
{
    let values = seq![JsonModel::Text(text)];
    assert(is_plain_text(values[0]));
    assert(can_be_listed(values));
    assert(const_strings(values) =~= seq![FormatModel::ConstString(text)]);
}

/// The schema lists no values that can be listed.
pub open spec fn lists_nothing(schema: Seq<(Seq<char>, JsonModel)>) -> bool {
    match member(schema, "enum"@) {
        Some(JsonModel::Array(values)) => !are_listable(values),
        _ => !(member(schema, "const"@) matches Some(JsonModel::Text(text)) && !occurs(
            text,
            "<|"@,
        )),
    }
}

proof fn lemma_nothing_listed(schema: Seq<(Seq<char>, JsonModel)>)
    requires
        lists_nothing(schema),
    ensures
        listed_values(schema) matches Some(values)
            ==> !can_be_listed(values),
{
    if let Some(values) = listed_values(schema) {
        if can_be_listed(values) {
            assert forall|k: int|
                0 <= k < values.len() implies ((#[trigger] values[k]) matches JsonModel::Text(text)
                && !occurs(text, "<|"@)) by {
                assert(is_plain_text(values[k]));
            }
            assert(are_listable(values));
            if !(member(schema, "enum"@) matches Some(JsonModel::Array(_))) {
                assert(values[0] is Text);
            }
        }
    }
}

/// A string whose schema limits its length, within what patterns count, is that many
/// characters that begin no marker. A least length counts where it is not above the limit.
pub proof fn lemma_bounded_string(schema: Seq<(Seq<char>, JsonModel)>, max: u64)
    requires
        lists_nothing(schema),
        member(schema, "maxLength"@) == Some(JsonModel::Number(NumberModel::PosInt(max))),
    ensures
        max <= 4096 ==> string_format(schema) == FormatModel::Regex(
            "(?:[^<]|<[^|])"@ + seq!['{'] + digits(
                match member(schema, "minLength"@) {
                    Some(JsonModel::Number(NumberModel::PosInt(min))) if min <= max => min as nat,
                    _ => 0,
                },
            ) + seq![','] + digits(max as nat) + seq!['}'],
        ),
        max > 4096 ==> string_format(schema) == FormatModel::AnyText(seq!["<|close|>"@]),
{
    lemma_nothing_listed(schema);
}

/// Any other string is any text up to a closing tag.
pub proof fn lemma_free_string(schema: Seq<(Seq<char>, JsonModel)>)
    requires
        lists_nothing(schema),
        !(member(schema, "maxLength"@) matches Some(JsonModel::Number(NumberModel::PosInt(_)))),
    ensures
        string_format(schema) == FormatModel::AnyText(seq!["<|close|>"@]),
{
    lemma_nothing_listed(schema);
}

/// No tool may be called where tools are turned off; all may be called otherwise, and one
/// must be where a call is required.
pub proof fn lemma_choices(tools: Seq<DefinitionModel>)
    ensures
        chosen_tools(ChoiceModel::NoTools, tools) matches Some((chosen, _)) && chosen.len() == 0,
        chosen_tools(ChoiceModel::Auto, tools) == Some((tools, false)),
        chosen_tools(ChoiceModel::Required, tools) == Some((tools, true)),
{
}

/// A choice that names a tool leaves the first one with that name, and a call of it is due.
/// There is none where no tool has the name.
pub proof fn lemma_named_tool(tools: Seq<DefinitionModel>, name: Seq<char>, k: int)
    ensures
        (forall|j: int| 0 <= j < tools.len() ==> (#[trigger] tools[j]).name != name)
            ==> chosen_tools(ChoiceModel::Named(name), tools) is None,
        0 <= k < tools.len() && tools[k].name == name && (forall|j: int|
            0 <= j < k ==> (#[trigger] tools[j]).name != name) ==> chosen_tools(
            ChoiceModel::Named(name),
            tools,
        ) == Some((seq![tools[k]], true)),
    decreases tools.len(),
{
    if tools.len() > 0 {
        let rest = tools.drop_first();
        lemma_named_tool(rest, name, k - 1);
        assert forall|j: int| 0 <= j < rest.len() implies rest[j] == tools[j + 1] by {}
        if tools[0].name == name {
            if 0 < k < tools.len() && forall|j: int| 0 <= j < k ==> (#[trigger] tools[j]).name
                != name {
                assert(tools[0].name != name);
            }
        } else {
            if forall|j: int| 0 <= j < tools.len() ==> (#[trigger] tools[j]).name != name {
                assert forall|j: int| 0 <= j < rest.len() implies (#[trigger] rest[j]).name
                    != name by {
                    assert(rest[j] == tools[j + 1]);
                }
            }
            if 0 < k < tools.len() && tools[k].name == name && forall|j: int|
                0 <= j < k ==> (#[trigger] tools[j]).name != name {
                assert forall|j: int| 0 <= j < k - 1 implies (#[trigger] rest[j]).name != name by {
                    assert(rest[j] == tools[j + 1]);
                }
                assert(rest[k - 1] == tools[k]);
            }
        }
    }
}

/// A message is a response and a tools section, with the opener of the response and the end
/// of the message left to the model. The section may be left out only where no call is due;
/// it holds at least one call of the tools, and only one where that is asked for. Where a
/// tool is named the response is empty.
pub proof fn lemma_message_parts(
    tools: Seq<DefinitionModel>,
    at_least_one: bool,
    named: bool,
    strict: bool,
    stop_after_first: bool,
)
    ensures
        ({
            let section = FormatModel::Tag(
                TagModel {
                    begin: "<|open|>tools<|sep|>"@,
                    content: Box::new(
                        FormatModel::TagsWithSeparator {
                            tags: call_formats(tools, strict),
                            separator: Seq::empty(),
                            at_least_one: true,
                            stop_after_first,
                        },
                    ),
                    end: "<|close|>tools<|sep|>"@,
                },
            );
            let response = FormatModel::Tag(
                TagModel {
                    begin: Seq::empty(),
                    content: Box::new(
                        if named {
                            FormatModel::ConstString(Seq::empty())
                        } else {
                            FormatModel::AnyText(Seq::empty())
                        },
                    ),
                    end: "<|close|>response<|sep|>"@,
                },
            );
            match message_format(tools, at_least_one, named, strict, stop_after_first) {
                FormatModel::Sequence(elements) => {
                    &&& elements.len() == 4
                    &&& elements[0] == FormatModel::Optional(
                        Box::new(FormatModel::ConstString("<|open|>response<|sep|>"@)),
                    )
                    &&& elements[1] == response
                    &&& at_least_one ==> elements[2] == section
                    &&& !at_least_one ==> elements[2] == FormatModel::Optional(Box::new(section))
                    &&& elements[3] == FormatModel::Optional(
                        Box::new(FormatModel::ConstString("<|close|>message<|sep|>"@)),
                    )
                },
                _ => false,
            }
        }),
{
}

} // verus!
