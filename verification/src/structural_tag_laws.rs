//! What holds of the structural tag as a whole: it lets through what the parser
//! reads, and its JSON form is well-formed.
use crate::attributes::{attr_text, lemma_escaped_plain};
use crate::decimal::{digits, is_digit, lemma_digits_read_back, lemma_numeral_reads_back};
use crate::format::schemas_well_formed;
use crate::json::{
    lemma_member_well_formed, lemma_with_member_well_formed, member, well_formed, JsonModel,
};
use crate::kimi_k3::{body_arguments, call_at, call_id, CALL_CLOSE, SEP};
use crate::kimi_k3_laws::{lemma_call_reads_back, written_argument, written_call};
use crate::response::CallModel;
use crate::structural_tag::{
    any_argument_format, argument_begin, argument_format, argument_formats, arguments_format,
    call_begin, call_format, call_formats, choice_of, chosen_tools, const_strings,
    definitions_under, message_format, shared_definitions, string_format, tool_named, tools_format,
    with_definitions, ChoiceModel,
};
use crate::text::{first_index, lemma_first_index_is, occurs, occurs_at, trim};
use crate::tools::DefinitionModel;
use vstd::prelude::*;

verus! {

/// What the tag of a call lets through is a call as the parser reads it.
pub proof fn lemma_call_tag_writes_call(name: Seq<char>, index: Seq<char>, body: Seq<char>)
    requires
        forall|at: int| 0 <= at < index.len() ==> is_digit(#[trigger] index[at]),
    ensures
        call_begin(name) + index + (seq!['"'] + SEP@) + body + CALL_CLOSE@ == written_call(
            name,
            index,
            body,
        ),
{
    reveal_strlit(" index=\"");
    reveal_strlit("index");
    assert forall|at: int| 0 <= at < index.len() implies (#[trigger] index[at]) != '&' && index[at]
        != '"' by {
        assert(is_digit(index[at]));
    }
    lemma_escaped_plain(index);
    assert(attr_text("index"@, index) =~= " index=\""@ + index + seq!['"']);
    assert(call_begin(name) + index + (seq!['"'] + SEP@) + body + CALL_CLOSE@ =~= written_call(
        name,
        index,
        body,
    ));
}

/// The parser reads what the tag of a call lets through: a call of the tool whose
/// tag it is, with the arguments of its body. The name must not hold a separator,
/// and the body not the closer.
pub proof fn lemma_call_tag_read(
    tool: DefinitionModel,
    strict: bool,
    index: Seq<char>,
    body: Seq<char>,
    rest: Seq<char>,
)
    requires
        tool.name.len() > 0,
        forall|at: int| 0 <= at < index.len() ==> is_digit(#[trigger] index[at]),
        !occurs(tool.name, SEP@),
        first_index(body + CALL_CLOSE@, CALL_CLOSE@) == Some(body.len() as int),
        body_arguments(body) is Some,
    ensures
        ({
            let tag = call_format(tool, strict);
            let text = tag.begin + index + (seq!['"'] + SEP@) + body + tag.end;
            call_at(text + rest, false) == Some(
                (
                    Some(
                        CallModel {
                            id: call_id(tool.name, Some(index)),
                            name: tool.name,
                            arguments: body_arguments(body)->0,
                        },
                    ),
                    text.len() as int,
                ),
            )
        }),
{
    reveal_strlit("<|sep|>");
    lemma_call_tag_writes_call(tool.name, index, body);
    if occurs(index, SEP@) {
        let at = choose|at: int| occurs_at(index, SEP@, at);
        assert(index.subrange(at, at + 7)[0] == index[at]);
        assert(is_digit(index[at]));
    }
    lemma_call_reads_back(tool.name, index, body, rest, false);
}

/// The parser reads a call without arguments that its tag lets through: its index
/// counts from one, and its identifier from zero. The name must not hold a
/// separator.
pub proof fn lemma_bare_call_tag_read(
    tool: DefinitionModel,
    strict: bool,
    number: i64,
    rest: Seq<char>,
)
    requires
        tool.name.len() > 0,
        !occurs(tool.name, SEP@),
        number >= 1,
    ensures
        ({
            let tag = call_format(tool, strict);
            let text = tag.begin + digits(number as nat) + (seq!['"'] + SEP@) + tag.end;
            call_at(text + rest, false) == Some(
                (
                    Some(
                        CallModel {
                            id: tool.name + seq![':'] + digits((number - 1) as nat),
                            name: tool.name,
                            arguments: "{}"@,
                        },
                    ),
                    text.len() as int,
                ),
            )
        }),
{
    let index = digits(number as nat);
    let body = Seq::<char>::empty();
    let tag = call_format(tool, strict);
    let text = tag.begin + index + (seq!['"'] + SEP@) + tag.end;
    lemma_digits_read_back(number as nat);
    lemma_numeral_reads_back(number);
    assert(body + CALL_CLOSE@ =~= CALL_CLOSE@);
    assert(CALL_CLOSE@.subrange(0, CALL_CLOSE@.len() as int) =~= CALL_CLOSE@);
    lemma_first_index_is(CALL_CLOSE@, CALL_CLOSE@, 0);
    assert(trim(body).len() == 0);
    lemma_call_tag_read(tool, strict, index, body, rest);
    assert(tag.begin + index + (seq!['"'] + SEP@) + body + tag.end =~= text);
}

/// What the tag of an argument lets through is an argument as the parser reads it.
pub proof fn lemma_argument_tag_writes_argument(
    key: Seq<char>,
    arg_type: Seq<char>,
    value: Seq<char>,
)
    ensures
        argument_begin(key, arg_type) + (value + crate::kimi_k3::ARGUMENT_CLOSE@)
            == written_argument(key, arg_type, value),
{
}

/// A named choice leaves one tool, the one with that name, and a call of it is due.
pub proof fn lemma_named_choice(tools: Seq<DefinitionModel>, name: Seq<char>)
    ensures
        chosen_tools(ChoiceModel::Named(name), tools) matches Some((chosen, at_least_one))
            ==> chosen.len() == 1 && chosen[0].name == name && tools.contains(chosen[0])
            && at_least_one,
        chosen_tools(ChoiceModel::Named(name), tools) is None ==> forall|k: int|
            0 <= k < tools.len() ==> (#[trigger] tools[k]).name != name,
{
    lemma_tool_named(tools, name);
}

proof fn lemma_tool_named(tools: Seq<DefinitionModel>, name: Seq<char>)
    ensures
        tool_named(tools, name) matches Some(tool) ==> tool.name == name && tools.contains(tool),
        tool_named(tools, name) is None ==> forall|k: int|
            0 <= k < tools.len() ==> (#[trigger] tools[k]).name != name,
    decreases tools.len(),
{
    if tools.len() > 0 {
        let rest = tools.drop_first();
        lemma_tool_named(rest, name);
        if tools[0].name == name {
            assert(tools.contains(tools[0]));
        } else if let Some(tool) = tool_named(rest, name) {
            let k = choose|k: int| 0 <= k < rest.len() && rest[k] == tool;
            assert(tools[k + 1] == tool);
        } else {
            assert forall|k: int| 0 <= k < tools.len() implies (#[trigger] tools[k]).name
                != name by {
                if k > 0 {
                    assert(tools[k] == rest[k - 1]);
                }
            }
        }
    }
}

/// The schema of the tool, where it has one, is well-formed.
pub open spec fn has_well_formed_schema(tool: DefinitionModel) -> bool {
    tool.parameters matches Some(schema) ==> well_formed(schema)
}

proof fn lemma_with_definitions(
    schema: Seq<(Seq<char>, JsonModel)>,
    definitions: Seq<(Seq<char>, JsonModel)>,
)
    requires
        well_formed(JsonModel::Object(schema)),
        forall|k: int| 0 <= k < definitions.len() ==> well_formed((#[trigger] definitions[k]).1),
    ensures
        well_formed(JsonModel::Object(with_definitions(schema, definitions))),
    decreases definitions.len(),
{
    if definitions.len() > 0 {
        let start = definitions.drop_last();
        assert forall|k: int| 0 <= k < start.len() implies well_formed((#[trigger] start[k]).1) by {
            assert(start[k] == definitions[k]);
        }
        lemma_with_definitions(schema, start);
        let before = with_definitions(schema, start);
        let (key, value) = definitions.last();
        assert(well_formed(definitions[definitions.len() - 1].1));
        if member(before, key) is None {
            lemma_with_member_well_formed(before, key, value);
        }
    }
}

proof fn lemma_string_format(schema: Seq<(Seq<char>, JsonModel)>)
    ensures
        schemas_well_formed(string_format(schema)),
{
    reveal_with_fuel(schemas_well_formed, 3);
    match crate::structural_tag::listed_values(schema) {
        Some(values) if crate::structural_tag::can_be_listed(values) => {
            let elements = const_strings(values);
            assert forall|k: int| 0 <= k < elements.len() implies schemas_well_formed(
                #[trigger] elements[k],
            ) by {
                assert(elements[k] is ConstString);
            }
            assert(schemas_well_formed(choice_of(elements)));
        },
        _ => {},
    }
}

proof fn lemma_argument_format(
    key: Seq<char>,
    schema: JsonModel,
    definitions: Seq<(Seq<char>, JsonModel)>,
)
    requires
        well_formed(schema),
        forall|k: int| 0 <= k < definitions.len() ==> well_formed((#[trigger] definitions[k]).1),
    ensures
        argument_format(key, schema, definitions) matches Some(tag) ==> schemas_well_formed(
            *tag.content,
        ),
{
    if let JsonModel::Object(entries) = schema {
        lemma_string_format(entries);
        lemma_with_definitions(entries, definitions);
    }
}

proof fn lemma_any_argument_format()
    ensures
        schemas_well_formed(*any_argument_format().content),
{
    reveal_with_fuel(schemas_well_formed, 3);
}

proof fn lemma_arguments_format(parameters: Option<JsonModel>)
    requires
        parameters matches Some(schema) ==> well_formed(schema),
    ensures
        schemas_well_formed(arguments_format(parameters)),
{
    reveal_with_fuel(schemas_well_formed, 4);
    lemma_any_argument_format();
    if let Some(JsonModel::Object(entries)) = parameters {
        lemma_member_well_formed(entries, "properties"@);
        lemma_member_well_formed(entries, "$defs"@);
        lemma_member_well_formed(entries, "definitions"@);
        if let Some(JsonModel::Object(properties)) = member(entries, "properties"@) {
            let definitions = shared_definitions(entries);
            let first = definitions_under(entries, "$defs"@);
            let second = definitions_under(entries, "definitions"@);
            assert forall|k: int| 0 <= k < definitions.len() implies well_formed(
                (#[trigger] definitions[k]).1,
            ) by {
                if k < first.len() {
                    assert(definitions[k] == first[k]);
                } else {
                    assert(definitions[k] == second[k - first.len()]);
                }
            }
            let elements = argument_formats(properties, definitions);
            assert forall|k: int| 0 <= k < elements.len() implies schemas_well_formed(
                #[trigger] elements[k],
            ) by {
                let (key, schema) = properties[k];
                assert(well_formed(properties[k].1));
                lemma_argument_format(key, schema, definitions);
                lemma_any_argument_format();
                let tag = elements[k]->Tag_0;
                assert(schemas_well_formed(*tag.content));
            }
            assert(schemas_well_formed(choice_of(elements)));
        }
    }
}

proof fn lemma_call_format(tool: DefinitionModel, strict: bool)
    requires
        has_well_formed_schema(tool),
    ensures
        schemas_well_formed(*call_format(tool, strict).content),
{
    let parameters = if strict || tool.strict != Some(false) {
        tool.parameters
    } else {
        None
    };
    lemma_arguments_format(parameters);
    let elements = (*call_format(tool, strict).content)->Sequence_0;
    assert forall|k: int| 0 <= k < elements.len() implies schemas_well_formed(
        #[trigger] elements[k],
    ) by {
        if k == 2 {
            assert(elements[k] == arguments_format(parameters));
        }
    }
}

/// The format of a message has a well-formed JSON form, where the schemas of the
/// tools are well-formed.
pub proof fn lemma_message_format_well_formed(
    tools: Seq<DefinitionModel>,
    at_least_one: bool,
    named: bool,
    strict: bool,
    stop_after_first: bool,
)
    requires
        forall|k: int| 0 <= k < tools.len() ==> has_well_formed_schema(#[trigger] tools[k]),
    ensures
        schemas_well_formed(
            message_format(tools, at_least_one, named, strict, stop_after_first),
        ),
{
    reveal_with_fuel(schemas_well_formed, 4);
    let tags = call_formats(tools, strict);
    assert forall|k: int| 0 <= k < tags.len() implies schemas_well_formed(
        *(#[trigger] tags[k]).content,
    ) by {
        lemma_call_format(tools[k], strict);
    }
    let section = tools_format(tools, strict, stop_after_first);
    assert(schemas_well_formed(section));
}

} // verus!
