//! What holds of the calls of Qwen3-Coder: how values are typed, how names are read, and
//! what a function with its parameters is read as.
use crate::arguments::{lemma_reordered_all_named, reordered};
use crate::block_laws::{lemma_bare_invoke_taken, lemma_block_invoke_over_end, lemma_stray_removed};
use crate::error::ToolCallError;
use crate::json::{
    braced, compact_text, json_parsed, keys_ascend, lemma_member_of_with_member,
    lemma_with_member_ascends, member, member_text, member_texts, JsonModel,
};
use crate::json_laws::{lemma_member_is, lemma_member_texts};
use crate::qwen3_coder::{
    bare_name, declared_type, header, lemma_function_reads_back, lemma_parameter_reads_back,
    lemma_qwen3_coder_separable, parameter_names, parameters, qwen3_coder_call, qwen3_coder_grammar,
    typed_arguments, typed_value, without_leading_quotes, without_trailing_quotes, written_function,
    written_parameter, FUNCTION_END, FUNCTION_START, PARAMETER_END, PARAMETER_START, Qwen3Emitter,
};
use crate::response::{DeltaModel, ParseModel};
use crate::scan::{after_output, only_text, InvokeEmitter, ScanState};
use crate::scan_laws::{is_complete_invoke, is_whole_invoke, lemma_complete_block};
use crate::text::{
    begins_with, first_index, is_white_space, lemma_earliest, lemma_first_index,
    lemma_first_index_bounds, lemma_first_index_is, lemma_found_in_rest, occurs, occurs_at, trim,
};
use crate::text_laws::{ends_solid, is_blank, lemma_trim_of, starts_solid};
use crate::tools::{definitions_view, DefinitionModel};
use vstd::prelude::*;

verus! {

broadcast use lemma_first_index_bounds;

/// Tool `k` is the first with the given name.
pub open spec fn is_called(tools: Seq<DefinitionModel>, function: Seq<char>, k: int) -> bool {
    &&& 0 <= k < tools.len()
    &&& tools[k].name == function
    &&& forall|j: int| 0 <= j < k ==> (#[trigger] tools[j]).name != function
}

/// A parameter has the type that stands in the schema of the called tool under
/// `properties`, its key and `type`, wherever in the list the tool stands. Where nothing, or
/// no text, stands there it has no type.
pub proof fn lemma_declared_type(
    tools: Seq<DefinitionModel>,
    function: Seq<char>,
    key: Seq<char>,
    k: int,
)
    requires
        is_called(tools, function, k),
    ensures
        match tools[k].parameters {
            Some(JsonModel::Object(schema)) => match member(schema, "properties"@) {
                Some(JsonModel::Object(properties)) => match member(properties, key) {
                    Some(JsonModel::Object(property)) => match member(property, "type"@) {
                        Some(JsonModel::Text(name)) => declared_type(tools, function, key) == Some(
                            name,
                        ),
                        _ => declared_type(tools, function, key) is None,
                    },
                    _ => declared_type(tools, function, key) is None,
                },
                _ => declared_type(tools, function, key) is None,
            },
            _ => declared_type(tools, function, key) is None,
        },
    decreases k,
{
    if k > 0 {
        let rest = tools.drop_first();
        assert(tools[0].name != function);
        assert forall|j: int| 0 <= j < k - 1 implies (#[trigger] rest[j]).name != function by {
            assert(rest[j] == tools[j + 1]);
        }
        assert(rest[k - 1] == tools[k]);
        lemma_declared_type(rest, function, key, k - 1);
    }
}

/// A parameter of a tool that is not offered has no type.
pub proof fn lemma_undeclared_type(
    tools: Seq<DefinitionModel>,
    function: Seq<char>,
    key: Seq<char>,
)
    requires
        forall|k: int| 0 <= k < tools.len() ==> (#[trigger] tools[k]).name != function,
    ensures
        declared_type(tools, function, key) is None,
    decreases tools.len(),
{
    if tools.len() > 0 {
        let rest = tools.drop_first();
        assert forall|k: int| 0 <= k < rest.len() implies (#[trigger] rest[k]).name
            != function by {
            assert(rest[k] == tools[k + 1]);
        }
        assert(tools[0].name != function);
        lemma_undeclared_type(rest, function, key);
    }
}

/// A value whose declared type is not `string` and whose text is JSON is that JSON value;
/// any other is the string of its text.
pub proof fn lemma_typed_value(name: Seq<char>, raw: Seq<char>)
    ensures
        typed_value(None, raw) == JsonModel::Text(raw),
        typed_value(Some("string"@), raw) == JsonModel::Text(raw),
        json_parsed(raw) is None ==> typed_value(Some(name), raw) == JsonModel::Text(raw),
        name != "string"@ && json_parsed(raw) is Some ==> typed_value(Some(name), raw)
            == json_parsed(raw)->0,
{
}

/// An argument whose declared type in the schema of the called tool is not `string`, and
/// whose text is JSON, is given as that JSON value.
pub proof fn lemma_typed_by_schema(
    tools: Seq<DefinitionModel>,
    function: Seq<char>,
    key: Seq<char>,
    k: int,
    schema: Seq<(Seq<char>, JsonModel)>,
    properties: Seq<(Seq<char>, JsonModel)>,
    property: Seq<(Seq<char>, JsonModel)>,
    name: Seq<char>,
    raw: Seq<char>,
)
    requires
        is_called(tools, function, k),
        tools[k].parameters == Some(JsonModel::Object(schema)),
        member(schema, "properties"@) == Some(JsonModel::Object(properties)),
        member(properties, key) == Some(JsonModel::Object(property)),
        member(property, "type"@) == Some(JsonModel::Text(name)),
    ensures
        typed_value(declared_type(tools, function, key), raw) == (match json_parsed(raw) {
            Some(value) if name != "string"@ => value,
            _ => JsonModel::Text(raw),
        }),
{
    lemma_declared_type(tools, function, key, k);
}

/// The value with the given key comes last at place `k`.
pub open spec fn is_last_given(
    given: Seq<(Seq<char>, Seq<char>)>,
    key: Seq<char>,
    k: int,
) -> bool {
    &&& 0 <= k < given.len()
    &&& given[k].0 == key
    &&& forall|later: int| k < later < given.len() ==> (#[trigger] given[later]).0 != key
}

/// The arguments of a call are an object with the keys in order: for each key the typed
/// value that came last, and nothing else. A value without a key is left out.
pub proof fn lemma_typed_arguments(
    tools: Seq<DefinitionModel>,
    function: Seq<char>,
    given: Seq<(Seq<char>, Seq<char>)>,
)
    ensures
        keys_ascend(typed_arguments(tools, function, given)),
        forall|key: Seq<char>, k: int|
            key.len() > 0 && is_last_given(given, key, k) ==> #[trigger] member(
                typed_arguments(tools, function, given),
                key,
            ) == Some(
                typed_value(declared_type(tools, function, key), (#[trigger] given[k]).1),
            ),
        forall|key: Seq<char>|
            key.len() == 0 || (forall|k: int|
                0 <= k < given.len() ==> (#[trigger] given[k]).0 != key) ==> #[trigger] member(
                typed_arguments(tools, function, given),
                key,
            ) is None,
    decreases given.len(),
{
    if given.len() > 0 {
        let start = given.drop_last();
        let count = start.len() as int;
        let (last, raw) = given.last();
        let before = typed_arguments(tools, function, start);
        let after = typed_arguments(tools, function, given);
        let value = typed_value(declared_type(tools, function, last), raw);
        lemma_typed_arguments(tools, function, start);
        assert(given[count] == (last, raw));
        if last.len() > 0 {
            lemma_with_member_ascends(before, last, value);
        }
        assert forall|key: Seq<char>, k: int|
            key.len() > 0 && is_last_given(given, key, k) implies #[trigger] member(after, key)
            == Some(
            typed_value(declared_type(tools, function, key), (#[trigger] given[k]).1),
        ) by {
            if last.len() > 0 {
                lemma_member_of_with_member(before, last, value, key);
            }
            if k < count {
                assert(given[count].0 != key);
                assert forall|later: int| k < later < start.len() implies (
                #[trigger] start[later]).0 != key by {
                    assert(start[later] == given[later]);
                }
                assert(is_last_given(start, key, k));
                assert(member(before, key) == Some(
                    typed_value(declared_type(tools, function, key), start[k].1),
                ));
            }
        }
        assert forall|key: Seq<char>|
            key.len() == 0 || (forall|k: int|
                0 <= k < given.len() ==> (#[trigger] given[k]).0 != key) implies #[trigger] member(
            after,
            key,
        ) is None by {
            if last.len() > 0 {
                lemma_member_of_with_member(before, last, value, key);
            }
            if key.len() > 0 {
                assert(given[count].0 != key);
                assert forall|k: int| 0 <= k < start.len() implies (#[trigger] start[k]).0
                    != key by {
                    assert(start[k] == given[k]);
                }
            }
            assert(member(before, key) is None);
        }
    }
}

/// All characters are quotes.
pub open spec fn is_quotes(text: Seq<char>) -> bool {
    forall|k: int| 0 <= k < text.len() ==> (#[trigger] text[k]) == '"'
}

proof fn lemma_leading_quotes(quotes: Seq<char>, text: Seq<char>)
    requires
        is_quotes(quotes),
        text.len() > 0 ==> text[0] != '"',
    ensures
        without_leading_quotes(quotes + text) == text,
    decreases quotes.len(),
{
    let whole = quotes + text;
    if quotes.len() == 0 {
        assert(whole =~= text);
    } else {
        let rest = quotes.drop_first();
        assert forall|k: int| 0 <= k < rest.len() implies (#[trigger] rest[k]) == '"' by {
            assert(rest[k] == quotes[k + 1]);
        }
        assert(whole[0] == quotes[0]);
        assert(whole.drop_first() =~= rest + text);
        lemma_leading_quotes(rest, text);
    }
}

proof fn lemma_trailing_quotes(text: Seq<char>, quotes: Seq<char>)
    requires
        is_quotes(quotes),
        text.len() > 0 ==> text.last() != '"',
    ensures
        without_trailing_quotes(text + quotes) == text,
    decreases quotes.len(),
{
    let whole = text + quotes;
    if quotes.len() == 0 {
        assert(whole =~= text);
    } else {
        let rest = quotes.drop_last();
        assert forall|k: int| 0 <= k < rest.len() implies (#[trigger] rest[k]) == '"' by {
            assert(rest[k] == quotes[k]);
        }
        assert(whole.last() == quotes[quotes.len() - 1]);
        assert(whole.drop_last() =~= text + rest);
        lemma_trailing_quotes(text, rest);
    }
}

/// A name that can stand as it is: no white space and no quote at either end.
pub open spec fn is_bare(name: Seq<char>) -> bool {
    &&& name.len() > 0
    &&& starts_solid(name)
    &&& ends_solid(name)
    &&& name[0] != '"'
    &&& name.last() != '"'
}

/// A name is read without the white space and the quotes around it, and without white
/// space within the quotes.
pub proof fn lemma_bare_name(
    before: Seq<char>,
    open: Seq<char>,
    inner: Seq<char>,
    name: Seq<char>,
    more: Seq<char>,
    close: Seq<char>,
    behind: Seq<char>,
)
    requires
        is_blank(before),
        is_quotes(open),
        is_blank(inner),
        is_bare(name),
        is_blank(more),
        is_quotes(close),
        is_blank(behind),
        open.len() == 0 ==> inner.len() == 0,
        close.len() == 0 ==> more.len() == 0,
    ensures
        bare_name(before + (open + (inner + name + more) + close) + behind) == name,
{
    let core = inner + name + more;
    let quoted = open + core + close;
    assert(starts_solid(quoted)) by {
        if open.len() > 0 {
            assert(quoted[0] == open[0]);
        } else {
            assert(quoted[0] == name[0]);
        }
    }
    assert(ends_solid(quoted)) by {
        if close.len() > 0 {
            assert(quoted.last() == close[close.len() - 1]);
        } else {
            assert(quoted.last() == name.last());
        }
    }
    lemma_trim_of(before, quoted, behind);
    assert(core[0] != '"') by {
        if inner.len() > 0 {
            assert(core[0] == inner[0]);
            assert(is_white_space(inner[0]));
        } else {
            assert(core[0] == name[0]);
        }
    }
    assert(core.last() != '"') by {
        if more.len() > 0 {
            assert(core.last() == more[more.len() - 1]);
            assert(is_white_space(more[more.len() - 1]));
        } else {
            assert(core.last() == name.last());
        }
    }
    assert(open + core + close =~= open + (core + close));
    assert((core + close)[0] == core[0]);
    lemma_leading_quotes(open, core + close);
    lemma_trailing_quotes(core, close);
    lemma_trim_of(inner, name, more);
}

/// A name that can stand as it is stays as it is.
pub proof fn lemma_bare_name_stays(name: Seq<char>)
    requires
        is_bare(name),
    ensures
        bare_name(name) == name,
{
    let nothing = Seq::<char>::empty();
    lemma_bare_name(nothing, nothing, nothing, name, nothing, nothing, nothing);
    assert(nothing + (nothing + (nothing + name + nothing) + nothing) + nothing =~= name);
}

/// A text that no parameter begins in adds no names.
proof fn lemma_names_behind(before: Seq<char>, rest: Seq<char>)
    requires
        forall|at: int|
            0 <= at < before.len() ==> !occurs_at(before + rest, PARAMETER_START@, at),
    ensures
        parameter_names(before + rest) == parameter_names(rest),
{
    let whole = before + rest;
    let count = before.len() as int;
    lemma_found_in_rest(whole, count, PARAMETER_START@);
    assert(whole.skip(count) =~= rest);
    if let Some(at) = first_index(rest, PARAMETER_START@) {
        assert(whole.skip(count + at) =~= rest.skip(at));
        if let Some((name, used)) = header(rest.skip(at), PARAMETER_START@) {
            if 0 < used <= rest.len() - at {
                assert(whole.skip(count + at + used) =~= rest.skip(at + used));
            }
        }
    }
}

/// A tag begins in a text before a closing tag only where it stands in the text.
proof fn lemma_no_parameter_begins(text: Seq<char>, closer: Seq<char>, rest: Seq<char>)
    requires
        !occurs(text, PARAMETER_START@),
        closer == PARAMETER_END@ || closer == FUNCTION_END@,
    ensures
        forall|at: int|
            0 <= at < (text + closer).len() ==> !occurs_at(
                text + closer + rest,
                PARAMETER_START@,
                at,
            ),
{
    reveal_strlit("<parameter=");
    reveal_strlit("</parameter>");
    reveal_strlit("</function>");
    let whole = text + closer + rest;
    let size = PARAMETER_START@.len() as int;
    assert forall|at: int| 0 <= at < (text + closer).len() implies !occurs_at(
        whole,
        PARAMETER_START@,
        at,
    ) by {
        if occurs_at(whole, PARAMETER_START@, at) {
            let found = whole.subrange(at, at + size);
            assert(found[0] == whole[at]);
            assert(found[1] == whole[at + 1]);
            if at < text.len() {
                if at + size <= text.len() {
                    assert(text.subrange(at, at + size) =~= found);
                    assert(occurs_at(text, PARAMETER_START@, at));
                } else {
                    assert(found[text.len() - at] == closer[0]);
                    assert(PARAMETER_START@[text.len() - at] == '<');
                }
            } else {
                let k = at - text.len();
                assert(whole[at] == closer[k]);
                assert(whole[at + 1] == whole[text.len() + k + 1]);
                if k + 1 < closer.len() {
                    assert(whole[at + 1] == closer[k + 1]);
                }
            }
        }
    }
}

/// The names of the parameters stand in the order in which the parameters were written.
pub proof fn lemma_parameter_names(key: Seq<char>, value: Seq<char>, rest: Seq<char>)
    requires
        !key.contains('>'),
        is_bare(key),
        !occurs(value, PARAMETER_START@),
    ensures
        parameter_names(written_parameter(key, value) + rest) == seq![key] + parameter_names(rest),
{
    reveal_strlit("<parameter=");
    reveal_strlit("</parameter>");
    let text = value + PARAMETER_END@ + rest;
    let whole = written_parameter(key, value) + rest;
    assert(whole =~= PARAMETER_START@ + (key + seq!['>']) + text);
    assert(whole.subrange(0, PARAMETER_START@.len() as int) =~= PARAMETER_START@);
    lemma_first_index_is(whole, PARAMETER_START@, 0);
    assert(whole.skip(0) =~= whole);
    lemma_header_reads_back(PARAMETER_START@, key, text);
    lemma_no_parameter_begins(value, PARAMETER_END@, rest);
    lemma_names_behind(value + PARAMETER_END@, rest);
}

/// The header of a tag gives the name in it.
proof fn lemma_header_reads_back(opener: Seq<char>, name: Seq<char>, rest: Seq<char>)
    requires
        !name.contains('>'),
        is_bare(name),
    ensures
        header(opener + (name + seq!['>']) + rest, opener) == Some(
            (name, (opener.len() + name.len() + 1) as int),
        ),
        (opener + (name + seq!['>']) + rest).skip((opener.len() + name.len() + 1) as int) == rest,
{
    reveal_strlit(">");
    let whole = opener + (name + seq!['>']) + rest;
    let after = name + seq!['>'] + rest;
    assert(whole.skip(opener.len() as int) =~= after);
    assert(after.subrange(name.len() as int, name.len() + 1int) =~= ">"@);
    assert forall|at: int| 0 <= at < name.len() implies !occurs_at(after, ">"@, at) by {
        if occurs_at(after, ">"@, at) {
            assert(after.subrange(at, at + 1)[0] == name[at]);
        }
    }
    lemma_first_index_is(after, ">"@, name.len() as int);
    assert(after.take(name.len() as int) =~= name);
    lemma_bare_name_stays(name);
    assert(whole.skip((opener.len() + name.len() + 1) as int) =~= rest);
}

/// Parameters as the model writes them, one behind another.
pub open spec fn written_parameters(given: Seq<(Seq<char>, Seq<char>)>) -> Seq<char>
    decreases given.len(),
{
    if given.len() == 0 {
        Seq::empty()
    } else {
        written_parameter(given[0].0, given[0].1) + written_parameters(given.drop_first())
    }
}

/// A parameter that can be told apart from what stands around it.
pub open spec fn is_writable(one: (Seq<char>, Seq<char>)) -> bool {
    &&& is_bare(one.0)
    &&& !one.0.contains('>')
    &&& !occurs(one.1, PARAMETER_START@)
    &&& first_index(one.1 + PARAMETER_END@, PARAMETER_END@) == Some(one.1.len() as int)
}

proof fn lemma_written_parameters(given: Seq<(Seq<char>, Seq<char>)>, rest: Seq<char>)
    requires
        forall|k: int| 0 <= k < given.len() ==> is_writable(#[trigger] given[k]),
    ensures
        parameters(written_parameters(given) + rest) == Seq::new(
            given.len(),
            |k: int| (given[k].0, trim(given[k].1)),
        ) + parameters(rest),
        parameter_names(written_parameters(given) + rest) == Seq::new(
            given.len(),
            |k: int| given[k].0,
        ) + parameter_names(rest),
    decreases given.len(),
{
    let text = written_parameters(given);
    let values = Seq::new(given.len(), |k: int| (given[k].0, trim(given[k].1)));
    let names = Seq::new(given.len(), |k: int| given[k].0);
    if given.len() == 0 {
        assert(text + rest =~= rest);
        assert(values + parameters(rest) =~= parameters(rest));
        assert(names + parameter_names(rest) =~= parameter_names(rest));
    } else {
        let later = given.drop_first();
        let (key, value) = given[0];
        let behind = written_parameters(later) + rest;
        assert forall|k: int| 0 <= k < later.len() implies is_writable(#[trigger] later[k]) by {
            assert(later[k] == given[k + 1]);
        }
        assert(is_writable(given[0]));
        lemma_written_parameters(later, rest);
        lemma_parameter_reads_back(key, value, behind);
        lemma_bare_name_stays(key);
        lemma_parameter_names(key, value, behind);
        assert(text + rest =~= written_parameter(key, value) + behind);
        assert(values + parameters(rest) =~= seq![(key, trim(value))] + (Seq::new(
            later.len(),
            |k: int| (later[k].0, trim(later[k].1)),
        ) + parameters(rest)));
        assert(names + parameter_names(rest) =~= seq![key] + (Seq::new(
            later.len(),
            |k: int| later[k].0,
        ) + parameter_names(rest)));
    }
}

proof fn lemma_nothing_behind()
    ensures
        parameters(Seq::empty()) == Seq::<(Seq<char>, Seq<char>)>::empty(),
        parameter_names(FUNCTION_END@) == Seq::<Seq<char>>::empty(),
{
    reveal_strlit("<parameter=");
    reveal_strlit("</function>");
    let nothing = Seq::<char>::empty();
    lemma_first_index(nothing, PARAMETER_START@);
    assert(first_index(nothing, PARAMETER_START@) is None);
    lemma_first_index(FUNCTION_END@, PARAMETER_START@);
    if let Some(at) = first_index(FUNCTION_END@, PARAMETER_START@) {
        let found = FUNCTION_END@.subrange(at, at + PARAMETER_START@.len());
        assert(found[0] == FUNCTION_END@[at]);
        assert(found[1] == FUNCTION_END@[at + 1]);
    }
}

proof fn lemma_names_of_function(name: Seq<char>, given: Seq<(Seq<char>, Seq<char>)>)
    requires
        !name.contains('<'),
        forall|k: int| 0 <= k < given.len() ==> is_writable(#[trigger] given[k]),
    ensures
        parameter_names(written_function(name, written_parameters(given))) == Seq::new(
            given.len(),
            |k: int| given[k].0,
        ),
{
    reveal_strlit("<parameter=");
    reveal_strlit("<function=");
    let body = written_parameters(given);
    let tag = FUNCTION_START@ + (name + seq!['>']);
    let rest = body + FUNCTION_END@;
    let whole = written_function(name, body);
    assert(whole =~= tag + rest);
    assert forall|at: int| 0 <= at < tag.len() implies !occurs_at(
        tag + rest,
        PARAMETER_START@,
        at,
    ) by {
        if occurs_at(tag + rest, PARAMETER_START@, at) {
            let found = (tag + rest).subrange(at, at + PARAMETER_START@.len());
            assert(found[0] == tag[at]);
            assert(found[1] == (tag + rest)[at + 1]);
            if at >= FUNCTION_START@.len() {
                let k = at - FUNCTION_START@.len();
                if k < name.len() {
                    assert(tag[at] == name[k]);
                }
            } else {
                assert(tag[at] == FUNCTION_START@[at]);
            }
        }
    }
    lemma_names_behind(tag, rest);
    lemma_written_parameters(given, FUNCTION_END@);
    lemma_nothing_behind();
    let names = Seq::new(given.len(), |k: int| given[k].0);
    assert(names + Seq::<Seq<char>>::empty() =~= names);
}

/// A function with parameters of different names is read as a call with its name. Its
/// arguments are an object with those names in the order in which they were written; each
/// has the value of its text without the white space around it, typed by the schema of the
/// called tool.
pub proof fn lemma_function_call(
    tools: Seq<DefinitionModel>,
    name: Seq<char>,
    given: Seq<(Seq<char>, Seq<char>)>,
)
    requires
        is_bare(name),
        !name.contains('>'),
        !name.contains('<'),
        forall|k: int| 0 <= k < given.len() ==> is_writable(#[trigger] given[k]),
        forall|i: int, j: int|
            0 <= i < j < given.len() ==> (#[trigger] given[i]).0 != (#[trigger] given[j]).0,
        first_index(written_parameters(given) + FUNCTION_END@, FUNCTION_END@) == Some(
            written_parameters(given).len() as int,
        ),
    ensures
        qwen3_coder_call(tools, written_function(name, written_parameters(given))) == Some(
            (
                name,
                braced(
                    Seq::new(
                        given.len(),
                        |k: int|
                            member_text(
                                given[k].0,
                                compact_text(
                                    typed_value(
                                        declared_type(tools, name, given[k].0),
                                        trim(given[k].1),
                                    ),
                                ),
                            ),
                    ),
                ),
            ),
        ),
{
    let body = written_parameters(given);
    let nothing = Seq::<char>::empty();
    let names = Seq::new(given.len(), |k: int| given[k].0);
    let values = Seq::new(given.len(), |k: int| (given[k].0, trim(given[k].1)));
    let entries = typed_arguments(tools, name, values);
    lemma_bare_name_stays(name);
    lemma_function_reads_back(tools, name, body);
    lemma_names_of_function(name, given);
    lemma_written_parameters(given, nothing);
    lemma_nothing_behind();
    assert(body + nothing =~= body);
    assert(values + Seq::<(Seq<char>, Seq<char>)>::empty() =~= values);
    assert(parameters(body) == values);
    lemma_typed_arguments(tools, name, values);
    assert forall|k: int| 0 <= k < given.len() implies member(entries, #[trigger] names[k]) == Some(
        typed_value(declared_type(tools, name, given[k].0), trim(given[k].1)),
    ) by {
        assert(is_writable(given[k]));
        assert forall|later: int| k < later < values.len() implies (#[trigger] values[later]).0
            != names[k] by {
            assert(given[k].0 != given[later].0);
        }
        assert(is_last_given(values, names[k], k));
        assert(values[k].1 == trim(given[k].1));
    }
    assert forall|i: int, j: int| 0 <= i < j < names.len() implies (#[trigger] names[i]) != (
    #[trigger] names[j]) by {
        assert(given[i].0 != given[j].0);
    }
    assert forall|k: int| 0 <= k < entries.len() implies names.contains(
        (#[trigger] entries[k]).0,
    ) by {
        let key = entries[k].0;
        lemma_member_is(entries, key);
        assert(member(entries, key) is Some);
        if forall|at: int| 0 <= at < values.len() ==> (#[trigger] values[at]).0 != key {
            assert(member(entries, key) is None);
        }
        let at = choose|at: int| 0 <= at < values.len() && (#[trigger] values[at]).0 == key;
        assert(names[at] == key);
    }
    lemma_reordered_all_named(entries, names);
    let ordered = reordered(entries, names);
    lemma_member_texts(ordered);
    assert(member_texts(ordered) =~= Seq::new(
        given.len(),
        |k: int|
            member_text(
                given[k].0,
                compact_text(
                    typed_value(declared_type(tools, name, given[k].0), trim(given[k].1)),
                ),
            ),
    )) by {
        assert forall|k: int| 0 <= k < given.len() implies member_texts(ordered)[k] == member_text(
            given[k].0,
            compact_text(
                typed_value(declared_type(tools, name, given[k].0), trim(given[k].1)),
            ),
        ) by {
            assert(ordered[k] == (names[k], member(entries, names[k])->0));
        }
    }
}

/// What does not begin with the opener of a function, and what names none, is no call.
pub proof fn lemma_no_function(tools: Seq<DefinitionModel>, invoke: Seq<char>, space: Seq<char>)
    requires
        is_blank(space),
        !space.contains('>'),
    ensures
        !begins_with(invoke, FUNCTION_START@) ==> qwen3_coder_call(tools, invoke) is None,
        qwen3_coder_call(tools, FUNCTION_START@ + (space + seq!['>']) + invoke) is None,
{
    let nothing = Seq::<char>::empty();
    let whole = FUNCTION_START@ + (space + seq!['>']) + invoke;
    let after = space + seq!['>'] + invoke;
    reveal_strlit(">");
    assert(whole.skip(FUNCTION_START@.len() as int) =~= after);
    assert(after.subrange(space.len() as int, space.len() + 1int) =~= ">"@);
    assert forall|at: int| 0 <= at < space.len() implies !occurs_at(after, ">"@, at) by {
        if occurs_at(after, ">"@, at) {
            assert(after.subrange(at, at + 1)[0] == space[at]);
        }
    }
    lemma_first_index_is(after, ">"@, space.len() as int);
    assert(after.take(space.len() as int) =~= space);
    lemma_trim_of(space, nothing, nothing);
    assert(space + nothing + nothing =~= space);
    lemma_trim_of(nothing, nothing, nothing);
    assert(nothing + nothing + nothing =~= nothing);
    assert(bare_name(space).len() == 0);
}

/// A parameter whose closer is missing has the rest of the text as its value.
pub proof fn lemma_unclosed_parameter(key: Seq<char>, value: Seq<char>)
    requires
        !key.contains('>'),
        is_bare(key),
        !occurs(value, PARAMETER_END@),
    ensures
        parameters(PARAMETER_START@ + (key + seq!['>']) + value) == seq![(key, trim(value))],
{
    let whole = PARAMETER_START@ + (key + seq!['>']) + value;
    assert(whole.subrange(0, PARAMETER_START@.len() as int) =~= PARAMETER_START@);
    lemma_first_index_is(whole, PARAMETER_START@, 0);
    assert(whole.skip(0) =~= whole);
    lemma_header_reads_back(PARAMETER_START@, key, value);
    lemma_first_index(value, PARAMETER_END@);
}

/// A block with one function in it, behind plain text: the text reaches the reader as it
/// is, and the function is given as a call.
pub proof fn lemma_block_call(
    emitter: Qwen3Emitter,
    state: ScanState,
    text: Seq<char>,
    function: Seq<char>,
    name: Seq<char>,
    arguments: Seq<char>,
)
    requires
        state.is_idle(),
        state.next_index < usize::MAX,
        qwen3_coder_grammar().is_plain(text),
        is_whole_invoke(qwen3_coder_grammar(), function),
        qwen3_coder_call(definitions_view(emitter.tools@), function) == Some((name, arguments)),
    ensures
        state.with_more(text + ("<tool_call>"@ + (function + "</tool_call>"@))).run(
            qwen3_coder_grammar(),
            emitter,
            false,
        ) == (
            ScanState { next_index: (state.next_index + 1) as usize, ..state },
            Ok::<ParseModel, ToolCallError>(
                ParseModel {
                    normal_text: text,
                    calls: seq![
                        DeltaModel { tool_index: state.next_index, name: Some(name), arguments },
                    ],
                },
            ),
        ),
{
    let grammar = qwen3_coder_grammar();
    lemma_qwen3_coder_separable();
    assert(!grammar.block_ends.contains(grammar.invoke_start)) by {
        reveal_strlit("</tool_call>");
        reveal_strlit("<function=");
        assert(grammar.block_ends[0].len() != grammar.invoke_start.len());
    }
    assert(grammar.block_starts[0] == "<tool_call>"@);
    assert(grammar.block_ends[0] == "</tool_call>"@);
    assert(emitter.emits(function, state.next_index) == Ok::<Option<DeltaModel>, ToolCallError>(
        Some(DeltaModel { tool_index: state.next_index, name: Some(name), arguments }),
    ));
    lemma_complete_block(grammar, '<', emitter, state, text, function, 0, 0);
}

/// A function without a block around it is given, and the text behind it is dropped until the
/// end of a block; one that names nothing gives nothing, and the text behind it reaches the
/// reader.
pub proof fn lemma_function_alone(
    emitter: Qwen3Emitter,
    state: ScanState,
    text: Seq<char>,
    function: Seq<char>,
    rest: Seq<char>,
    flush: bool,
)
    requires
        state.is_idle(),
        state.next_index < usize::MAX,
        qwen3_coder_grammar().is_plain(text),
        is_complete_invoke(qwen3_coder_grammar(), function),
    ensures
        state.with_more(text + (function + rest)).run(qwen3_coder_grammar(), emitter, flush) == (
        match qwen3_coder_call(definitions_view(emitter.tools@), function) {
            Some((name, arguments)) => after_output(
                ParseModel {
                    normal_text: text,
                    calls: seq![
                        DeltaModel { tool_index: state.next_index, name: Some(name), arguments },
                    ],
                },
                ScanState {
                    buffer: rest,
                    in_block: false,
                    suppress_normal_text: true,
                    next_index: (state.next_index + 1) as usize,
                }.run(qwen3_coder_grammar(), emitter, flush),
            ),
            None => after_output(
                only_text(text),
                state.with_buffer(rest).run(qwen3_coder_grammar(), emitter, flush),
            ),
        }),
{
    lemma_qwen3_coder_separable();
    lemma_markers_differ();
    lemma_bare_invoke_taken(
        qwen3_coder_grammar(),
        '<',
        emitter,
        state,
        text,
        function,
        rest,
        flush,
    );
}

/// A function in a block that goes on over the end of a block is given with what it holds.
pub proof fn lemma_function_over_block_end(
    emitter: Qwen3Emitter,
    state: ScanState,
    before: Seq<char>,
    function: Seq<char>,
    rest: Seq<char>,
    flush: bool,
    name: Seq<char>,
    arguments: Seq<char>,
)
    requires
        state.in_block,
        state.suppress_normal_text,
        state.next_index < usize::MAX,
        !occurs(before, "<function="@),
        !occurs(before, "</tool_call>"@),
        is_complete_invoke(qwen3_coder_grammar(), function),
        state.buffer == before + (function + rest),
        qwen3_coder_call(definitions_view(emitter.tools@), function) == Some((name, arguments)),
    ensures
        state.run(qwen3_coder_grammar(), emitter, flush) == after_output(
            ParseModel {
                normal_text: Seq::empty(),
                calls: seq![
                    DeltaModel { tool_index: state.next_index, name: Some(name), arguments },
                ],
            },
            ScanState {
                buffer: rest,
                next_index: (state.next_index + 1) as usize,
                ..state
            }.run(qwen3_coder_grammar(), emitter, flush),
        ),
{
    let grammar = qwen3_coder_grammar();
    lemma_qwen3_coder_separable();
    lemma_markers_differ();
    lemma_first_index(before, "</tool_call>"@);
    lemma_earliest(before, grammar.block_ends);
    lemma_block_invoke_over_end(grammar, '<', emitter, state, before, function, rest, flush);
}

/// The end of a block that stands alone behind plain text is removed.
pub proof fn lemma_stray_block_end(
    emitter: Qwen3Emitter,
    state: ScanState,
    text: Seq<char>,
    rest: Seq<char>,
    flush: bool,
)
    requires
        state.is_idle(),
        qwen3_coder_grammar().is_plain(text),
    ensures
        state.with_more(text + ("</tool_call>"@ + rest)).run(qwen3_coder_grammar(), emitter, flush)
            == after_output(
            only_text(text),
            state.with_buffer(rest).run(qwen3_coder_grammar(), emitter, flush),
        ),
{
    lemma_qwen3_coder_separable();
    lemma_markers_differ();
    lemma_stray_removed(qwen3_coder_grammar(), '<', emitter, state, text, 0, rest, flush);
}

proof fn lemma_markers_differ()
    ensures
        ({
            let grammar = qwen3_coder_grammar();
            &&& grammar.block_starts.len() == 1
            &&& grammar.block_starts[0] == "<tool_call>"@
            &&& grammar.block_ends.len() == 1
            &&& grammar.block_ends[0] == "</tool_call>"@
            &&& grammar.orphan_markers.len() == 1
            &&& grammar.orphan_markers[0] == "</tool_call>"@
            &&& grammar.invoke_start == "<function="@
            &&& grammar.invoke_end == "</function>"@
            &&& !grammar.block_ends.contains(grammar.invoke_start)
            &&& !grammar.block_starts.contains(grammar.invoke_start)
            &&& !grammar.block_starts.contains("</tool_call>"@)
            &&& grammar.invoke_start != "</tool_call>"@
        }),
{
    reveal_strlit("<tool_call>");
    reveal_strlit("</tool_call>");
    reveal_strlit("<function=");
    reveal_strlit("</function>");
    let grammar = qwen3_coder_grammar();
    assert(grammar.block_starts[0].len() == 11 && grammar.block_ends[0].len() == 12);
    assert(grammar.invoke_start.len() == 10);
}

} // verus!
