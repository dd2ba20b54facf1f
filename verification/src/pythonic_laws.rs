//! What holds of pythonic calls: which JSON value a Python constant has, which
//! arguments a call has, and which calls a list has.
use crate::decimal::digits;
use crate::json::{
    compact_text, keys_ascend, lemma_member_of_with_member, lemma_with_member_ascends, member,
    with_member, JsonModel, NumberModel,
};
use crate::python::{PyItemModel, PyKeywordModel, PyModel, PyNumberModel};
use crate::pythonic::{
    call_lists, constant, constant_arguments, constant_members, constants, element_calls,
    expression_calls, regex_matches, text_before, without_python_tags, CALLS_PATTERN,
};
use crate::response::CallModel;
use crate::text::{first_index, lemma_first_index_bounds, lemma_found_stays, occurs};
use crate::text_laws::{
    ends_solid, is_blank, lemma_replace_first, lemma_replace_nothing, lemma_trim_of, starts_solid,
};
use vstd::prelude::*;

verus! {

broadcast use lemma_first_index_bounds;

/// A literal has the JSON value of its kind: a boolean, `null`, a string, or a number.
/// An integer that does not fit in 64 bits is a string of its digits, and a complex
/// number has none.
pub proof fn lemma_literal_constants(flag: bool, text: Seq<char>, value: u64)
    ensures
        constant(PyModel::Boolean(flag)) == Some(JsonModel::Bool(flag)),
        constant(PyModel::NoneLiteral) == Some(JsonModel::Null),
        constant(PyModel::Text(text)) == Some(JsonModel::Text(text)),
        constant(PyModel::Number(PyNumberModel::Integer { value: Some(value), text })) == Some(
            JsonModel::Number(NumberModel::PosInt(value)),
        ),
        constant(PyModel::Number(PyNumberModel::Integer { value: None, text })) == Some(
            JsonModel::Text(text),
        ),
        constant(PyModel::Number(PyNumberModel::Float(text))) == Some(
            JsonModel::Number(NumberModel::Float(text)),
        ),
        constant(PyModel::Number(PyNumberModel::Complex)) is None,
{
}

/// A name, a call and any other expression is no constant.
pub proof fn lemma_other_constants(expr: PyModel)
    requires
        expr is Name || expr is Call || expr is Other,
    ensures
        constant(expr) is None,
{
}

/// A run of expressions has JSON values where each expression has one: as many, and
/// each the value of the expression at its place, of whatever kind that is.
pub proof fn lemma_constants_each(items: Seq<PyModel>)
    ensures
        constants(items) is Some <==> forall|k: int|
            0 <= k < items.len() ==> constant(#[trigger] items[k]) is Some,
        constants(items) matches Some(values) ==> {
            &&& values.len() == items.len()
            &&& forall|k: int|
                0 <= k < items.len() ==> constant(#[trigger] items[k]) == Some(values[k])
        },
    decreases items.len(),
{
    if items.len() > 0 {
        let start = items.drop_last();
        lemma_constants_each(start);
        assert(items.last() == items[items.len() - 1]);
        assert forall|k: int| 0 <= k < start.len() implies start[k] == items[k] by {}
        if constants(items) is Some {
            let values = constants(items)->0;
            let before = constants(start)->0;
            assert forall|k: int| 0 <= k < items.len() implies constant(#[trigger] items[k])
                == Some(values[k]) by {
                if k < start.len() {
                    assert(constant(start[k]) == Some(before[k]));
                }
            }
        } else if constants(start) is None {
            let k = choose|k: int| 0 <= k < start.len() && constant(#[trigger] start[k]) is None;
            assert(constant(items[k]) is None);
        } else {
            assert(constant(items[items.len() - 1]) is None);
        }
    }
}

/// A list of constants is an array with the value of every element at its place: one of
/// as many items as the list has. A list with an element that is none has no value.
pub proof fn lemma_list_constant(items: Seq<PyModel>)
    ensures
        match constant(PyModel::List(items)) {
            Some(JsonModel::Array(values)) => {
                &&& values.len() == items.len()
                &&& forall|k: int|
                    0 <= k < items.len() ==> constant(#[trigger] items[k]) == Some(values[k])
            },
            Some(_) => false,
            None => exists|k: int|
                0 <= k < items.len() && constant(#[trigger] items[k]) is None,
        },
{
    lemma_constants_each(items);
}

/// The item has a key, and key and value are constants.
pub open spec fn is_constant_item(item: PyItemModel) -> bool {
    &&& item.key matches Some(key) && constant(key) is Some
    &&& constant(item.value) is Some
}

/// The text of the key of an item: that of a string key is the string, and that of any
/// other its JSON text.
pub open spec fn item_key(item: PyItemModel) -> Seq<char> {
    match constant(item.key->0)->0 {
        JsonModel::Text(text) => text,
        other => compact_text(other),
    }
}

/// A dictionary of constants is an object with the keys in order: for each key it has the
/// value of the last item with that key, and it has no other members. A dictionary with
/// an item that is none, or that unpacks another, has no value.
pub proof fn lemma_dict_constant(items: Seq<PyItemModel>)
    ensures
        match constant(PyModel::Dict(items)) {
            Some(JsonModel::Object(entries)) => {
                &&& keys_ascend(entries)
                &&& forall|k: int| 0 <= k < items.len() ==> is_constant_item(#[trigger] items[k])
                &&& forall|key: Seq<char>, k: int|
                    is_last_with_key(items, key, k) ==> #[trigger] member(entries, key)
                        == constant((#[trigger] items[k]).value)
                &&& forall|key: Seq<char>|
                    (forall|k: int| 0 <= k < items.len() ==> item_key(#[trigger] items[k]) != key)
                        ==> #[trigger] member(entries, key) is None
            },
            Some(_) => false,
            None => exists|k: int| 0 <= k < items.len() && !is_constant_item(#[trigger] items[k]),
        },
{
    lemma_members_each(items);
}

/// Item `k` is the last with the given key.
pub open spec fn is_last_with_key(items: Seq<PyItemModel>, key: Seq<char>, k: int) -> bool {
    &&& 0 <= k < items.len()
    &&& item_key(items[k]) == key
    &&& forall|later: int| k < later < items.len() ==> item_key(#[trigger] items[later]) != key
}

proof fn lemma_members_each(items: Seq<PyItemModel>)
    ensures
        match constant_members(items) {
            Some(entries) => {
                &&& keys_ascend(entries)
                &&& forall|k: int| 0 <= k < items.len() ==> is_constant_item(#[trigger] items[k])
                &&& forall|key: Seq<char>, k: int|
                    is_last_with_key(items, key, k) ==> #[trigger] member(entries, key)
                        == constant((#[trigger] items[k]).value)
                &&& forall|key: Seq<char>|
                    (forall|k: int| 0 <= k < items.len() ==> item_key(#[trigger] items[k]) != key)
                        ==> #[trigger] member(entries, key) is None
            },
            None => exists|k: int| 0 <= k < items.len() && !is_constant_item(#[trigger] items[k]),
        },
    decreases items.len(),
{
    if items.len() > 0 {
        let start = items.drop_last();
        let count = start.len() as int;
        let last = items.last();
        lemma_members_each(start);
        assert(last == items[count]);
        if constant_members(start) is None {
            let k = choose|k: int| 0 <= k < start.len() && !is_constant_item(#[trigger] start[k]);
            assert(!is_constant_item(items[k]));
        } else if !is_constant_item(last) {
            assert(constant_members(items) is None);
            assert(!is_constant_item(items[count]));
        } else {
            let before = constant_members(start)->0;
            let after = constant_members(items)->0;
            let value = constant(last.value)->0;
            assert(after == with_member(before, item_key(last), value));
            lemma_with_member_ascends(before, item_key(last), value);
            assert forall|k: int| 0 <= k < items.len() implies is_constant_item(
                #[trigger] items[k],
            ) by {
                if k < count {
                    assert(is_constant_item(start[k]));
                }
            }
            assert forall|key: Seq<char>, k: int|
                is_last_with_key(items, key, k) implies #[trigger] member(after, key)
                == constant((#[trigger] items[k]).value) by {
                lemma_member_of_with_member(before, item_key(last), value, key);
                if k < count {
                    assert(item_key(items[count]) != key);
                    assert forall|later: int| k < later < start.len() implies item_key(
                        #[trigger] start[later],
                    ) != key by {
                        assert(item_key(items[later]) != key);
                    }
                    assert(is_last_with_key(start, key, k));
                    assert(member(before, key) == constant(start[k].value));
                }
            }
            assert forall|key: Seq<char>|
                (forall|k: int| 0 <= k < items.len() ==> item_key(#[trigger] items[k])
                    != key) implies #[trigger] member(after, key) is None by {
                lemma_member_of_with_member(before, item_key(last), value, key);
                assert(item_key(items[count]) != key);
                assert forall|k: int| 0 <= k < start.len() implies item_key(#[trigger] start[k])
                    != key by {
                    assert(item_key(items[k]) != key);
                }
                assert(member(before, key) is None);
            }
        }
    }
}

/// The argument is given by name and its value is a constant.
pub open spec fn is_constant_argument(keyword: PyKeywordModel) -> bool {
    keyword.arg is Some && constant(keyword.value) is Some
}

/// Argument `k` is the last constant one with the given name.
pub open spec fn is_last_argument(keywords: Seq<PyKeywordModel>, name: Seq<char>, k: int) -> bool {
    &&& 0 <= k < keywords.len()
    &&& is_constant_argument(keywords[k])
    &&& keywords[k].arg == Some(name)
    &&& forall|later: int|
        k < later < keywords.len() ==> !((#[trigger] keywords[later]).arg == Some(name)
            && is_constant_argument(keywords[later]))
}

/// The arguments of a call are an object with the names in order. For each name it has the
/// value of the last constant argument with that name, and it has no other members: an
/// argument that is no constant, or has no name, is left out.
pub proof fn lemma_arguments_each(keywords: Seq<PyKeywordModel>)
    ensures
        keys_ascend(constant_arguments(keywords)),
        forall|name: Seq<char>, k: int|
            is_last_argument(keywords, name, k) ==> #[trigger] member(
                constant_arguments(keywords),
                name,
            ) == constant((#[trigger] keywords[k]).value),
        forall|name: Seq<char>|
            (forall|k: int|
                0 <= k < keywords.len() ==> !((#[trigger] keywords[k]).arg == Some(name)
                    && is_constant_argument(keywords[k]))) ==> #[trigger] member(
                constant_arguments(keywords),
                name,
            ) is None,
    decreases keywords.len(),
{
    if keywords.len() > 0 {
        let start = keywords.drop_last();
        let count = start.len() as int;
        let last = keywords.last();
        let before = constant_arguments(start);
        let after = constant_arguments(keywords);
        lemma_arguments_each(start);
        assert(last == keywords[count]);
        if is_constant_argument(last) {
            lemma_with_member_ascends(before, last.arg->0, constant(last.value)->0);
        }
        assert forall|name: Seq<char>, k: int|
            is_last_argument(keywords, name, k) implies #[trigger] member(after, name) == constant(
            (#[trigger] keywords[k]).value,
        ) by {
            if is_constant_argument(last) {
                lemma_member_of_with_member(
                    before,
                    last.arg->0,
                    constant(last.value)->0,
                    name,
                );
            }
            if k < count {
                assert(!(keywords[count].arg == Some(name) && is_constant_argument(
                    keywords[count],
                )));
                assert forall|later: int| k < later < start.len() implies !((
                #[trigger] start[later]).arg == Some(name) && is_constant_argument(
                    start[later],
                )) by {
                    assert(start[later] == keywords[later]);
                }
                assert(is_last_argument(start, name, k));
                assert(member(before, name) == constant(start[k].value));
            }
        }
        assert forall|name: Seq<char>|
            (forall|k: int|
                0 <= k < keywords.len() ==> !((#[trigger] keywords[k]).arg == Some(name)
                    && is_constant_argument(keywords[k]))) implies #[trigger] member(
            after,
            name,
        ) is None by {
            if is_constant_argument(last) {
                lemma_member_of_with_member(
                    before,
                    last.arg->0,
                    constant(last.value)->0,
                    name,
                );
            }
            assert(!(keywords[count].arg == Some(name) && is_constant_argument(
                keywords[count],
            )));
            assert forall|k: int| 0 <= k < start.len() implies !((#[trigger] start[k]).arg == Some(
                name,
            ) && is_constant_argument(start[k])) by {
                assert(start[k] == keywords[k]);
            }
            assert(member(before, name) is None);
        }
    }
}

/// A call of a function that is given by its plain name.
pub open spec fn is_named_call(expr: PyModel) -> bool {
    expr matches PyModel::Call(function, _) && *function is Name
}

/// How many calls of plain names there are.
pub open spec fn call_count(elements: Seq<PyModel>) -> nat {
    elements.filter(|expr: PyModel| is_named_call(expr)).len()
}

/// A list has one call for each of its elements that calls a plain name, in the order of
/// the elements. The identifier of each counts all elements from one; its name is the
/// name of the function, and its arguments are the JSON text of the constant arguments.
pub proof fn lemma_calls_of_list(elements: Seq<PyModel>)
    ensures
        expression_calls(PyModel::List(elements)).len() == call_count(elements),
        forall|k: int|
            0 <= k < elements.len() && is_named_call(#[trigger] elements[k]) ==> {
                let call = expression_calls(PyModel::List(elements))[call_count(
                    elements.take(k),
                ) as int];
                &&& call_count(elements.take(k)) < call_count(elements)
                &&& call.id == "call-"@ + digits((k + 1) as nat)
                &&& *elements[k]->Call_0 == PyModel::Name(call.name)
                &&& call.arguments == compact_text(
                    JsonModel::Object(constant_arguments(elements[k]->Call_1)),
                )
            },
    decreases elements.len(),
{
    let is_call = |expr: PyModel| is_named_call(expr);
    reveal(Seq::filter);
    if elements.len() > 0 {
        let start = elements.drop_last();
        let last = elements.last();
        lemma_calls_of_list(start);
        let before = element_calls(start);
        let after = element_calls(elements);
        assert(last == elements[elements.len() - 1]);
        assert(call_count(elements) == call_count(start) + if is_named_call(last) {
            1nat
        } else {
            0nat
        });
        assert(elements.take(elements.len() - 1) =~= start);
        assert forall|k: int|
            0 <= k < elements.len() && is_named_call(#[trigger] elements[k]) implies {
            let call = after[call_count(elements.take(k)) as int];
            &&& call_count(elements.take(k)) < call_count(elements)
            &&& call.id == "call-"@ + digits((k + 1) as nat)
            &&& *elements[k]->Call_0 == PyModel::Name(call.name)
            &&& call.arguments == compact_text(
                JsonModel::Object(constant_arguments(elements[k]->Call_1)),
            )
        } by {
            if k < start.len() {
                assert(start[k] == elements[k]);
                assert(start.take(k) =~= elements.take(k));
                let place = call_count(start.take(k)) as int;
                assert(after[place] == before[place]);
            }
        }
    }
}

/// An expression that is no list has no calls.
pub proof fn lemma_calls_of_other(expr: PyModel)
    requires
        !(expr is List),
    ensures
        expression_calls(expr) == Seq::<CallModel>::empty(),
{
}

/// The tags that mark Python go from a message, and nothing else.
pub proof fn lemma_python_tags_removed(before: Seq<char>, code: Seq<char>, behind: Seq<char>)
    requires
        first_index(before + "<|python_start|>"@, "<|python_start|>"@) == Some(
            before.len() as int,
        ),
        !occurs(code + "<|python_end|>"@ + behind, "<|python_start|>"@),
        first_index(before + code + "<|python_end|>"@, "<|python_end|>"@) == Some(
            (before + code).len() as int,
        ),
        !occurs(behind, "<|python_end|>"@),
    ensures
        without_python_tags(
            before + "<|python_start|>"@ + (code + "<|python_end|>"@ + behind),
        ) == before + code + behind,
{
    reveal_strlit("<|python_start|>");
    reveal_strlit("<|python_end|>");
    reveal_strlit("");
    let start = "<|python_start|>"@;
    let end = "<|python_end|>"@;
    let rest = code + end + behind;
    assert(""@ =~= Seq::<char>::empty());
    lemma_replace_first(before, start, rest, ""@);
    lemma_replace_nothing(rest, start, ""@);
    assert(before + ""@ + rest =~= before + code + end + behind);
    lemma_replace_first(before + code, end, behind, ""@);
    lemma_replace_nothing(behind, end, ""@);
    assert(before + code + ""@ + behind =~= before + code + behind);
}

/// A message without the tags that mark Python stays as it is.
pub proof fn lemma_python_tags_absent(message: Seq<char>)
    requires
        !occurs(message, "<|python_start|>"@),
        !occurs(message, "<|python_end|>"@),
    ensures
        without_python_tags(message) == message,
{
    lemma_replace_nothing(message, "<|python_start|>"@, ""@);
    lemma_replace_nothing(message, "<|python_end|>"@, ""@);
}

/// The text before a list of calls is what stands before its first occurrence, without the
/// white space around it.
pub proof fn lemma_text_before_list(
    space: Seq<char>,
    text: Seq<char>,
    more: Seq<char>,
    list: Seq<char>,
    rest: Seq<char>,
)
    requires
        is_blank(space),
        is_blank(more),
        starts_solid(text),
        ends_solid(text),
        first_index(space + text + more + list, list) == Some((space + text + more).len() as int),
    ensures
        text_before(space + text + more + list + rest, list) == text,
{
    let before = space + text + more;
    let whole = before + list + rest;
    lemma_found_stays(before + list, rest, list);
    assert(whole.take(before.len() as int) =~= before);
    lemma_trim_of(space, text, more);
}

/// The lists of calls in a text are what the pattern of such lists matches, in order.
pub proof fn lemma_call_lists(text: Seq<char>)
    ensures
        regex_matches(CALLS_PATTERN@, text) matches Some(found) ==> call_lists(text) == found,
        regex_matches(CALLS_PATTERN@, text) is None ==> call_lists(text).len() == 0,
{
}

} // verus!
