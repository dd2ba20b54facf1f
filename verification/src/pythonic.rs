//! Tool calls written as a Python list of calls:
//! `[tool1(arg1=val1, arg2=val2), tool2(arg1=val3)]`.
use crate::decimal::{digits, digits_of, lemma_digits_read_back};
use crate::error::ToolCallError;
use crate::json::{
    compact_text, entries_view, items_view, json_text, lemma_entries_view, lemma_items_view,
    lemma_with_member_well_formed, put_member, well_formed, with_member, JsonModel, JsonNumber,
    JsonValue, NumberModel,
};
use crate::python::{
    dict_view, exprs_view, keywords_view, lemma_dict_view, lemma_exprs_view, lemma_keywords_view,
    parse_python, python_parsed, PyExpr, PyItem, PyItemModel, PyKeyword, PyKeywordModel, PyModel,
    PyNumber, PyNumberModel,
};
use crate::response::{calls_view, CallModel, CalledFunction, ToolCallResponse, ToolCallType};
use crate::text::{
    append_chars, chars_of, contains_str, find_str, first_index, first_of, lemma_first_index_bounds,
    occurs, occurs_at, replace, replaced, string_of, string_texts, trim, trimmed, utf8_prefix_len,
};
use crate::tools::ToolDefinition;
use vstd::prelude::*;
use vstd::utf8::encode_utf8;

verus! {

broadcast use {
    lemma_first_index_bounds,
    lemma_exprs_view,
    lemma_dict_view,
    lemma_keywords_view,
    lemma_items_view,
    lemma_entries_view,
};

/// The pattern of a list of calls with named arguments.
pub const CALLS_PATTERN: &'static str =
    "\\[([a-zA-Z]+\\w*\\(([a-zA-Z]+\\w*=.*?,\\s*)*([a-zA-Z]+\\w*=.*?\\s?)?\\),\\s*)*([a-zA-Z]+\\w*\\(([a-zA-Z]+\\w*=.*?,\\s*)*([a-zA-Z]+\\w*=.*?\\s*)?\\)\\s*)+\\]";

/// `message` without the tags that mark Python.
pub open spec fn without_python_tags(message: Seq<char>) -> Seq<char> {
    replace(replace(message, "<|python_start|>"@, ""@), "<|python_end|>"@, ""@)
}

/// `message` without the tags that mark Python.
pub fn strip_text(message: &str) -> (text: String)
    ensures
        text@ == without_python_tags(message@),
{
    proof {
        reveal_strlit("<|python_start|>");
        reveal_strlit("<|python_end|>");
    }
    let started = replaced(chars_of(message).as_slice(), "<|python_start|>", "");
    string_of(replaced(started.as_slice(), "<|python_end|>", "").as_slice())
}

/// The parts of a text that a pattern matches, from left to right: what the regex
/// crate finds. There are none where it takes the pattern for no regular
/// expression.
pub uninterp spec fn regex_matches(pattern: Seq<char>, text: Seq<char>) -> Option<Seq<Seq<char>>>;

/// The parts of a text that a pattern matches, as [`regex::Regex::find_iter`] yields
/// them. Which parts match is left to it; each is a part of the text.
#[verifier::external_body]
fn regex_find_all(pattern: &str, text: &str) -> (found: Option<Vec<String>>)
    ensures
        match found {
            Some(found) => {
                &&& regex_matches(pattern@, text@) == Some(string_texts(found@))
                &&& forall|k: int| 0 <= k < found@.len() ==> occurs(text@, (#[trigger] found@[k])@)
            },
            None => regex_matches(pattern@, text@) is None,
        },
{
    let regex = regex::Regex::new(pattern).ok()?;
    Some(regex.find_iter(text).map(|found| found.as_str().to_string()).collect())
}

/// The lists of calls in a text.
pub open spec fn call_lists(text: Seq<char>) -> Seq<Seq<char>> {
    match regex_matches(CALLS_PATTERN@, text) {
        Some(found) => found,
        None => Seq::empty(),
    }
}

/// The lists of calls in a text.
pub fn get_regex_matches(message: &str) -> (matches: Vec<String>)
    ensures
        string_texts(matches@) == call_lists(message@),
        forall|k: int| 0 <= k < matches@.len() ==> occurs(message@, (#[trigger] matches@[k])@),
{
    match regex_find_all(CALLS_PATTERN, message) {
        Some(found) => found,
        None => {
            let matches: Vec<String> = Vec::new();
            assert(string_texts(matches@) =~= Seq::empty());
            matches
        },
    }
}

/// The JSON value of a number. An integer that does not fit is a string.
pub open spec fn number_constant(number: PyNumberModel) -> Option<JsonModel> {
    match number {
        PyNumberModel::Integer { value: Some(value), .. } => Some(
            JsonModel::Number(NumberModel::PosInt(value)),
        ),
        PyNumberModel::Integer { value: None, text } => Some(JsonModel::Text(text)),
        PyNumberModel::Float(text) => Some(JsonModel::Number(NumberModel::Float(text))),
        PyNumberModel::Complex => None,
    }
}

/// The key of an object for a JSON value: a string itself, and the text of anything
/// else.
pub open spec fn key_of(value: JsonModel) -> Seq<char> {
    match value {
        JsonModel::Text(text) => text,
        other => compact_text(other),
    }
}

/// The JSON value of a constant: a literal, or a list or dictionary of constants.
pub open spec fn constant(expr: PyModel) -> Option<JsonModel>
    decreases expr,
{
    match expr {
        PyModel::Boolean(flag) => Some(JsonModel::Bool(flag)),
        PyModel::NoneLiteral => Some(JsonModel::Null),
        PyModel::Number(number) => number_constant(number),
        PyModel::Text(text) => Some(JsonModel::Text(text)),
        PyModel::List(items) => match constants(items) {
            Some(values) => Some(JsonModel::Array(values)),
            None => None,
        },
        PyModel::Dict(items) => match constant_members(items) {
            Some(entries) => Some(JsonModel::Object(entries)),
            None => None,
        },
        _ => None,
    }
}

/// The JSON values of a run of constants.
pub open spec fn constants(items: Seq<PyModel>) -> Option<Seq<JsonModel>>
    decreases items,
{
    if items.len() == 0 {
        Some(Seq::empty())
    } else {
        match (constants(items.drop_last()), constant(items.last())) {
            (Some(before), Some(value)) => Some(before.push(value)),
            _ => None,
        }
    }
}

/// The members of an object for a dictionary of constants. Where a key is repeated
/// the value that comes last counts.
pub open spec fn constant_members(items: Seq<PyItemModel>) -> Option<Seq<(Seq<char>, JsonModel)>>
    decreases items,
{
    if items.len() == 0 {
        Some(Seq::empty())
    } else {
        let key = match items.last().key {
            Some(key) => constant(key),
            None => None,
        };
        match (constant_members(items.drop_last()), key, constant(items.last().value)) {
            (Some(before), Some(key), Some(value)) => Some(with_member(before, key_of(key), value)),
            _ => None,
        }
    }
}

/// The arguments of a call: those that are given by name and are constants. Where a
/// name is repeated the value that comes last counts.
pub open spec fn constant_arguments(keywords: Seq<PyKeywordModel>) -> Seq<(Seq<char>, JsonModel)>
    decreases keywords.len(),
{
    if keywords.len() == 0 {
        Seq::empty()
    } else {
        let before = constant_arguments(keywords.drop_last());
        match (keywords.last().arg, constant(keywords.last().value)) {
            (Some(name), Some(value)) => with_member(before, name, value),
            _ => before,
        }
    }
}

/// The calls among the elements of a list. A call that is no call of a plain name
/// is passed over; the identifiers count every element.
pub open spec fn element_calls(elements: Seq<PyModel>) -> Seq<CallModel>
    decreases elements.len(),
{
    if elements.len() == 0 {
        Seq::empty()
    } else {
        let before = element_calls(elements.drop_last());
        match named_call(elements.last()) {
            Some((name, keywords)) => before.push(
                CallModel {
                    id: "call-"@ + digits(elements.len()),
                    name,
                    arguments: compact_text(JsonModel::Object(constant_arguments(keywords))),
                },
            ),
            None => before,
        }
    }
}

/// The name and the named arguments of a call of a plain name.
pub open spec fn named_call(expr: PyModel) -> Option<(Seq<char>, Seq<PyKeywordModel>)> {
    match expr {
        PyModel::Call(function, keywords) => match *function {
            PyModel::Name(name) => Some((name, keywords)),
            _ => None,
        },
        _ => None,
    }
}

/// The calls of an expression, if it is a list.
pub open spec fn expression_calls(expr: PyModel) -> Seq<CallModel> {
    match expr {
        PyModel::List(elements) => element_calls(elements),
        _ => Seq::empty(),
    }
}

/// The JSON value of a number.
fn number_value(number: &PyNumber) -> (value: Option<JsonValue>)
    ensures
        match (value, number_constant(number@)) {
            (Some(value), Some(model)) => value@ == model && well_formed(value@),
            (None, None) => true,
            _ => false,
        },
{
    match number {
        PyNumber::Integer { value, text } => match value {
            Some(value) => Some(JsonValue::Number(JsonNumber::PosInt(*value))),
            None => Some(JsonValue::Text(text.clone())),
        },
        PyNumber::Float(text) => Some(JsonValue::Number(JsonNumber::Float(text.clone()))),
        PyNumber::Complex => None,
    }
}

/// The key of an object for a JSON value.
fn key_text(value: JsonValue) -> (key: String)
    requires
        well_formed(value@),
    ensures
        key@ == key_of(value@),
{
    match value {
        JsonValue::Text(text) => text,
        other => json_text(&other),
    }
}

/// The JSON value of a constant.
pub fn const_expr(expr: &PyExpr) -> (value: Option<JsonValue>)
    ensures
        match (value, constant(expr@)) {
            (Some(value), Some(model)) => value@ == model && well_formed(value@),
            (None, None) => true,
            _ => false,
        },
    decreases expr,
{
    match expr {
        PyExpr::Boolean(flag) => Some(JsonValue::Bool(*flag)),
        PyExpr::NoneLiteral => Some(JsonValue::Null),
        PyExpr::Number(number) => number_value(number),
        PyExpr::Text(text) => Some(JsonValue::Text(text.clone())),
        PyExpr::List(items) => match const_items(items) {
            Some(values) => Some(JsonValue::Array(values)),
            None => None,
        },
        PyExpr::Dict(items) => match const_members(items) {
            Some(entries) => Some(JsonValue::Object(entries)),
            None => None,
        },
        _ => None,
    }
}

/// Where a beginning is no run of constants, the whole is none.
proof fn lemma_constants_fail(items: Seq<PyModel>, count: int)
    requires
        0 <= count <= items.len(),
        constants(items.take(count)) is None,
    ensures
        constants(items) is None,
    decreases items.len() - count,
{
    if count < items.len() {
        assert(items.take(count + 1).drop_last() =~= items.take(count));
        lemma_constants_fail(items, count + 1);
    } else {
        assert(items.take(count) =~= items);
    }
}

/// The JSON values of a run of constants.
fn const_items(items: &Vec<PyExpr>) -> (values: Option<Vec<JsonValue>>)
    ensures
        match (values, constants(exprs_view(items@))) {
            (Some(values), Some(model)) => items_view(values@) == model && well_formed(
                JsonModel::Array(items_view(values@)),
            ),
            (None, None) => true,
            _ => false,
        },
    decreases items,
{
    let ghost all = exprs_view(items@);
    let mut values: Vec<JsonValue> = Vec::new();
    let mut at: usize = 0;
    assert(all.take(0) =~= Seq::empty());
    assert(items_view(values@) =~= Seq::empty());
    while at < items.len()
        invariant
            at <= items@.len(),
            decreases_to!(items => items@),
            all == exprs_view(items@),
            constants(all.take(at as int)) == Some(items_view(values@)),
            forall|k: int| 0 <= k < values@.len() ==> well_formed((#[trigger] values@[k])@),
        decreases items.len() - at,
    {
        proof {
            lemma_exprs_view(items@);
        }
        assert(all.take(at + 1).drop_last() =~= all.take(at as int));
        assert(all.take(at + 1).last() == items@[at as int]@);
        match const_expr(&items[at]) {
            Some(value) => {
                let ghost before = values@;
                values.push(value);
                assert(values@.drop_last() =~= before);
            },
            None => {
                proof {
                    lemma_constants_fail(all, at + 1);
                }
                return None;
            },
        }
        at += 1;
    }
    proof {
        lemma_exprs_view(items@);
        lemma_items_view(values@);
    }
    assert(all.take(at as int) =~= all);
    Some(values)
}

/// Where a beginning is no dictionary of constants, the whole is none.
proof fn lemma_members_fail(items: Seq<PyItemModel>, count: int)
    requires
        0 <= count <= items.len(),
        constant_members(items.take(count)) is None,
    ensures
        constant_members(items) is None,
    decreases items.len() - count,
{
    if count < items.len() {
        assert(items.take(count + 1).drop_last() =~= items.take(count));
        lemma_members_fail(items, count + 1);
    } else {
        assert(items.take(count) =~= items);
    }
}

/// The key and the value of a dictionary item, where both are constants.
fn const_item(item: &PyItem) -> (found: Option<(String, JsonValue)>)
    ensures
        match item@.key {
            Some(key) => match (found, constant(key), constant(item@.value)) {
                (Some((text, value)), Some(key), Some(model)) => text@ == key_of(key) && value@
                    == model && well_formed(value@),
                (None, Some(_), Some(_)) => false,
                (None, _, _) => true,
                _ => false,
            },
            None => found is None,
        },
    decreases item,
{
    match &item.key {
        None => None,
        Some(key) => match const_expr(key) {
            None => None,
            Some(key) => match const_expr(&item.value) {
                None => None,
                Some(value) => Some((key_text(key), value)),
            },
        },
    }
}

/// The members of an object for a dictionary of constants.
fn const_members(items: &Vec<PyItem>) -> (entries: Option<Vec<(String, JsonValue)>>)
    ensures
        match (entries, constant_members(dict_view(items@))) {
            (Some(entries), Some(model)) => entries_view(entries@) == model && well_formed(
                JsonModel::Object(entries_view(entries@)),
            ),
            (None, None) => true,
            _ => false,
        },
    decreases items,
{
    let ghost all = dict_view(items@);
    let mut entries: Vec<(String, JsonValue)> = Vec::new();
    let mut at: usize = 0;
    assert(all.take(0) =~= Seq::empty());
    assert(entries_view(entries@) =~= Seq::empty());
    while at < items.len()
        invariant
            at <= items@.len(),
            decreases_to!(items => items@),
            all == dict_view(items@),
            constant_members(all.take(at as int)) == Some(entries_view(entries@)),
            well_formed(JsonModel::Object(entries_view(entries@))),
        decreases items.len() - at,
    {
        proof {
            lemma_dict_view(items@);
        }
        assert(all.take(at + 1).drop_last() =~= all.take(at as int));
        assert(all.take(at + 1).last() == items@[at as int]@);
        match const_item(&items[at]) {
            Some((key, value)) => {
                proof {
                    lemma_with_member_well_formed(entries_view(entries@), key@, value@);
                }
                put_member(&mut entries, key, value);
            },
            None => {
                proof {
                    lemma_members_fail(all, at + 1);
                }
                return None;
            },
        }
        at += 1;
    }
    proof {
        lemma_dict_view(items@);
    }
    assert(all.take(at as int) =~= all);
    Some(entries)
}

/// The arguments of a call.
fn const_arguments(keywords: &Vec<PyKeyword>) -> (entries: Vec<(String, JsonValue)>)
    ensures
        entries_view(entries@) == constant_arguments(keywords_view(keywords@)),
        well_formed(JsonModel::Object(entries_view(entries@))),
{
    let ghost all = keywords_view(keywords@);
    let mut entries: Vec<(String, JsonValue)> = Vec::new();
    let mut at: usize = 0;
    assert(all.take(0) =~= Seq::empty());
    assert(entries_view(entries@) =~= Seq::empty());
    while at < keywords.len()
        invariant
            at <= keywords@.len(),
            all == keywords_view(keywords@),
            constant_arguments(all.take(at as int)) == entries_view(entries@),
            well_formed(JsonModel::Object(entries_view(entries@))),
        decreases keywords.len() - at,
    {
        proof {
            lemma_keywords_view(keywords@);
        }
        assert(all.take(at + 1).drop_last() =~= all.take(at as int));
        assert(all.take(at + 1).last() == keywords@[at as int]@);
        if let Some(name) = &keywords[at].arg {
            if let Some(value) = const_expr(&keywords[at].value) {
                proof {
                    lemma_with_member_well_formed(entries_view(entries@), name@, value@);
                }
                put_member(&mut entries, name.clone(), value);
            }
        }
        at += 1;
    }
    proof {
        lemma_keywords_view(keywords@);
    }
    assert(all.take(at as int) =~= all);
    entries
}

/// The name and the named arguments of a call of a plain name.
fn find_named_call(expr: &PyExpr) -> (found: Option<(&String, &Vec<PyKeyword>)>)
    ensures
        match (found, named_call(expr@)) {
            (Some((name, keywords)), Some((model, given))) => name@ == model && keywords_view(
                keywords@,
            ) == given,
            (None, None) => true,
            _ => false,
        },
{
    reveal_with_fuel(PyExpr::view, 2);
    match expr {
        PyExpr::Call(function, keywords) => match &**function {
            PyExpr::Name(name) => Some((name, keywords)),
            _ => None,
        },
        _ => None,
    }
}

/// The identifier of the call that is element `number` of its list.
fn element_id(number: usize) -> (id: String)
    ensures
        id@ == "call-"@ + digits(number as nat),
{
    let mut id = chars_of("call-");
    append_chars(&mut id, digits_of(number as u64).as_slice());
    string_of(id.as_slice())
}

/// The calls of an expression, if it is a list.
pub fn calls_of_expression(expr: &PyExpr) -> (calls: Vec<ToolCallResponse>)
    ensures
        calls_view(calls@) == expression_calls(expr@),
{
    let mut calls: Vec<ToolCallResponse> = Vec::new();
    assert(calls_view(calls@) =~= Seq::empty());
    let elements = match expr {
        PyExpr::List(elements) => elements,
        _ => {
            return calls;
        },
    };
    let ghost all = exprs_view(elements@);
    let mut at: usize = 0;
    assert(all.take(0) =~= Seq::empty());
    while at < elements.len()
        invariant
            at <= elements@.len() == elements.len(),
            all == exprs_view(elements@),
            calls_view(calls@) == element_calls(all.take(at as int)),
        decreases elements.len() - at,
    {
        proof {
            lemma_exprs_view(elements@);
        }
        assert(all.take(at + 1).drop_last() =~= all.take(at as int));
        assert(all.take(at + 1).last() == elements@[at as int]@);
        if let Some((name, keywords)) = find_named_call(&elements[at]) {
            let ghost before = calls@;
            let arguments = json_text(&JsonValue::Object(const_arguments(keywords)));
            calls.push(
                ToolCallResponse {
                    id: element_id(at + 1),
                    tp: ToolCallType::Function,
                    function: CalledFunction { name: name.clone(), arguments },
                },
            );
            assert(calls_view(calls@) =~= calls_view(before).push(calls@.last()@));
        }
        at += 1;
    }
    proof {
        lemma_exprs_view(elements@);
    }
    assert(all.take(at as int) =~= all);
    calls
}

/// The calls of a Python list of calls. A text that is no expression is an error, which
/// says why.
pub fn parse_tool_calls(src: &str) -> (calls: Result<Vec<ToolCallResponse>, ToolCallError>)
    requires
        encode_utf8(src@).len() <= u32::MAX,
    ensures
        match (calls, python_parsed(src@)) {
            (Ok(calls), Ok(expr)) => calls_view(calls@) == expression_calls(expr),
            (Err(ToolCallError::PythonSyntax(reason)), Err(expected)) => reason@ == expected,
            _ => false,
        },
{
    match parse_python(src) {
        Ok(expr) => Ok(calls_of_expression(&expr)),
        Err(reason) => Err(ToolCallError::PythonSyntax(reason)),
    }
}

/// The text that a message holds besides the tags that mark Python.
pub open spec fn pythonic_text(message: Seq<char>) -> Seq<char> {
    trim(without_python_tags(message))
}

/// What stands before a list of calls, without the white space around it.
pub open spec fn text_before(text: Seq<char>, list: Seq<char>) -> Seq<char> {
    match first_index(text, list) {
        Some(at) => trim(text.take(at)),
        None => trim(text),
    }
}

/// What stands before a list of calls.
fn take_text_before(text: &[char], list: &str) -> (before: String)
    ensures
        before@ == text_before(text@, list@),
{
    match find_str(text, list) {
        Some(at) => string_of(trimmed(first_of(text, at))),
        None => string_of(trimmed(text)),
    }
}

/// The calls of the first of `lists` and the text before it, where the lists are
/// those of `text`. Without a list all of the text is for the reader.
pub fn parse_first_list(text: &str, lists: &Vec<String>) -> (parsed: Result<
    (Vec<ToolCallResponse>, Option<String>),
    ToolCallError,
>)
    ensures
        if lists@.len() == 0 {
            parsed matches Ok((calls, Some(normal_text))) && calls@.len() == 0 && normal_text@
                == text@
        } else if encode_utf8(lists@[0]@).len() > u32::MAX {
            parsed matches Err(ToolCallError::PythonSourceTooLong)
        } else {
            match (parsed, python_parsed(lists@[0]@)) {
                (Ok((calls, Some(normal_text))), Ok(expr)) => calls_view(calls@)
                    == expression_calls(expr) && normal_text@ == text_before(text@, lists@[0]@),
                (Err(ToolCallError::PythonSyntax(reason)), Err(expected)) => reason@ == expected,
                _ => false,
            }
        },
{
    if lists.len() == 0 {
        return Ok((Vec::new(), Some(text.to_owned())));
    }
    let list = lists[0].as_str();
    let chars = chars_of(list);
    assert(chars@.take(chars@.len() as int) =~= list@);
    if utf8_prefix_len(list, chars.as_slice(), chars.len()) > u32::MAX as usize {
        return Err(ToolCallError::PythonSourceTooLong);
    }
    let normal_text = take_text_before(chars_of(text).as_slice(), list);
    match parse_tool_calls(list) {
        Ok(calls) => Ok((calls, Some(normal_text))),
        Err(error) => Err(error),
    }
}

/// Parses a whole message: the calls of the first list of calls, and the text
/// before it. A call counts whether or not its tool is among the given ones.
pub fn try_tool_call_parse_pythonic(
    message: &str,
    _tools: Option<&[ToolDefinition]>,
) -> (parsed: Result<(Vec<ToolCallResponse>, Option<String>), ToolCallError>)
    ensures
        ({
            let text = pythonic_text(message@);
            let lists = call_lists(text);
            if text.len() == 0 || lists.len() == 0 {
                parsed matches Ok((calls, Some(normal_text))) && calls@.len() == 0 && normal_text@
                    == text
            } else if encode_utf8(lists[0]).len() > u32::MAX {
                parsed matches Err(ToolCallError::PythonSourceTooLong)
            } else {
                match (parsed, python_parsed(lists[0])) {
                    (Ok((calls, Some(normal_text))), Ok(expr)) => calls_view(calls@)
                        == expression_calls(expr) && normal_text@ == text_before(text, lists[0]),
                    (Err(ToolCallError::PythonSyntax(reason)), Err(expected)) => reason@
                        == expected,
                    _ => false,
                }
            }
        }),
{
    let stripped = strip_text(message);
    let chars = chars_of(stripped.as_str());
    let text = trimmed(chars.as_slice());
    let stripped = string_of(text);
    if text.len() == 0 {
        return Ok((Vec::new(), Some(stripped)));
    }
    let matches = get_regex_matches(stripped.as_str());
    assert(matches@.len() > 0 ==> string_texts(matches@)[0] == matches@[0]@);
    assert(string_texts(matches@).len() == matches@.len());
    parse_first_list(stripped.as_str(), &matches)
}

/// Whether a list of calls may begin in `chunk`: whether it holds a bracket.
pub fn detect_tool_call_start_pythonic(chunk: &str) -> (found: bool)
    ensures
        found == chunk@.contains('['),
{
    let chars = chars_of(chunk);
    let found = contains_str(chars.as_slice(), "[");
    proof {
        reveal_strlit("[");
        if found {
            let at = choose|at: int| occurs_at(chunk@, "["@, at);
            assert(chunk@.subrange(at, at + 1)[0] == chunk@[at]);
        }
        if chunk@.contains('[') {
            let at = choose|at: int| 0 <= at < chunk@.len() && chunk@[at] == '[';
            assert(chunk@.subrange(at, at + 1) =~= "["@);
            assert(occurs_at(chunk@, "["@, at));
        }
    }
    found
}

/// The calls of a list have identifiers that count its elements, so no two calls
/// have the same.
pub proof fn lemma_element_ids(elements: Seq<PyModel>)
    ensures
        forall|k: int|
            0 <= k < element_calls(elements).len() ==> exists|number: nat|
                0 < number <= elements.len() && #[trigger] ("call-"@ + digits(number)) == (
                #[trigger] element_calls(elements)[k]).id,
        forall|i: int, j: int|
            0 <= i < j < element_calls(elements).len() ==> (#[trigger] element_calls(
                elements,
            )[i]).id != (#[trigger] element_calls(elements)[j]).id,
    decreases elements.len(),
{
    if elements.len() > 0 {
        let start = elements.drop_last();
        let before = element_calls(start);
        let after = element_calls(elements);
        lemma_element_ids(start);
        let last = "call-"@ + digits(elements.len());
        assert forall|k: int| 0 <= k < after.len() implies exists|number: nat|
            0 < number <= elements.len() && #[trigger] ("call-"@ + digits(number)) == (
            #[trigger] after[k]).id by {
            if k < before.len() {
                assert(after[k] == before[k]);
                let number = choose|number: nat|
                    0 < number <= start.len() && #[trigger] ("call-"@ + digits(number))
                        == before[k].id;
                assert(0 < number <= elements.len() && "call-"@ + digits(number) == after[k].id);
            } else {
                assert("call-"@ + digits(elements.len()) == after[k].id);
            }
        }
        assert forall|i: int, j: int| 0 <= i < j < after.len() implies (#[trigger] after[i]).id != (
        #[trigger] after[j]).id by {
            assert(after[i] == before[i]);
            if j < before.len() {
                assert(after[j] == before[j]);
            } else {
                let number = choose|number: nat|
                    0 < number <= start.len() && #[trigger] ("call-"@ + digits(number))
                        == before[i].id;
                if "call-"@ + digits(number) == last {
                    assert(("call-"@ + digits(number)).skip("call-"@.len() as int) =~= digits(
                        number,
                    ));
                    assert(last.skip("call-"@.len() as int) =~= digits(elements.len()));
                    lemma_digits_read_back(number);
                    lemma_digits_read_back(elements.len());
                }
            }
        }
    }
}

} // verus!
