//! JSON values, and the text that they are written as.
use crate::decimal::{digits, numeral};
use crate::text::{append_str, chars_of, same_text, string_of, string_texts};
use vstd::prelude::*;

verus! {

/// A JSON number. An integer stands for itself; any other number is held as a
/// decimal text that spells it.
#[derive(Debug, PartialEq, Eq)]
pub enum JsonNumber {
    PosInt(u64),
    /// Below zero.
    NegInt(i64),
    Float(String),
}

/// A JSON value. The members of an object stand in the order of their keys, each
/// key once.
#[derive(Debug, PartialEq, Eq)]
pub enum JsonValue {
    Null,
    Bool(bool),
    Number(JsonNumber),
    Text(String),
    Array(Vec<JsonValue>),
    Object(Vec<(String, JsonValue)>),
}

/// What a [`JsonNumber`] holds.
pub enum NumberModel {
    PosInt(u64),
    NegInt(i64),
    Float(Seq<char>),
}

/// What a [`JsonValue`] holds.
pub enum JsonModel {
    Null,
    Bool(bool),
    Number(NumberModel),
    Text(Seq<char>),
    Array(Seq<JsonModel>),
    Object(Seq<(Seq<char>, JsonModel)>),
}

impl JsonNumber {
    pub open spec fn view(self) -> NumberModel {
        match self {
            JsonNumber::PosInt(number) => NumberModel::PosInt(number),
            JsonNumber::NegInt(number) => NumberModel::NegInt(number),
            JsonNumber::Float(text) => NumberModel::Float(text@),
        }
    }
}

impl JsonValue {
    pub open spec fn view(self) -> JsonModel
        decreases self,
    {
        match self {
            JsonValue::Null => JsonModel::Null,
            JsonValue::Bool(flag) => JsonModel::Bool(flag),
            JsonValue::Number(number) => JsonModel::Number(number.view()),
            JsonValue::Text(text) => JsonModel::Text(text@),
            JsonValue::Array(items) => JsonModel::Array(items_view(items@)),
            JsonValue::Object(entries) => JsonModel::Object(entries_view(entries@)),
        }
    }
}

/// What a run of values holds.
pub open spec fn items_view(items: Seq<JsonValue>) -> Seq<JsonModel>
    decreases items,
{
    if items.len() == 0 {
        Seq::empty()
    } else {
        items_view(items.drop_last()).push(items.last().view())
    }
}

/// What a run of object members holds.
pub open spec fn entries_view(entries: Seq<(String, JsonValue)>) -> Seq<(Seq<char>, JsonModel)>
    decreases entries,
{
    if entries.len() == 0 {
        Seq::empty()
    } else {
        entries_view(entries.drop_last()).push((entries.last().0@, entries.last().1.view()))
    }
}

/// [`items_view`] goes item by item.
pub broadcast proof fn lemma_items_view(items: Seq<JsonValue>)
    ensures
        (#[trigger] items_view(items)).len() == items.len(),
        forall|k: int|
            0 <= k < items.len() ==> (#[trigger] items_view(items)[k]) == items[k].view(),
    decreases items.len(),
{
    if items.len() > 0 {
        lemma_items_view(items.drop_last());
    }
}

/// [`entries_view`] goes member by member.
pub broadcast proof fn lemma_entries_view(entries: Seq<(String, JsonValue)>)
    ensures
        (#[trigger] entries_view(entries)).len() == entries.len(),
        forall|k: int|
            0 <= k < entries.len() ==> (#[trigger] entries_view(entries)[k]) == (
                entries[k].0@,
                entries[k].1.view(),
            ),
    decreases entries.len(),
{
    if entries.len() > 0 {
        lemma_entries_view(entries.drop_last());
    }
}

/// `left` comes before `right` in the order of their characters.
pub open spec fn precedes(left: Seq<char>, right: Seq<char>) -> bool
    decreases left.len(),
{
    if right.len() == 0 {
        false
    } else if left.len() == 0 {
        true
    } else {
        left[0] < right[0] || (left[0] == right[0] && precedes(
            left.drop_first(),
            right.drop_first(),
        ))
    }
}

/// The keys of `entries` ascend strictly.
pub open spec fn keys_ascend(entries: Seq<(Seq<char>, JsonModel)>) -> bool {
    forall|i: int, j: int|
        0 <= i < j < entries.len() ==> precedes(#[trigger] entries[i].0, #[trigger] entries[j].0)
}

/// A value in the form in which values are kept: negative integers are below
/// zero, and the keys of each object ascend strictly.
pub open spec fn well_formed(value: JsonModel) -> bool
    decreases value,
{
    match value {
        JsonModel::Number(NumberModel::NegInt(number)) => number < 0,
        JsonModel::Array(items) => forall|k: int|
            0 <= k < items.len() ==> well_formed(#[trigger] items[k]),
        JsonModel::Object(entries) => {
            &&& keys_ascend(entries)
            &&& forall|k: int| 0 <= k < entries.len() ==> well_formed((#[trigger] entries[k]).1)
        },
        _ => true,
    }
}

/// How many members stand before the place of `key`.
pub open spec fn key_place(entries: Seq<(Seq<char>, JsonModel)>, key: Seq<char>) -> nat
    decreases entries.len(),
{
    if entries.len() > 0 && precedes(entries[0].0, key) {
        1 + key_place(entries.drop_first(), key)
    } else {
        0
    }
}

/// The members of an object once `key` has been given `value`.
pub open spec fn with_member(
    entries: Seq<(Seq<char>, JsonModel)>,
    key: Seq<char>,
    value: JsonModel,
) -> Seq<(Seq<char>, JsonModel)> {
    let place = key_place(entries, key) as int;
    if place < entries.len() && entries[place].0 == key {
        entries.update(place, (key, value))
    } else {
        entries.insert(place, (key, value))
    }
}

/// The value of the first member with the given key.
pub open spec fn member(entries: Seq<(Seq<char>, JsonModel)>, key: Seq<char>) -> Option<JsonModel>
    decreases entries.len(),
{
    if entries.len() == 0 {
        None
    } else if entries[0].0 == key {
        Some(entries[0].1)
    } else {
        member(entries.drop_first(), key)
    }
}

/// A lower-case hexadecimal digit.
pub open spec fn hex_char(digit: nat) -> char {
    if digit < 10 {
        ('0' as nat + digit) as char
    } else {
        ('a' as nat + digit - 10) as char
    }
}

/// How a character is written inside a JSON string.
pub open spec fn escaped_char(ch: char) -> Seq<char> {
    if ch == '"' {
        seq!['\\', '"']
    } else if ch == '\\' {
        seq!['\\', '\\']
    } else if ch == '\u{8}' {
        seq!['\\', 'b']
    } else if ch == '\u{c}' {
        seq!['\\', 'f']
    } else if ch == '\n' {
        seq!['\\', 'n']
    } else if ch == '\r' {
        seq!['\\', 'r']
    } else if ch == '\t' {
        seq!['\\', 't']
    } else if ch as nat <= 0x1f {
        seq!['\\', 'u', '0', '0', hex_char(ch as nat / 16), hex_char(ch as nat % 16)]
    } else {
        seq![ch]
    }
}

/// How a text is written inside a JSON string.
pub open spec fn escaped(text: Seq<char>) -> Seq<char>
    decreases text.len(),
{
    if text.len() == 0 {
        Seq::empty()
    } else {
        escaped(text.drop_last()) + escaped_char(text.last())
    }
}

/// A text as a JSON string.
pub open spec fn quoted(text: Seq<char>) -> Seq<char> {
    seq!['"'] + escaped(text) + seq!['"']
}

/// The given parts with commas between them.
pub open spec fn comma_joined(parts: Seq<Seq<char>>) -> Seq<char>
    decreases parts.len(),
{
    if parts.len() == 0 {
        Seq::empty()
    } else if parts.len() == 1 {
        parts[0]
    } else {
        comma_joined(parts.drop_last()) + seq![','] + parts.last()
    }
}

/// An object member whose value is already written out.
pub open spec fn member_text(key: Seq<char>, value: Seq<char>) -> Seq<char> {
    quoted(key) + seq![':'] + value
}

/// An object with the given members.
pub open spec fn braced(members: Seq<Seq<char>>) -> Seq<char> {
    seq!['{'] + comma_joined(members) + seq!['}']
}

/// What serde_json writes for the number that a decimal text spells: its shortest
/// numeral, or `null` where the text spells no finite number.
pub uninterp spec fn float_text(text: Seq<char>) -> Seq<char>;

/// The compact JSON text of a number.
pub open spec fn number_text(number: NumberModel) -> Seq<char> {
    match number {
        NumberModel::PosInt(number) => digits(number as nat),
        NumberModel::NegInt(number) => numeral(number as int),
        NumberModel::Float(text) => float_text(text),
    }
}

/// The compact JSON text of a value.
pub open spec fn compact_text(value: JsonModel) -> Seq<char>
    decreases value,
{
    match value {
        JsonModel::Null => "null"@,
        JsonModel::Bool(true) => "true"@,
        JsonModel::Bool(false) => "false"@,
        JsonModel::Number(number) => number_text(number),
        JsonModel::Text(text) => quoted(text),
        JsonModel::Array(items) => seq!['['] + comma_joined(item_texts(items)) + seq![']'],
        JsonModel::Object(entries) => braced(member_texts(entries)),
    }
}

/// The compact JSON texts of a run of values.
pub open spec fn item_texts(items: Seq<JsonModel>) -> Seq<Seq<char>>
    decreases items,
{
    if items.len() == 0 {
        Seq::empty()
    } else {
        item_texts(items.drop_last()).push(compact_text(items.last()))
    }
}

/// The compact JSON texts of a run of object members.
pub open spec fn member_texts(entries: Seq<(Seq<char>, JsonModel)>) -> Seq<Seq<char>>
    decreases entries,
{
    if entries.len() == 0 {
        Seq::empty()
    } else {
        member_texts(entries.drop_last()).push(
            member_text(entries.last().0, compact_text(entries.last().1)),
        )
    }
}

/// A [`serde_json::Value`], of which nothing is known.
#[verifier::external_type_specification]
#[verifier::external_body]
pub struct ExSerdeValue(serde_json::Value);

/// The same value as a [`serde_json::Value`], which [`json_text`] hands on. A number
/// that is no integer is read from its text.
#[verifier::external_body]
fn to_serde(value: &JsonValue) -> serde_json::Value {
    match value {
        JsonValue::Null => serde_json::Value::Null,
        JsonValue::Bool(flag) => (*flag).into(),
        JsonValue::Number(JsonNumber::PosInt(number)) => (*number).into(),
        JsonValue::Number(JsonNumber::NegInt(number)) => (*number).into(),
        JsonValue::Number(JsonNumber::Float(text)) => {
            text.parse().ok().and_then(serde_json::Number::from_f64).into()
        },
        JsonValue::Text(text) => text.as_str().into(),
        JsonValue::Array(items) => items.iter().map(to_serde).collect(),
        JsonValue::Object(entries) => {
            entries.iter().map(|(key, item)| (key.clone(), to_serde(item))).collect()
        },
    }
}

/// A [`serde_json::Number`], of which nothing is known.
#[verifier::external_type_specification]
#[verifier::external_body]
pub struct ExSerdeNumber(serde_json::Number);

/// The same number as a [`JsonNumber`]: what [`serde_json::Number::as_u64`] or
/// [`serde_json::Number::as_i64`] gives, or else its text.
#[verifier::external_body]
fn from_serde_number(number: &serde_json::Number) -> JsonNumber {
    match (number.as_u64(), number.as_i64()) {
        (Some(number), _) => JsonNumber::PosInt(number),
        (None, Some(number)) => JsonNumber::NegInt(number),
        (None, None) => JsonNumber::Float(number.to_string()),
    }
}

/// The value of a [`serde_json::Value`] that [`parse_json`] was given.
#[verifier::external_body]
fn from_serde(value: &serde_json::Value) -> JsonValue {
    match value {
        serde_json::Value::Null => JsonValue::Null,
        serde_json::Value::Bool(flag) => JsonValue::Bool(*flag),
        serde_json::Value::Number(number) => JsonValue::Number(from_serde_number(number)),
        serde_json::Value::String(text) => JsonValue::Text(text.clone()),
        serde_json::Value::Array(items) => JsonValue::Array(items.iter().map(from_serde).collect()),
        serde_json::Value::Object(map) => JsonValue::Object(
            map.iter().map(|(key, item)| (key.clone(), from_serde(item))).collect(),
        ),
    }
}

/// The compact text of a value, as [`serde_json::to_string`] writes it: no white
/// space, the members of an object in the order of their keys, a string between
/// quotes with control characters, quotes and backslashes escaped, an integer in
/// decimal. How any other number is written is not said, only named.
#[verifier::external_body]
pub(crate) fn json_text(value: &JsonValue) -> (text: String)
    requires
        well_formed(value@),
    ensures
        text@ == compact_text(value@),
        value@ matches JsonModel::Number(NumberModel::Float(spelling)) ==> text@ == float_text(
            spelling,
        ),
{
    serde_json::to_string(&to_serde(value)).unwrap_or_default()
}

/// The value that a JSON text stands for, if it is JSON: what serde_json reads.
pub uninterp spec fn json_parsed(text: Seq<char>) -> Option<JsonModel>;

/// The value that a JSON text stands for, as [`serde_json::from_str`] reads it.
/// Which texts are JSON is left to it; in what it reads, the keys of each object
/// ascend strictly and an integer that is not below zero is a `PosInt`.
#[verifier::external_body]
pub(crate) fn parse_json(text: &str) -> (value: Option<JsonValue>)
    ensures
        match value {
            Some(value) => json_parsed(text@) == Some(value@) && well_formed(value@),
            None => json_parsed(text@) is None,
        },
{
    serde_json::from_str::<serde_json::Value>(text).ok().map(|value| from_serde(&value))
}

/// A text as a JSON string.
pub fn quote(text: &str) -> (result: String)
    ensures
        result@ == quoted(text@),
{
    json_text(&JsonValue::Text(text.to_owned()))
}

impl JsonNumber {
    /// A number with the same contents.
    pub fn duplicate(&self) -> (copy: JsonNumber)
        ensures
            copy@ == self@,
    {
        match self {
            JsonNumber::PosInt(number) => JsonNumber::PosInt(*number),
            JsonNumber::NegInt(number) => JsonNumber::NegInt(*number),
            JsonNumber::Float(text) => JsonNumber::Float(text.clone()),
        }
    }
}

impl JsonValue {
    /// A value with the same contents.
    pub fn duplicate(&self) -> (copy: JsonValue)
        ensures
            copy@ == self@,
        decreases self,
    {
        match self {
            JsonValue::Null => JsonValue::Null,
            JsonValue::Bool(flag) => JsonValue::Bool(*flag),
            JsonValue::Number(number) => JsonValue::Number(number.duplicate()),
            JsonValue::Text(text) => JsonValue::Text(text.clone()),
            JsonValue::Array(items) => {
                let mut copies: Vec<JsonValue> = Vec::new();
                let mut at: usize = 0;
                while at < items.len()
                    invariant
                        at <= items@.len(),
                        copies@.len() == at,
                        forall|k: int| 0 <= k < at ==> (#[trigger] copies@[k])@ == items@[k]@,
                        decreases_to!(self => items@),
                    decreases items.len() - at,
                {
                    assert(decreases_to!(items@ => items@[at as int]));
                    let copy = items[at].duplicate();
                    copies.push(copy);
                    at += 1;
                }
                proof {
                    lemma_items_view(copies@);
                    lemma_items_view(items@);
                    assert(items_view(copies@) =~= items_view(items@));
                }
                JsonValue::Array(copies)
            },
            JsonValue::Object(entries) => {
                let mut copies: Vec<(String, JsonValue)> = Vec::new();
                let mut at: usize = 0;
                while at < entries.len()
                    invariant
                        at <= entries@.len(),
                        copies@.len() == at,
                        forall|k: int|
                            0 <= k < at ==> (#[trigger] copies@[k]).0@ == entries@[k].0@
                                && copies@[k].1@ == entries@[k].1@,
                        decreases_to!(self => entries@),
                    decreases entries.len() - at,
                {
                    assert(decreases_to!(entries@ => entries@[at as int]));
                    assert(decreases_to!(entries@[at as int] => entries@[at as int].1));
                    let copy = entries[at].1.duplicate();
                    copies.push((entries[at].0.clone(), copy));
                    at += 1;
                }
                proof {
                    lemma_entries_view(copies@);
                    lemma_entries_view(entries@);
                    assert(entries_view(copies@) =~= entries_view(entries@));
                }
                JsonValue::Object(copies)
            },
        }
    }
}

impl Clone for JsonValue {
    fn clone(&self) -> (copy: JsonValue)
        ensures
            copy@ == self@,
    {
        self.duplicate()
    }
}

/// Whether `left` comes before `right` in the order of their characters.
pub fn comes_before(left: &[char], right: &[char]) -> (found: bool)
    ensures
        found == precedes(left@, right@),
{
    let mut at: usize = 0;
    assert(left@.skip(0) =~= left@);
    assert(right@.skip(0) =~= right@);
    while at < left.len() && at < right.len() && left[at] == right[at]
        invariant
            at <= left@.len(),
            at <= right@.len(),
            precedes(left@, right@) == precedes(left@.skip(at as int), right@.skip(at as int)),
        decreases left.len() - at,
    {
        assert(left@.skip(at as int).drop_first() =~= left@.skip(at + 1));
        assert(right@.skip(at as int).drop_first() =~= right@.skip(at + 1));
        at += 1;
    }
    if at >= right.len() {
        false
    } else if at >= left.len() {
        true
    } else {
        left[at] < right[at]
    }
}

pub(crate) proof fn lemma_precedes_irreflexive(text: Seq<char>)
    ensures
        !precedes(text, text),
    decreases text.len(),
{
    if text.len() > 0 {
        lemma_precedes_irreflexive(text.drop_first());
    }
}

proof fn lemma_precedes_transitive(a: Seq<char>, b: Seq<char>, c: Seq<char>)
    requires
        precedes(a, b),
        precedes(b, c),
    ensures
        precedes(a, c),
    decreases a.len(),
{
    if a.len() > 0 && a[0] == b[0] && b[0] == c[0] {
        lemma_precedes_transitive(a.drop_first(), b.drop_first(), c.drop_first());
    }
}

proof fn lemma_precedes_total(a: Seq<char>, b: Seq<char>)
    requires
        !precedes(a, b),
        a != b,
    ensures
        precedes(b, a),
    decreases a.len(),
{
    if a.len() > 0 && b.len() > 0 && a[0] == b[0] {
        if a.drop_first() == b.drop_first() {
            assert(a =~= seq![a[0]] + a.drop_first());
            assert(b =~= seq![b[0]] + b.drop_first());
        }
        lemma_precedes_total(a.drop_first(), b.drop_first());
    } else if a.len() == 0 {
        assert(b.len() > 0 || a =~= b);
    }
}

proof fn lemma_key_place(entries: Seq<(Seq<char>, JsonModel)>, key: Seq<char>)
    ensures
        key_place(entries, key) <= entries.len(),
        forall|k: int|
            0 <= k < key_place(entries, key) ==> precedes((#[trigger] entries[k]).0, key),
        key_place(entries, key) < entries.len() ==> !precedes(
            entries[key_place(entries, key) as int].0,
            key,
        ),
    decreases entries.len(),
{
    if entries.len() > 0 && precedes(entries[0].0, key) {
        let rest = entries.drop_first();
        lemma_key_place(rest, key);
        assert forall|k: int| 0 <= k < key_place(entries, key) implies precedes(
            (#[trigger] entries[k]).0,
            key,
        ) by {
            if k > 0 {
                assert(rest[k - 1] == entries[k]);
            }
        }
    }
}

/// Giving an object a member keeps the order of its keys.
pub proof fn lemma_with_member_ascends(
    entries: Seq<(Seq<char>, JsonModel)>,
    key: Seq<char>,
    value: JsonModel,
)
    requires
        keys_ascend(entries),
    ensures
        keys_ascend(with_member(entries, key, value)),
{
    lemma_key_place(entries, key);
    let place = key_place(entries, key) as int;
    let after = with_member(entries, key, value);
    if place < entries.len() && entries[place].0 == key {
        assert forall|i: int, j: int| 0 <= i < j < after.len() implies precedes(
            #[trigger] after[i].0,
            #[trigger] after[j].0,
        ) by {
            assert(after[i].0 == entries[i].0);
            assert(after[j].0 == entries[j].0);
        }
    } else {
        assert forall|i: int, j: int| 0 <= i < j < after.len() implies precedes(
            #[trigger] after[i].0,
            #[trigger] after[j].0,
        ) by {
            if j < place {
                assert(precedes(entries[i].0, entries[j].0));
            } else if j == place {
                assert(precedes(entries[i].0, key));
            } else {
                let next = entries[place].0;
                lemma_precedes_total(next, key);
                if place < j - 1 {
                    assert(precedes(next, entries[j - 1].0));
                    lemma_precedes_transitive(key, next, entries[j - 1].0);
                }
                if i < place {
                    assert(precedes(entries[i].0, entries[j - 1].0));
                } else if i == place {
                } else {
                    assert(precedes(entries[i - 1].0, entries[j - 1].0));
                }
            }
        }
    }
}

/// Giving a well-formed object a well-formed member keeps it well-formed.
pub proof fn lemma_with_member_well_formed(
    entries: Seq<(Seq<char>, JsonModel)>,
    key: Seq<char>,
    value: JsonModel,
)
    requires
        well_formed(JsonModel::Object(entries)),
        well_formed(value),
    ensures
        well_formed(JsonModel::Object(with_member(entries, key, value))),
{
    lemma_with_member_ascends(entries, key, value);
    lemma_key_place(entries, key);
    let place = key_place(entries, key) as int;
    let after = with_member(entries, key, value);
    assert forall|k: int| 0 <= k < after.len() implies well_formed((#[trigger] after[k]).1) by {
        if place < entries.len() && entries[place].0 == key {
            if k != place {
                assert(after[k] == entries[k]);
            }
        } else if k < place {
            assert(after[k] == entries[k]);
        } else if k > place {
            assert(after[k] == entries[k - 1]);
        }
    }
}

pub(crate) proof fn lemma_member_absent(entries: Seq<(Seq<char>, JsonModel)>, key: Seq<char>)
    requires
        forall|k: int| 0 <= k < entries.len() ==> (#[trigger] entries[k]).0 != key,
    ensures
        member(entries, key) is None,
    decreases entries.len(),
{
    if entries.len() > 0 {
        let rest = entries.drop_first();
        assert forall|k: int| 0 <= k < rest.len() implies (#[trigger] rest[k]).0 != key by {
            assert(rest[k] == entries[k + 1]);
        }
        lemma_member_absent(rest, key);
    }
}

pub(crate) proof fn lemma_member_at(entries: Seq<(Seq<char>, JsonModel)>, key: Seq<char>, at: int)
    requires
        0 <= at < entries.len(),
        entries[at].0 == key,
        forall|k: int| 0 <= k < at ==> (#[trigger] entries[k]).0 != key,
    ensures
        member(entries, key) == Some(entries[at].1),
    decreases entries.len(),
{
    if at > 0 {
        let rest = entries.drop_first();
        assert(entries[0].0 != key);
        assert forall|k: int| 0 <= k < at - 1 implies (#[trigger] rest[k]).0 != key by {
            assert(rest[k] == entries[k + 1]);
        }
        lemma_member_at(rest, key, at - 1);
    }
}

/// An object gives back for a key the value that it was last given, and for every
/// other key what it gave before.
pub proof fn lemma_member_of_with_member(
    entries: Seq<(Seq<char>, JsonModel)>,
    key: Seq<char>,
    value: JsonModel,
    other: Seq<char>,
)
    requires
        keys_ascend(entries),
    ensures
        member(with_member(entries, key, value), other) == if other == key {
            Some(value)
        } else {
            member(entries, other)
        },
{
    lemma_key_place(entries, key);
    lemma_precedes_irreflexive(key);
    let place = key_place(entries, key) as int;
    let after = with_member(entries, key, value);
    let replaced = place < entries.len() && entries[place].0 == key;
    if other == key {
        assert forall|k: int| 0 <= k < place implies (#[trigger] after[k]).0 != key by {
            assert(after[k] == entries[k]);
        }
        lemma_member_at(after, key, place);
    } else if exists|k: int| 0 <= k < entries.len() && (#[trigger] entries[k]).0 == other {
        let at = choose|k: int| 0 <= k < entries.len() && (#[trigger] entries[k]).0 == other;
        assert forall|k: int| 0 <= k < at implies (#[trigger] entries[k]).0 != other by {
            assert(precedes(entries[k].0, entries[at].0));
            lemma_precedes_irreflexive(other);
        }
        lemma_member_at(entries, other, at);
        let moved = if replaced || at < place { at } else { at + 1 };
        assert(after[moved] == entries[at]);
        assert forall|k: int| 0 <= k < moved implies (#[trigger] after[k]).0 != other by {
            if replaced || k < place {
                if k != place {
                    assert(after[k] == entries[k]);
                }
            } else if k > place {
                assert(after[k] == entries[k - 1]);
            }
        }
        lemma_member_at(after, other, moved);
    } else {
        lemma_member_absent(entries, other);
        assert forall|k: int| 0 <= k < after.len() implies (#[trigger] after[k]).0 != other by {
            if replaced || k < place {
                if k != place {
                    assert(after[k] == entries[k]);
                }
            } else if k > place {
                assert(after[k] == entries[k - 1]);
            }
        }
        lemma_member_absent(after, other);
    }
}

/// A member of a well-formed object is well-formed.
pub proof fn lemma_member_well_formed(entries: Seq<(Seq<char>, JsonModel)>, key: Seq<char>)
    requires
        forall|k: int| 0 <= k < entries.len() ==> well_formed((#[trigger] entries[k]).1),
    ensures
        member(entries, key) matches Some(value) ==> well_formed(value),
    decreases entries.len(),
{
    if entries.len() > 0 {
        assert(well_formed(entries[0].1));
        let rest = entries.drop_first();
        assert forall|k: int| 0 <= k < rest.len() implies well_formed((#[trigger] rest[k]).1) by {
            assert(rest[k] == entries[k + 1]);
        }
        lemma_member_well_formed(rest, key);
    }
}

/// The value of the first member with the given key.
pub fn find_member<'a>(entries: &'a Vec<(String, JsonValue)>, key: &str) -> (found: Option<
    &'a JsonValue,
>)
    ensures
        match found {
            Some(value) => member(entries_view(entries@), key@) == Some(value@),
            None => member(entries_view(entries@), key@) is None,
        },
{
    let ghost all = entries_view(entries@);
    proof {
        lemma_entries_view(entries@);
    }
    let mut at: usize = 0;
    while at < entries.len()
        invariant
            at <= entries@.len(),
            all == entries_view(entries@),
            all.len() == entries@.len(),
            forall|k: int|
                0 <= k < entries@.len() ==> (#[trigger] all[k]) == (
                    entries@[k].0@,
                    entries@[k].1@,
                ),
            forall|k: int| 0 <= k < at ==> (#[trigger] all[k]).0 != key@,
        decreases entries.len() - at,
    {
        if same_text(entries[at].0.as_str(), key) {
            proof {
                lemma_member_at(all, key@, at as int);
            }
            return Some(&entries[at].1);
        }
        assert(all[at as int].0 != key@);
        at += 1;
    }
    proof {
        lemma_member_absent(all, key@);
    }
    None
}

/// Gives an object a member.
pub fn put_member(entries: &mut Vec<(String, JsonValue)>, key: String, value: JsonValue)
    ensures
        entries_view(final(entries)@) == with_member(entries_view(old(entries)@), key@, value@),
{
    let ghost before = entries@;
    let ghost all = entries_view(entries@);
    proof {
        lemma_entries_view(before);
        lemma_key_place(all, key@);
    }
    let wanted = chars_of(key.as_str());
    let mut place: usize = 0;
    assert(all.skip(0) =~= all);
    while place < entries.len() && comes_before(
        chars_of(entries[place].0.as_str()).as_slice(),
        wanted.as_slice(),
    )
        invariant
            place <= entries@.len(),
            entries@ == before,
            wanted@ == key@,
            all == entries_view(entries@),
            all.len() == entries@.len(),
            forall|k: int|
                0 <= k < entries@.len() ==> (#[trigger] all[k]) == (
                    entries@[k].0@,
                    entries@[k].1@,
                ),
            key_place(all, key@) == place + key_place(all.skip(place as int), key@),
        decreases entries.len() - place,
    {
        assert(all.skip(place as int)[0] == all[place as int]);
        assert(all.skip(place as int).drop_first() =~= all.skip(place + 1));
        place += 1;
    }
    assert(place < entries@.len() ==> all.skip(place as int)[0] == all[place as int]);
    let ghost ghost_value = value@;
    if place < entries.len() && same_text(entries[place].0.as_str(), key.as_str()) {
        entries.set(place, (key, value));
    } else {
        entries.insert(place, (key, value));
    }
    proof {
        lemma_entries_view(entries@);
        assert(entries_view(entries@) =~= with_member(all, key@, ghost_value));
    }
}

impl JsonValue {
    /// The value that a JSON text stands for, if it is JSON.
    pub fn from_text(text: &str) -> (value: Option<JsonValue>)
        ensures
            match value {
                Some(value) => json_parsed(text@) == Some(value@) && well_formed(value@),
                None => json_parsed(text@) is None,
            },
    {
        parse_json(text)
    }

    /// The compact JSON text of the value.
    pub fn to_text(&self) -> (text: String)
        requires
            well_formed(self@),
        ensures
            text@ == compact_text(self@),
    {
        json_text(self)
    }

    /// The members, if the value is an object.
    pub fn as_object(&self) -> (entries: Option<&Vec<(String, JsonValue)>>)
        ensures
            match entries {
                Some(entries) => self@ == JsonModel::Object(entries_view(entries@)),
                None => !(self@ is Object),
            },
    {
        match self {
            JsonValue::Object(entries) => Some(entries),
            _ => None,
        }
    }

    /// The items, if the value is an array.
    pub fn as_array(&self) -> (items: Option<&Vec<JsonValue>>)
        ensures
            match items {
                Some(items) => self@ == JsonModel::Array(items_view(items@)),
                None => !(self@ is Array),
            },
    {
        match self {
            JsonValue::Array(items) => Some(items),
            _ => None,
        }
    }

    /// The text, if the value is a string.
    pub fn as_str(&self) -> (text: Option<&str>)
        ensures
            match text {
                Some(text) => self@ == JsonModel::Text(text@),
                None => !(self@ is Text),
            },
    {
        match self {
            JsonValue::Text(text) => Some(text.as_str()),
            _ => None,
        }
    }

    /// The number, if the value is an integer that is not below zero.
    pub fn as_u64(&self) -> (number: Option<u64>)
        ensures
            match number {
                Some(number) => self@ == JsonModel::Number(NumberModel::PosInt(number)),
                None => !(self@ matches JsonModel::Number(NumberModel::PosInt(_))),
            },
    {
        match self {
            JsonValue::Number(JsonNumber::PosInt(number)) => Some(*number),
            _ => None,
        }
    }
}

/// An object with the given members, each already written out.
pub fn braced_text(members: &Vec<String>) -> (text: String)
    ensures
        text@ == braced(string_texts(members@)),
{
    let ghost parts = string_texts(members@);
    let mut text: Vec<char> = Vec::new();
    text.push('{');
    let mut at: usize = 0;
    assert(parts.take(0) =~= Seq::empty());
    assert(text@ =~= seq!['{'] + comma_joined(parts.take(0)));
    while at < members.len()
        invariant
            at <= members@.len(),
            parts == string_texts(members@),
            text@ == seq!['{'] + comma_joined(parts.take(at as int)),
        decreases members.len() - at,
    {
        let ghost before = text@;
        if at > 0 {
            text.push(',');
        }
        append_str(&mut text, members[at].as_str());
        assert(parts.take(at + 1).drop_last() =~= parts.take(at as int));
        assert(parts.take(at + 1).last() == members@[at as int]@);
        assert(text@ =~= seq!['{'] + comma_joined(parts.take(at + 1)));
        at += 1;
    }
    assert(parts.take(at as int) =~= parts);
    text.push('}');
    assert(text@ =~= braced(parts));
    string_of(text.as_slice())
}

/// A member of an object, written out.
pub fn member_string(key: &str, value: &str) -> (text: String)
    ensures
        text@ == member_text(key@, value@),
{
    let mut text = chars_of(quote(key).as_str());
    text.push(':');
    append_str(&mut text, value);
    assert(text@ =~= member_text(key@, value@));
    string_of(text.as_slice())
}

} // verus!
