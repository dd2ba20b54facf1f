//! What holds of the calls of Kimi K3: how arguments are typed, what a body is read as, and
//! how a call is identified.
use crate::attributes::{attr_of, attrs_of, attrs_text, is_attr_name, lemma_attrs_read_back};
use crate::compact::compacted;
use crate::decimal::{i64_value, lemma_numeral_reads_back, numeral};
use crate::json::{braced, json_parsed, member_text, quoted};
use crate::kimi_k3::{
    argument_place, arguments_of, body_arguments, call_at, call_body, call_id, first_argument,
    named_call, placed, settled, written_members, ARGUMENT_CLOSE, ARGUMENT_OPEN_PREFIX, CALL_CLOSE,
    CALL_OPEN_PREFIX, END_OF_MSG, JSON_CLOSE, JSON_OPEN_PREFIX, MESSAGE_CLOSE, SEP, TOOLS_CLOSE,
};
use crate::kimi_k3_laws::{lemma_argument_reads_back, lemma_arguments_read_back, written_argument};
use crate::kimi_k3_message_laws::{comes_behind, lemma_behind};
use crate::response::CallModel;
use crate::text::{
    begins_with, earliest, ends_with, first_index, lemma_earliest, lemma_first_index,
    lemma_first_index_bounds, lemma_found_stays, lemma_leading_space_bound,
    lemma_trailing_space_bound, occurs, occurs_at, trim,
};
use crate::text_laws::{
    ends_solid, is_blank, lemma_trim_end_of, lemma_trim_of, lemma_trim_start_of, starts_solid,
};
use vstd::prelude::*;

verus! {

broadcast use {
    lemma_first_index_bounds,
    lemma_leading_space_bound,
    lemma_trailing_space_bound,
};

/// An argument of type `string` is the JSON string of its text, whatever that text is, also
/// where it happens to be JSON itself.
pub proof fn lemma_string_argument(key: Seq<char>, value: Seq<char>, rest: Seq<char>)
    requires
        !occurs(key, SEP@),
        comes_behind(value, ARGUMENT_CLOSE@),
    ensures
        first_argument(written_argument(key, "string"@, value) + rest) == Some(
            ((key, quoted(value)), written_argument(key, "string"@, value).len() as int),
        ),
{
    lemma_no_separator("string"@);
    lemma_argument_reads_back(key, "string"@, value, rest);
}

/// An argument of any other type is its JSON text in compact form where its text is JSON,
/// and the JSON string of its text where it is none.
pub proof fn lemma_other_argument(
    key: Seq<char>,
    arg_type: Seq<char>,
    value: Seq<char>,
    rest: Seq<char>,
)
    requires
        !occurs(key, SEP@),
        !occurs(arg_type, SEP@),
        arg_type != "string"@,
        comes_behind(value, ARGUMENT_CLOSE@),
    ensures
        first_argument(written_argument(key, arg_type, value) + rest) == Some(
            (
                (
                    key,
                    if json_parsed(value) is Some {
                        compacted(value)
                    } else {
                        quoted(value)
                    },
                ),
                written_argument(key, arg_type, value).len() as int,
            ),
        ),
{
    lemma_argument_reads_back(key, arg_type, value, rest);
}

proof fn lemma_no_separator(text: Seq<char>)
    requires
        text == "string"@,
    ensures
        !occurs(text, SEP@),
{
    reveal_strlit("string");
    reveal_strlit("<|sep|>");
    if occurs(text, SEP@) {
        let at = choose|at: int| occurs_at(text, SEP@, at);
        assert(text.subrange(at, at + 7).len() == 7);
    }
}

/// An argument with any attributes: its key is the first attribute of that name, and is
/// empty where there is none. Without a type it is a string.
pub proof fn lemma_argument_of_attrs(
    attrs: Seq<(Seq<char>, Seq<char>)>,
    value: Seq<char>,
    rest: Seq<char>,
)
    requires
        forall|k: int| 0 <= k < attrs.len() ==> is_attr_name((#[trigger] attrs[k]).0),
        comes_behind(attrs_text(attrs), SEP@),
        comes_behind(value, ARGUMENT_CLOSE@),
    ensures
        ({
            let whole = ARGUMENT_OPEN_PREFIX@ + (attrs_text(attrs) + SEP@ + (value
                + ARGUMENT_CLOSE@ + rest));
            match first_argument(whole) {
                Some(((key, text), used)) => {
                    &&& whole.skip(used) == rest
                    &&& match attr_of(attrs, "key"@) {
                        Some(given) => key == given,
                        None => key.len() == 0,
                    }
                    &&& match attr_of(attrs, "type"@) {
                        Some(given) => given == "string"@ ==> text == quoted(value),
                        None => text == quoted(value),
                    }
                    &&& json_parsed(value) is None ==> text == quoted(value)
                    &&& attr_of(attrs, "type"@) matches Some(given) ==> given != "string"@
                        && json_parsed(value) is Some ==> text == compacted(value)
                },
                None => false,
            }
        }),
{
    let tag = attrs_text(attrs);
    let behind = value + ARGUMENT_CLOSE@ + rest;
    let after = tag + SEP@ + behind;
    let whole = ARGUMENT_OPEN_PREFIX@ + after;
    assert(whole.take(ARGUMENT_OPEN_PREFIX@.len() as int) =~= ARGUMENT_OPEN_PREFIX@);
    assert(whole.skip(ARGUMENT_OPEN_PREFIX@.len() as int) =~= after);
    lemma_found_stays(tag + SEP@, behind, SEP@);
    assert(after.take(tag.len() as int) =~= tag);
    assert(after.skip((tag.len() + SEP@.len()) as int) =~= behind);
    lemma_found_stays(value + ARGUMENT_CLOSE@, rest, ARGUMENT_CLOSE@);
    assert(behind.take(value.len() as int) =~= value);
    lemma_attrs_read_back(attrs);
    let used = (ARGUMENT_OPEN_PREFIX@.len() + tag.len() + SEP@.len() + value.len()
        + ARGUMENT_CLOSE@.len()) as int;
    assert(whole.skip(used) =~= rest);
}

/// An argument as it is written: its key, its type and its text.
pub type Given = (Seq<char>, Seq<char>, Seq<char>);

/// An argument that can be told apart from what stands around it.
pub open spec fn is_writable(one: Given) -> bool {
    &&& !occurs(one.0, SEP@)
    &&& !occurs(one.1, SEP@)
    &&& comes_behind(one.2, ARGUMENT_CLOSE@)
}

/// The JSON text that an argument stands for.
pub open spec fn meant(one: Given) -> Seq<char> {
    if one.1 != "string"@ && json_parsed(one.2) is Some {
        compacted(one.2)
    } else {
        quoted(one.2)
    }
}

/// Arguments as they are written, each behind white space.
pub open spec fn written_arguments(given: Seq<Given>, space: Seq<char>) -> Seq<char>
    decreases given.len(),
{
    if given.len() == 0 {
        space
    } else {
        space + written_argument(given[0].0, given[0].1, given[0].2) + written_arguments(
            given.drop_first(),
            space,
        )
    }
}

/// White space before arguments does not matter.
proof fn lemma_spaced_arguments(space: Seq<char>, text: Seq<char>)
    requires
        is_blank(space),
        starts_solid(text),
    ensures
        arguments_of(space + text) == arguments_of(text),
{
    lemma_trim_start_of(space, text);
    lemma_trim_start_of(Seq::empty(), text);
    assert(Seq::<char>::empty() + text =~= text);
}

/// Arguments that were written are read back, in order and with repeats.
pub proof fn lemma_written_arguments(given: Seq<Given>, space: Seq<char>)
    requires
        is_blank(space),
        forall|k: int| 0 <= k < given.len() ==> is_writable(#[trigger] given[k]),
    ensures
        arguments_of(written_arguments(given, space)) == Some(
            Seq::new(given.len(), |k: int| (given[k].0, meant(given[k]))),
        ),
    decreases given.len(),
{
    let all = Seq::new(given.len(), |k: int| (given[k].0, meant(given[k])));
    if given.len() == 0 {
        let nothing = Seq::<char>::empty();
        lemma_trim_start_of(space, nothing);
        assert(space + nothing =~= space);
        assert(all =~= Seq::empty());
    } else {
        let later = given.drop_first();
        let (key, arg_type, value) = given[0];
        let one = written_argument(key, arg_type, value);
        let rest = written_arguments(later, space);
        assert forall|k: int| 0 <= k < later.len() implies is_writable(#[trigger] later[k]) by {
            assert(later[k] == given[k + 1]);
        }
        assert(is_writable(given[0]));
        lemma_written_arguments(later, space);
        lemma_arguments_read_back(key, arg_type, value, rest);
        reveal_strlit("<|open|>argument");
        assert((one + rest)[0] == '<');
        lemma_spaced_arguments(space, one + rest);
        assert(space + one + rest =~= space + (one + rest));
        assert(all =~= seq![(key, meant(given[0]))] + Seq::new(
            later.len(),
            |k: int| (later[k].0, meant(later[k])),
        ));
    }
}

/// Arguments with different keys all count, in the order in which they came.
proof fn lemma_settled_distinct(members: Seq<(Seq<char>, Seq<char>)>)
    requires
        forall|i: int, j: int|
            0 <= i < j < members.len() ==> (#[trigger] members[i]).0 != (#[trigger] members[j]).0,
    ensures
        settled(members) == members,
    decreases members.len(),
{
    if members.len() > 0 {
        let start = members.drop_last();
        assert forall|i: int, j: int| 0 <= i < j < start.len() implies (#[trigger] start[i]).0 != (
        #[trigger] start[j]).0 by {
            assert(start[i] == members[i] && start[j] == members[j]);
        }
        lemma_settled_distinct(start);
        lemma_no_place(start, members.last().0);
        assert(settled(members) =~= members);
    } else {
        assert(members =~= Seq::empty());
    }
}

proof fn lemma_no_place(members: Seq<(Seq<char>, Seq<char>)>, key: Seq<char>)
    requires
        forall|k: int| 0 <= k < members.len() ==> (#[trigger] members[k]).0 != key,
    ensures
        argument_place(members, key) == members.len(),
    decreases members.len(),
{
    if members.len() > 0 {
        let rest = members.drop_first();
        assert forall|k: int| 0 <= k < rest.len() implies (#[trigger] rest[k]).0 != key by {
            assert(rest[k] == members[k + 1]);
        }
        assert(members[0].0 != key);
        lemma_no_place(rest, key);
    }
}

/// A body of arguments with different keys is an object with those keys in the order in
/// which they were written, each with what its argument stands for.
pub proof fn lemma_body_of_arguments(given: Seq<Given>, space: Seq<char>)
    requires
        given.len() > 0,
        is_blank(space),
        forall|k: int| 0 <= k < given.len() ==> is_writable(#[trigger] given[k]),
        forall|i: int, j: int|
            0 <= i < j < given.len() ==> (#[trigger] given[i]).0 != (#[trigger] given[j]).0,
    ensures
        body_arguments(written_arguments(given, space)) == Some(
            braced(
                Seq::new(given.len(), |k: int| member_text(given[k].0, meant(given[k]))),
            ),
        ),
{
    let all = Seq::new(given.len(), |k: int| (given[k].0, meant(given[k])));
    lemma_trimmed_body(given, space);
    lemma_written_arguments(given, space);
    assert forall|i: int, j: int| 0 <= i < j < all.len() implies (#[trigger] all[i]).0 != (
    #[trigger] all[j]).0 by {
        assert(given[i].0 != given[j].0);
    }
    lemma_settled_distinct(all);
    assert(written_members(all) =~= Seq::new(
        given.len(),
        |k: int| member_text(given[k].0, meant(given[k])),
    ));
}

/// White space around the arguments of a body does not matter.
proof fn lemma_trimmed_body(given: Seq<Given>, space: Seq<char>)
    requires
        given.len() > 0,
        is_blank(space),
        forall|k: int| 0 <= k < given.len() ==> is_writable(#[trigger] given[k]),
    ensures
        ({
            let text = trim(written_arguments(given, space));
            &&& text.len() > 0
            &&& !begins_with(text, JSON_OPEN_PREFIX@)
            &&& arguments_of(text) == arguments_of(written_arguments(given, space))
        }),
{
    let core = lemma_trimmed_arguments(given, space);
    lemma_trim_of(space, core, space);
    lemma_not_json(core);
    lemma_joined(space, core, space, Seq::empty());
    assert(starts_solid(core + space)) by {
        assert((core + space)[0] == core[0]);
    }
    lemma_spaced_arguments(space, core + space);
    lemma_trailing_space_ignored(given, space, core);
}

proof fn lemma_not_json(text: Seq<char>)
    requires
        begins_with(text, ARGUMENT_OPEN_PREFIX@),
    ensures
        text.len() > 0,
        !begins_with(text, JSON_OPEN_PREFIX@),
{
    reveal_strlit("<|open|>argument");
    reveal_strlit("<|open|>json");
    assert(text.take(ARGUMENT_OPEN_PREFIX@.len() as int)[8] == text[8]);
    if begins_with(text, JSON_OPEN_PREFIX@) {
        assert(text.take(JSON_OPEN_PREFIX@.len() as int)[8] == text[8]);
    }
}

/// The written arguments without the white space around them.
proof fn lemma_trimmed_arguments(given: Seq<Given>, space: Seq<char>) -> (core: Seq<char>)
    requires
        given.len() > 0,
    ensures
        written_arguments(given, space) == space + core + space,
        core == trimmed_arguments(given, space),
        begins_with(core, ARGUMENT_OPEN_PREFIX@),
        starts_solid(core),
        ends_solid(core),
    decreases given.len(),
{
    reveal_strlit("<|open|>argument");
    reveal_strlit("<|close|>argument<|sep|>");
    let (key, arg_type, value) = given[0];
    let one = written_argument(key, arg_type, value);
    let later = given.drop_first();
    assert(one.take(ARGUMENT_OPEN_PREFIX@.len() as int) =~= ARGUMENT_OPEN_PREFIX@);
    assert(one[0] == '<');
    assert(one.last() == ARGUMENT_CLOSE@[23]);
    if later.len() == 0 {
        assert(written_arguments(later, space) == space);
        one
    } else {
        let rest = lemma_trimmed_arguments(later, space);
        let core = one + space + rest;
        assert(written_arguments(given, space) =~= space + core + space);
        assert(core.take(ARGUMENT_OPEN_PREFIX@.len() as int) =~= ARGUMENT_OPEN_PREFIX@);
        assert(core[0] == one[0]);
        assert(core.last() == rest.last());
        core
    }
}

spec fn trimmed_arguments(given: Seq<Given>, space: Seq<char>) -> Seq<char>
    decreases given.len(),
{
    let one = written_argument(given[0].0, given[0].1, given[0].2);
    if given.len() <= 1 {
        one
    } else {
        one + space + trimmed_arguments(given.drop_first(), space)
    }
}

proof fn lemma_trailing_space_ignored(given: Seq<Given>, space: Seq<char>, core: Seq<char>)
    requires
        given.len() > 0,
        is_blank(space),
        core == trimmed_arguments(given, space),
        forall|k: int| 0 <= k < given.len() ==> is_writable(#[trigger] given[k]),
    ensures
        arguments_of(core + space) == arguments_of(core),
    decreases given.len(),
{
    let (key, arg_type, value) = given[0];
    let one = written_argument(key, arg_type, value);
    let later = given.drop_first();
    let nothing = Seq::<char>::empty();
    assert(is_writable(given[0]));
    if later.len() == 0 {
        lemma_arguments_read_back(key, arg_type, value, space);
        lemma_arguments_read_back(key, arg_type, value, nothing);
        assert(core + nothing =~= core);
        lemma_trim_start_of(space, nothing);
        assert(space + nothing =~= space);
        lemma_trim_start_of(nothing, nothing);
        assert(nothing + nothing =~= nothing);
    } else {
        let inner = lemma_trimmed_arguments(later, space);
        assert forall|k: int| 0 <= k < later.len() implies is_writable(#[trigger] later[k]) by {
            assert(later[k] == given[k + 1]);
        }
        lemma_trailing_space_ignored(later, space, inner);
        lemma_joined(one, space, inner, space);
        assert(starts_solid(inner + space)) by {
            assert((inner + space)[0] == inner[0]);
        }
        lemma_spaced_arguments(space, inner + space);
        lemma_spaced_arguments(space, inner);
        lemma_arguments_read_back(key, arg_type, value, space + (inner + space));
        lemma_arguments_read_back(key, arg_type, value, space + inner);
    }
}

proof fn lemma_joined(a: Seq<char>, b: Seq<char>, c: Seq<char>, d: Seq<char>)
    ensures
        a + b + c == a + (b + c),
        a + b + c + d == a + (b + (c + d)),
{
    assert(a + b + c =~= a + (b + c));
    assert(a + b + c + d =~= a + (b + (c + d)));
}

/// Where a key is repeated, its first place and its last value count; keys stand in the order
/// in which they first came.
pub proof fn lemma_settled_order(members: Seq<(Seq<char>, Seq<char>)>)
    ensures
        forall|i: int, j: int|
            0 <= i < j < settled(members).len() ==> came_first(
                members,
                (#[trigger] settled(members)[i]).0,
                (#[trigger] settled(members)[j]).0,
            ),
    decreases members.len(),
{
    if members.len() > 0 {
        let start = members.drop_last();
        let one = members.last();
        let before = settled(start);
        let after = settled(members);
        lemma_settled_order(start);
        assert(members =~= start.push(one));
        lemma_place(before, one.0);
        assert forall|i: int, j: int| 0 <= i < j < after.len() implies came_first(
            members,
            (#[trigger] after[i]).0,
            (#[trigger] after[j]).0,
        ) by {
            assert(after[i].0 == before[i].0);
            if j < before.len() {
                assert(after[j].0 == before[j].0);
                lemma_came_first_longer(start, one, before[i].0, before[j].0);
            } else {
                lemma_came_before_new(start, one, i);
            }
        }
    }
}

proof fn lemma_came_first_longer(
    members: Seq<(Seq<char>, Seq<char>)>,
    one: (Seq<char>, Seq<char>),
    key: Seq<char>,
    other: Seq<char>,
)
    requires
        came_first(members, key, other),
    ensures
        came_first(members.push(one), key, other),
{
    reveal(came_first);
    let more = members.push(one);
    let at = choose|at: int|
        {
            &&& 0 <= at < members.len()
            &&& (#[trigger] members[at]).0 == key
            &&& forall|k: int| 0 <= k <= at ==> (#[trigger] members[k]).0 != other
        };
    assert(more[at].0 == key);
    assert forall|k: int| 0 <= k <= at implies (#[trigger] more[k]).0 != other by {
        assert(more[k] == members[k]);
    }
}

proof fn lemma_came_before_new(
    members: Seq<(Seq<char>, Seq<char>)>,
    one: (Seq<char>, Seq<char>),
    i: int,
)
    requires
        0 <= i < settled(members).len(),
        forall|k: int|
            0 <= k < settled(members).len() ==> (#[trigger] settled(members)[k]).0 != one.0,
    ensures
        came_first(members.push(one), settled(members)[i].0, one.0),
{
    reveal(came_first);
    let more = members.push(one);
    let key = settled(members)[i].0;
    lemma_settled_keys(members, key);
    assert(has_key(settled(members), key));
    let at = choose|at: int| 0 <= at < members.len() && (#[trigger] members[at]).0 == key;
    assert(more[at].0 == key);
    assert forall|k: int| 0 <= k <= at implies (#[trigger] more[k]).0 != one.0 by {
        assert(more[k] == members[k]);
        lemma_settled_keys(members, members[k].0);
        assert(has_key(members, members[k].0));
        let place = choose|place: int|
            0 <= place < settled(members).len() && (#[trigger] settled(members)[place]).0
                == members[k].0;
        assert(settled(members)[place].0 != one.0);
    }
}

/// `key` came before `other` came at all.
#[verifier::opaque]
pub open spec fn came_first(
    members: Seq<(Seq<char>, Seq<char>)>,
    key: Seq<char>,
    other: Seq<char>,
) -> bool {
    exists|at: int|
        {
            &&& 0 <= at < members.len()
            &&& (#[trigger] members[at]).0 == key
            &&& forall|k: int| 0 <= k <= at ==> (#[trigger] members[k]).0 != other
        }
}

proof fn lemma_place(members: Seq<(Seq<char>, Seq<char>)>, key: Seq<char>)
    ensures
        ({
            let place = argument_place(members, key);
            &&& place <= members.len()
            &&& place < members.len() ==> members[place as int].0 == key
            &&& forall|k: int| 0 <= k < place ==> (#[trigger] members[k]).0 != key
        }),
    decreases members.len(),
{
    if members.len() > 0 && members[0].0 != key {
        let rest = members.drop_first();
        let place = argument_place(members, key);
        lemma_place(rest, key);
        assert forall|k: int| 0 <= k < place implies (#[trigger] members[k]).0 != key by {
            if k > 0 {
                assert(members[k] == rest[k - 1]);
            }
        }
    }
}

/// A member has the given key.
pub open spec fn has_key(members: Seq<(Seq<char>, Seq<char>)>, key: Seq<char>) -> bool {
    exists|at: int| 0 <= at < members.len() && (#[trigger] members[at]).0 == key
}

/// The keys that count are those that came.
pub proof fn lemma_settled_keys(members: Seq<(Seq<char>, Seq<char>)>, key: Seq<char>)
    ensures
        has_key(settled(members), key) <==> has_key(members, key),
    decreases members.len(),
{
    if members.len() > 0 {
        let start = members.drop_last();
        let one = members.last();
        let before = settled(start);
        let after = settled(members);
        lemma_settled_keys(start, key);
        lemma_placed_keys(before, one, key);
        assert(after == placed(before, one));
        if has_key(members, key) {
            let at = choose|at: int| 0 <= at < members.len() && (#[trigger] members[at]).0 == key;
            if at < start.len() {
                assert(start[at].0 == key);
            }
        }
        if has_key(start, key) {
            let at = choose|at: int| 0 <= at < start.len() && (#[trigger] start[at]).0 == key;
            assert(members[at].0 == key);
        }
        assert(members[members.len() - 1].0 == one.0);
    }
}

proof fn lemma_placed_keys(
    members: Seq<(Seq<char>, Seq<char>)>,
    one: (Seq<char>, Seq<char>),
    key: Seq<char>,
)
    ensures
        has_key(placed(members, one), key) <==> has_key(members, key) || key == one.0,
{
    let after = placed(members, one);
    let place = argument_place(members, one.0) as int;
    lemma_place(members, one.0);
    assert(after[place].0 == one.0);
    if has_key(members, key) {
        let at = choose|at: int| 0 <= at < members.len() && (#[trigger] members[at]).0 == key;
        assert(after[at].0 == key);
    }
    if has_key(after, key) {
        let at = choose|at: int| 0 <= at < after.len() && (#[trigger] after[at]).0 == key;
        if at < members.len() {
            assert(members[at].0 == key);
        }
    }
}

/// A body of white space alone stands for the empty object.
pub proof fn lemma_empty_body(body: Seq<char>)
    requires
        is_blank(body),
    ensures
        body_arguments(body) == Some("{}"@),
{
    let nothing = Seq::<char>::empty();
    lemma_trim_of(body, nothing, nothing);
    assert(body + nothing + nothing =~= body);
}

/// A body that begins with neither an argument nor a JSON element cannot be read.
pub proof fn lemma_unreadable_body(before: Seq<char>, text: Seq<char>, behind: Seq<char>)
    requires
        is_blank(before),
        is_blank(behind),
        text.len() > 0,
        starts_solid(text),
        ends_solid(text),
        !begins_with(text, ARGUMENT_OPEN_PREFIX@),
        !begins_with(text, JSON_OPEN_PREFIX@),
    ensures
        body_arguments(before + text + behind) is None,
{
    lemma_trim_of(before, text, behind);
    lemma_trim_start_of(Seq::empty(), text);
    assert(Seq::<char>::empty() + text =~= text);
}

/// A raw JSON body is the text between its tag and its closer, with white space around it all.
/// Anything else behind the closer spoils it.
pub proof fn lemma_json_body(
    space: Seq<char>,
    attrs: Seq<char>,
    raw: Seq<char>,
    behind: Seq<char>,
)
    requires
        is_blank(space),
        comes_behind(attrs, SEP@),
        comes_behind(raw, JSON_CLOSE@),
    ensures
        is_blank(behind) ==> body_arguments(
            space + (JSON_OPEN_PREFIX@ + (attrs + SEP@ + (raw + JSON_CLOSE@))) + behind,
        ) == Some(raw),
        behind.len() > 0 && starts_solid(behind) && ends_solid(behind) ==> body_arguments(
            space + (JSON_OPEN_PREFIX@ + (attrs + SEP@ + (raw + JSON_CLOSE@ + behind))) + space,
        ) is None,
{
    reveal_strlit("<|open|>json");
    reveal_strlit("<|close|>json<|sep|>");
    let nothing = Seq::<char>::empty();
    if is_blank(behind) {
        let text = JSON_OPEN_PREFIX@ + (attrs + SEP@ + (raw + JSON_CLOSE@));
        assert(text[0] == '<');
        assert(text.last() == JSON_CLOSE@.last());
        lemma_trim_of(space, text, behind);
        lemma_json_parts(attrs, raw, nothing);
        assert(raw + JSON_CLOSE@ + nothing =~= raw + JSON_CLOSE@);
        lemma_trim_of(nothing, nothing, nothing);
        assert(nothing + nothing + nothing =~= nothing);
    }
    if behind.len() > 0 && starts_solid(behind) && ends_solid(behind) {
        let text = JSON_OPEN_PREFIX@ + (attrs + SEP@ + (raw + JSON_CLOSE@ + behind));
        assert(text[0] == '<');
        assert(text.last() == behind.last());
        lemma_trim_of(space, text, space);
        lemma_json_parts(attrs, raw, behind);
        lemma_trim_of(nothing, behind, nothing);
        assert(nothing + behind + nothing =~= behind);
    }
}

proof fn lemma_json_parts(attrs: Seq<char>, raw: Seq<char>, behind: Seq<char>)
    requires
        comes_behind(attrs, SEP@),
        comes_behind(raw, JSON_CLOSE@),
    ensures
        ({
            let value = raw + JSON_CLOSE@ + behind;
            let text = JSON_OPEN_PREFIX@ + (attrs + SEP@ + value);
            let open = JSON_OPEN_PREFIX@.len() as int;
            &&& begins_with(text, JSON_OPEN_PREFIX@)
            &&& first_index(text.skip(open), SEP@) == Some(attrs.len() as int)
            &&& text.skip(open + (attrs.len() + SEP@.len())) == value
            &&& first_index(value, JSON_CLOSE@) == Some(raw.len() as int)
            &&& value.take(raw.len() as int) == raw
            &&& value.skip((raw.len() + JSON_CLOSE@.len()) as int) == behind
        }),
{
    let value = raw + JSON_CLOSE@ + behind;
    let text = JSON_OPEN_PREFIX@ + (attrs + SEP@ + value);
    let open = JSON_OPEN_PREFIX@.len() as int;
    assert(text.take(open) =~= JSON_OPEN_PREFIX@);
    assert(text.skip(open) =~= attrs + SEP@ + value);
    assert(text.skip(open + (attrs.len() + SEP@.len())) =~= value);
    lemma_behind(attrs, SEP@, value);
    lemma_behind(raw, JSON_CLOSE@, behind);
}

/// A raw JSON body without its closer cannot be read, nor one whose tag is not complete.
pub proof fn lemma_unclosed_json_body(attrs: Seq<char>, raw: Seq<char>)
    requires
        ends_solid(raw),
        raw.len() > 0,
    ensures
        comes_behind(attrs, SEP@) && !occurs(raw, JSON_CLOSE@) ==> body_arguments(
            JSON_OPEN_PREFIX@ + (attrs + SEP@ + raw),
        ) is None,
        !occurs(raw, SEP@) ==> body_arguments(JSON_OPEN_PREFIX@ + raw) is None,
{
    reveal_strlit("<|open|>json");
    let nothing = Seq::<char>::empty();
    let open = JSON_OPEN_PREFIX@.len() as int;
    lemma_first_index(raw, JSON_CLOSE@);
    lemma_first_index(raw, SEP@);
    let bare = JSON_OPEN_PREFIX@ + raw;
    assert(bare[0] == '<' && bare.last() == raw.last());
    lemma_trim_of(nothing, bare, nothing);
    assert(nothing + bare + nothing =~= bare);
    assert(bare.take(open) =~= JSON_OPEN_PREFIX@);
    assert(bare.skip(open) =~= raw);
    if comes_behind(attrs, SEP@) {
        let text = JSON_OPEN_PREFIX@ + (attrs + SEP@ + raw);
        assert(text[0] == '<' && text.last() == raw.last());
        lemma_trim_of(nothing, text, nothing);
        assert(nothing + text + nothing =~= text);
        assert(text.take(open) =~= JSON_OPEN_PREFIX@);
        assert(text.skip(open) =~= attrs + SEP@ + raw);
        assert(text.skip(open + (attrs.len() + SEP@.len())) =~= raw);
        lemma_behind(attrs, SEP@, raw);
    }
}

/// An index that is a number in any decimal spelling counts from zero in the identifier. The
/// least number of 64 bits is followed downwards by the greatest.
pub proof fn lemma_call_id_of_number(name: Seq<char>, index: Seq<char>, number: i64)
    requires
        i64_value(index) == Some(number),
    ensures
        number > i64::MIN ==> call_id(name, Some(index)) == name + seq![':'] + numeral(number - 1),
        number == i64::MIN ==> call_id(name, Some(index)) == name + seq![':'] + numeral(
            i64::MAX as int,
        ),
{
}

/// The identifier of a call is its name with its index counted from zero behind a colon, for
/// an index in decimal.
pub proof fn lemma_call_id_counts(name: Seq<char>, index: i64)
    requires
        index > i64::MIN,
    ensures
        call_id(name, Some(numeral(index as int))) == name + seq![':'] + numeral(index - 1),
{
    lemma_numeral_reads_back(index);
    assert(numeral(index as int).len() > 0);
}

/// An index that is no number stands as it is, and without an index the name does.
pub proof fn lemma_call_id_stands(name: Seq<char>, index: Seq<char>)
    ensures
        call_id(name, None) == name,
        index.len() == 0 ==> call_id(name, Some(index)) == name,
        index.len() > 0 && i64_value(index) is None ==> call_id(name, Some(index)) == name + seq![
            ':',
        ] + index,
{
}

/// A tag names the tool of its first attribute `tool` and the index of its first attribute
/// `index`; where there is no such tool, or its name is empty, there is no call.
pub proof fn lemma_named_by_attrs(attrs: Seq<(Seq<char>, Seq<char>)>, arguments: Seq<char>)
    ensures
        match attr_of(attrs, "tool"@) {
            Some(name) if name.len() > 0 => named_call(attrs, arguments) == Some(
                CallModel { id: call_id(name, attr_of(attrs, "index"@)), name, arguments },
            ),
            _ => named_call(attrs, arguments) is None,
        },
{
}

/// A call whose closer has not arrived counts only where the output has ended, and only
/// where its body ends with a complete element: its body then goes to the end of the section
/// or of the message.
pub proof fn lemma_unclosed_body(body: Seq<char>, end: Seq<char>, rest: Seq<char>, space: Seq<char>)
    requires
        is_blank(space),
        ends_solid(body),
        !occurs(body + space + end + rest, CALL_CLOSE@),
        end == TOOLS_CLOSE@ || end == MESSAGE_CLOSE@ || end == END_OF_MSG@,
        comes_behind(body + space, end),
        first_index(body + space + end + rest, TOOLS_CLOSE@) matches Some(at) ==> (body
            + space).len() <= at,
        first_index(body + space + end + rest, MESSAGE_CLOSE@) matches Some(at) ==> (body
            + space).len() <= at,
        first_index(body + space + end + rest, END_OF_MSG@) matches Some(at) ==> (body
            + space).len() <= at,
    ensures
        call_body(body + space + end + rest, false) is None,
        ends_with(body, "<|close|>argument<|sep|>"@) || ends_with(body, "<|close|>json<|sep|>"@)
            ==> call_body(body + space + end + rest, true) == Some(
            (body + space, (body + space).len() as int),
        ),
        !ends_with(body, "<|close|>argument<|sep|>"@) && !ends_with(body, "<|close|>json<|sep|>"@)
            ==> call_body(body + space + end + rest, true) is None,
{
    let inner = body + space;
    let whole = inner + end + rest;
    let ends = seq![TOOLS_CLOSE@, MESSAGE_CLOSE@, END_OF_MSG@];
    lemma_first_index(whole, CALL_CLOSE@);
    lemma_found_stays(inner + end, rest, end);
    lemma_earliest(whole, ends);
    assert(ends[0] == TOOLS_CLOSE@ && ends[1] == MESSAGE_CLOSE@ && ends[2] == END_OF_MSG@);
    let (at, which) = earliest(whole, ends).unwrap();
    assert(which == 0 || which == 1 || which == 2);
    assert(at == inner.len());
    assert(whole.take(inner.len() as int) =~= inner);
    lemma_trim_end_of(body, space);
}

/// A call whose closer has not arrived and whose text has not ended otherwise goes to the
/// end of the text, under the same conditions.
pub proof fn lemma_unclosed_body_at_end(body: Seq<char>, space: Seq<char>)
    requires
        is_blank(space),
        ends_solid(body),
        !occurs(body + space, CALL_CLOSE@),
        !occurs(body + space, TOOLS_CLOSE@),
        !occurs(body + space, MESSAGE_CLOSE@),
        !occurs(body + space, END_OF_MSG@),
    ensures
        call_body(body + space, false) is None,
        ends_with(body, "<|close|>argument<|sep|>"@) || ends_with(body, "<|close|>json<|sep|>"@)
            ==> call_body(body + space, true) == Some((body + space, (body + space).len() as int)),
        !ends_with(body, "<|close|>argument<|sep|>"@) && !ends_with(body, "<|close|>json<|sep|>"@)
            ==> call_body(body + space, true) is None,
{
    let whole = body + space;
    let ends = seq![TOOLS_CLOSE@, MESSAGE_CLOSE@, END_OF_MSG@];
    lemma_first_index(whole, CALL_CLOSE@);
    lemma_first_index(whole, TOOLS_CLOSE@);
    lemma_first_index(whole, MESSAGE_CLOSE@);
    lemma_first_index(whole, END_OF_MSG@);
    lemma_earliest(whole, ends);
    if let Some((at, which)) = earliest(whole, ends) {
        assert(which == 0 || which == 1 || which == 2);
    }
    lemma_trim_end_of(body, space);
}

/// A call is read from its tag and its body, whatever attributes the tag has: a body that
/// can be read gives the arguments, and the tag gives the name and the identifier.
pub proof fn lemma_call_of_attrs(
    attrs: Seq<(Seq<char>, Seq<char>)>,
    rest: Seq<char>,
    recover: bool,
)
    requires
        forall|k: int| 0 <= k < attrs.len() ==> is_attr_name((#[trigger] attrs[k]).0),
        comes_behind(attrs_text(attrs), SEP@),
    ensures
        ({
            let tag = CALL_OPEN_PREFIX@ + (attrs_text(attrs) + SEP@);
            match call_body(rest, recover) {
                Some((body, used)) => match body_arguments(body) {
                    Some(arguments) => call_at(tag + rest, recover) == Some(
                        (named_call(attrs, arguments), tag.len() + used),
                    ),
                    None => call_at(tag + rest, recover) is None,
                },
                None => call_at(tag + rest, recover) is None,
            }
        }),
{
    let text = attrs_text(attrs);
    lemma_attrs_read_back(attrs);
    lemma_call_of_parts(text, attrs, rest, recover);
}

proof fn lemma_tag_parts(text: Seq<char>, rest: Seq<char>)
    requires
        comes_behind(text, SEP@),
    ensures
        ({
            let whole = CALL_OPEN_PREFIX@ + (text + SEP@) + rest;
            let after = whole.skip(CALL_OPEN_PREFIX@.len() as int);
            &&& begins_with(whole, CALL_OPEN_PREFIX@)
            &&& first_index(after, SEP@) == Some(text.len() as int)
            &&& after.take(text.len() as int) == text
            &&& whole.skip((CALL_OPEN_PREFIX@.len() + text.len() + SEP@.len()) as int) == rest
        }),
{
    let whole = CALL_OPEN_PREFIX@ + (text + SEP@) + rest;
    let after = text + SEP@ + rest;
    assert(whole.take(CALL_OPEN_PREFIX@.len() as int) =~= CALL_OPEN_PREFIX@);
    assert(whole.skip(CALL_OPEN_PREFIX@.len() as int) =~= after);
    lemma_behind(text, SEP@, rest);
    assert(whole.skip((CALL_OPEN_PREFIX@.len() + text.len() + SEP@.len()) as int) =~= rest);
}

#[verifier::spinoff_prover]
proof fn lemma_call_of_parts(
    text: Seq<char>,
    attrs: Seq<(Seq<char>, Seq<char>)>,
    rest: Seq<char>,
    recover: bool,
)
    requires
        attrs_of(text) == Some(attrs),
        comes_behind(text, SEP@),
    ensures
        ({
            let tag = CALL_OPEN_PREFIX@ + (text + SEP@);
            match call_body(rest, recover) {
                Some((body, used)) => match body_arguments(body) {
                    Some(arguments) => call_at(tag + rest, recover) == Some(
                        (named_call(attrs, arguments), tag.len() + used),
                    ),
                    None => call_at(tag + rest, recover) is None,
                },
                None => call_at(tag + rest, recover) is None,
            }
        }),
{
    reveal(call_at);
    lemma_tag_parts(text, rest);
}

} // verus!
