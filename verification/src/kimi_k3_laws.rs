//! What holds of the Kimi K3 grammar as a whole.
use crate::attributes::{
    attr_escaped, attr_of, attr_text, attrs_of, lemma_attr_reads_back, lemma_escaped_holds,
};
use crate::kimi_k3::{
    argument_json, argument_place, arguments_of, before_any, body_arguments, boundary_texts,
    call_at, call_body, call_id, calls_in, first_argument, first_boundary, holds_marker,
    logical_message, message_calls, message_ends, named_call, position_behind, response_text,
    settled, span_end, without_message_open, ARGUMENT_CLOSE, ARGUMENT_OPEN_PREFIX, CALL_CLOSE,
    CALL_OPEN_PREFIX, END_OF_MSG, JSON_CLOSE, JSON_OPEN_PREFIX, MESSAGE_CLOSE, MESSAGE_OPEN_PREFIX,
    RESPONSE_CLOSE, RESPONSE_OPEN, SEP, TOOLS_CLOSE, TOOLS_OPEN,
};
use crate::response::CallModel;
use crate::text::{
    begins_with, earliest, ends_with, first_index, leading_space, lemma_earliest,
    lemma_earliest_bounds, lemma_first_index, lemma_first_index_bounds, lemma_first_index_is,
    lemma_found_in_start, lemma_found_stays, lemma_leading_space_bound, lemma_occurs_in_longer,
    lemma_trailing_space_bound, occurs, occurs_at, trailing_space, trim, trim_start,
};
use vstd::prelude::*;

verus! {

broadcast use {
    lemma_first_index_bounds,
    lemma_earliest_bounds,
    lemma_leading_space_bound,
    lemma_trailing_space_bound,
};

/// A boundary that begins in a chunk is noticed in that chunk, wherever the stream
/// is cut.
pub proof fn lemma_split_boundary_noticed(chunk: Seq<char>, more: Seq<char>, which: int, at: int)
    requires
        0 <= which < boundary_texts().len(),
        occurs_at(chunk + more, boundary_texts()[which], at),
        at < chunk.len(),
    ensures
        holds_marker(chunk, boundary_texts()[which]),
{
    let marker = boundary_texts()[which];
    lemma_occurs_in_longer(chunk, more, marker, at);
    if at + marker.len() > chunk.len() {
        let count = chunk.len() - at;
        assert(chunk.skip(at) =~= marker.take(count)) by {
            assert forall|i: int| 0 <= i < count implies chunk.skip(at)[i] == marker.take(
                count,
            )[i] by {
                assert((chunk + more).subrange(at, at + marker.len())[i] == marker[i]);
            }
        }
        assert(ends_with(chunk, marker.take(count)));
    } else {
        assert(occurs_at(chunk, marker, at));
    }
}

/// A complete span ends with a boundary.
pub proof fn lemma_span_ends_with_boundary(chunk: Seq<char>)
    requires
        span_end(chunk) is Some,
    ensures
        exists|k: int|
            0 <= k < boundary_texts().len() && ends_with(
                chunk.take(span_end(chunk)->0),
                #[trigger] boundary_texts()[k],
            ),
{
    let (start, marker) = first_boundary(chunk).unwrap();
    let which = earliest(chunk, boundary_texts()).unwrap().1;
    let span = chunk.skip(start);
    let end = span_end(chunk).unwrap();
    lemma_earliest(chunk, boundary_texts());
    lemma_first_index(chunk, marker);
    lemma_first_index(span, END_OF_MSG@);
    lemma_first_index(span, MESSAGE_CLOSE@);
    lemma_first_index(span, TOOLS_CLOSE@);
    lemma_first_index(span, CALL_CLOSE@);
    let last = if position_behind(span, END_OF_MSG@) is Some {
        8
    } else if position_behind(span, MESSAGE_CLOSE@) is Some {
        7
    } else if marker == TOOLS_OPEN@ {
        5
    } else if marker == CALL_OPEN_PREFIX@ {
        6
    } else {
        which
    };
    let ending = boundary_texts()[last];
    if last == which {
        assert(chunk.subrange(start, start + marker.len()) == marker);
    }
    let from = end - ending.len();
    assert(span.subrange(from - start, end - start) =~= chunk.subrange(from, end));
    assert(chunk.take(end).skip(from) =~= chunk.subrange(from, end));
    assert(ends_with(chunk.take(end), boundary_texts()[last]));
}

/// What stands in a part of a text stands in the text.
proof fn lemma_part_occurs(text: Seq<char>, from: int, to: int, marker: Seq<char>)
    requires
        0 <= from <= to <= text.len(),
        occurs(text.subrange(from, to), marker),
    ensures
        occurs(text, marker),
{
    let part = text.subrange(from, to);
    let at = choose|at: int| occurs_at(part, marker, at);
    assert(part.subrange(at, at + marker.len()) =~= text.subrange(
        from + at,
        from + at + marker.len(),
    ));
    assert(occurs_at(text, marker, from + at));
}

proof fn lemma_not_in_part(text: Seq<char>, from: int, to: int, marker: Seq<char>)
    requires
        0 <= from <= to <= text.len(),
        !occurs(text, marker),
    ensures
        !occurs(text.subrange(from, to), marker),
{
    if occurs(text.subrange(from, to), marker) {
        lemma_part_occurs(text, from, to, marker);
    }
}

/// A text up to the first of several markers holds none of them.
proof fn lemma_none_before(text: Seq<char>, markers: Seq<Seq<char>>, which: int)
    requires
        0 <= which < markers.len(),
        markers[which].len() > 0,
    ensures
        !occurs(before_any(text, markers), markers[which]),
{
    lemma_earliest(text, markers);
    lemma_first_index(text, markers[which]);
    let start = before_any(text, markers);
    if occurs(start, markers[which]) {
        let at = choose|at: int| occurs_at(start, markers[which], at);
        match earliest(text, markers) {
            Some((found, _)) => {
                assert(start.subrange(at, at + markers[which].len()) =~= text.subrange(
                    at,
                    at + markers[which].len(),
                ));
                assert(occurs_at(text, markers[which], at));
                let first = first_index(text, markers[which]).unwrap();
                assert(first <= at);
            },
            None => {
                assert(occurs_at(text, markers[which], at));
            },
        }
    }
}

proof fn lemma_without_message_open_part(text: Seq<char>, marker: Seq<char>)
    requires
        !occurs(text, marker),
    ensures
        !occurs(without_message_open(text), marker),
{
    let prefix = MESSAGE_OPEN_PREFIX@.len() as int;
    if begins_with(text, MESSAGE_OPEN_PREFIX@) {
        let rest = text.skip(prefix);
        if let Some(end) = position_behind(rest, SEP@) {
            lemma_not_in_part(text, prefix + end, text.len() as int, marker);
            assert(rest.skip(end) =~= text.subrange(prefix + end, text.len() as int));
        }
    }
}

proof fn lemma_prefix_part(text: Seq<char>, to: int, marker: Seq<char>)
    requires
        0 <= to <= text.len(),
        !occurs(text, marker),
    ensures
        !occurs(text.take(to), marker),
{
    lemma_not_in_part(text, 0, to, marker);
    assert(text.take(to) =~= text.subrange(0, to));
}

proof fn lemma_response_part(message: Seq<char>, marker: Seq<char>)
    requires
        marker.len() > 0,
        !occurs(logical_message(message), marker),
    ensures
        !occurs(response_text(message), marker),
{
    let logical = logical_message(message);
    match (
        position_behind(logical, RESPONSE_OPEN@),
        first_index(logical, RESPONSE_CLOSE@),
        earliest(logical, seq![TOOLS_OPEN@, CALL_OPEN_PREFIX@]),
    ) {
        (Some(body), _, _) => {
            let rest = logical.skip(body);
            lemma_not_in_part(logical, body, logical.len() as int, marker);
            assert(rest =~= logical.subrange(body, logical.len() as int));
            if let Some((at, _)) = earliest(rest, seq![RESPONSE_CLOSE@, TOOLS_OPEN@]) {
                lemma_prefix_part(rest, at, marker);
            }
        },
        (None, Some(close), _) => {
            lemma_prefix_part(logical, close, marker);
            lemma_without_message_open_part(logical.take(close), marker);
        },
        (None, None, Some((tools, _))) => {
            lemma_prefix_part(logical, tools, marker);
            lemma_without_message_open_part(logical.take(tools), marker);
        },
        (None, None, None) => {
            lemma_without_message_open_part(logical, marker);
        },
    }
}

/// What the reader sees of a message holds no marker that ends a message, and none
/// that ends a response.
pub proof fn lemma_response_without_closers(message: Seq<char>)
    ensures
        !occurs(response_text(message), MESSAGE_CLOSE@),
        !occurs(response_text(message), END_OF_MSG@),
        !occurs(response_text(message), RESPONSE_CLOSE@),
{
    reveal_strlit("<|close|>message<|sep|>");
    reveal_strlit("<|end_of_msg|>");
    reveal_strlit("<|close|>response<|sep|>");
    let logical = logical_message(message);
    assert(message_ends()[0] == MESSAGE_CLOSE@);
    assert(message_ends()[1] == END_OF_MSG@);
    lemma_none_before(message, message_ends(), 0);
    lemma_none_before(message, message_ends(), 1);
    lemma_response_part(message, MESSAGE_CLOSE@);
    lemma_response_part(message, END_OF_MSG@);
    lemma_first_index(logical, RESPONSE_CLOSE@);
    match (position_behind(logical, RESPONSE_OPEN@), first_index(logical, RESPONSE_CLOSE@)) {
        (Some(body), _) => {
            let ends = seq![RESPONSE_CLOSE@, TOOLS_OPEN@];
            assert(ends[0] == RESPONSE_CLOSE@);
            lemma_none_before(logical.skip(body), ends, 0);
        },
        (None, Some(close)) => {
            let start = logical.take(close);
            if occurs(start, RESPONSE_CLOSE@) {
                let at = choose|at: int| occurs_at(start, RESPONSE_CLOSE@, at);
                assert(start.subrange(at, at + RESPONSE_CLOSE@.len()) =~= logical.subrange(
                    at,
                    at + RESPONSE_CLOSE@.len(),
                ));
                assert(occurs_at(logical, RESPONSE_CLOSE@, at));
            }
            lemma_without_message_open_part(start, RESPONSE_CLOSE@);
        },
        (None, None) => {
            lemma_response_part(message, RESPONSE_CLOSE@);
        },
    }
}

/// The position of a key is within the members, and points at the key.
proof fn lemma_argument_place(members: Seq<(Seq<char>, Seq<char>)>, key: Seq<char>)
    ensures
        argument_place(members, key) <= members.len(),
        argument_place(members, key) < members.len() ==> members[argument_place(
            members,
            key,
        ) as int].0 == key,
        forall|k: int|
            0 <= k < argument_place(members, key) ==> (#[trigger] members[k]).0 != key,
    decreases members.len(),
{
    if members.len() > 0 && members[0].0 != key {
        let rest = members.drop_first();
        lemma_argument_place(rest, key);
        assert forall|k: int| 0 <= k < argument_place(members, key) implies (
        #[trigger] members[k]).0 != key by {
            if k > 0 {
                assert(members[k] == rest[k - 1]);
            }
        }
    }
}

/// `one` is among the members, and none behind it has its key.
pub open spec fn comes_last(
    members: Seq<(Seq<char>, Seq<char>)>,
    one: (Seq<char>, Seq<char>),
) -> bool {
    exists|k: int|
        {
            &&& 0 <= k < members.len()
            &&& (#[trigger] members[k]) == one
            &&& no_key_in(members.skip(k + 1), one.0)
        }
}

/// No member has the given key.
pub open spec fn no_key_in(members: Seq<(Seq<char>, Seq<char>)>, key: Seq<char>) -> bool {
    forall|k: int| 0 <= k < members.len() ==> (#[trigger] members[k]).0 != key
}

/// An object of arguments holds each key once, with the value that came last for
/// it.
pub proof fn lemma_settled(members: Seq<(Seq<char>, Seq<char>)>)
    ensures
        forall|i: int, j: int|
            0 <= i < j < settled(members).len() ==> (#[trigger] settled(members)[i]).0 != (
            #[trigger] settled(members)[j]).0,
        forall|i: int|
            0 <= i < settled(members).len() ==> comes_last(members, #[trigger] settled(members)[i]),
        forall|k: int|
            0 <= k < members.len() ==> !no_key_in(settled(members), (#[trigger] members[k]).0),
    decreases members.len(),
{
    if members.len() > 0 {
        let start = members.drop_last();
        let one = members.last();
        let before = settled(start);
        let after = settled(members);
        lemma_settled(start);
        lemma_argument_place(before, one.0);
        let place = argument_place(before, one.0) as int;
        assert forall|i: int, j: int| 0 <= i < j < after.len() implies (#[trigger] after[i]).0 != (
        #[trigger] after[j]).0 by {
            if i < before.len() {
                assert(after[i].0 == before[i].0);
            }
            if j < before.len() {
                assert(after[j].0 == before[j].0);
            } else {
                assert(before[i].0 != one.0);
            }
        }
        assert forall|i: int| 0 <= i < after.len() implies comes_last(
            members,
            #[trigger] after[i],
        ) by {
            if i == place {
                let last = members.len() - 1;
                assert(members[last] == after[i]);
                assert(no_key_in(members.skip(last + 1), one.0));
            } else {
                assert(after[i] == before[i]);
                assert(before[i].0 != one.0) by {
                    if place < before.len() {
                        if i < place {
                            assert(before[i].0 != before[place].0);
                        } else {
                            assert(before[place].0 != before[i].0);
                        }
                    }
                }
                let k = choose|k: int|
                    {
                        &&& 0 <= k < start.len()
                        &&& (#[trigger] start[k]) == before[i]
                        &&& no_key_in(start.skip(k + 1), before[i].0)
                    };
                let behind = members.skip(k + 1);
                assert forall|later: int| 0 <= later < behind.len() implies (
                #[trigger] behind[later]).0 != before[i].0 by {
                    if later < behind.len() - 1 {
                        assert(behind[later] == start.skip(k + 1)[later]);
                    }
                }
                assert(members[k] == after[i]);
            }
        }
        assert forall|k: int| 0 <= k < members.len() implies !no_key_in(
            after,
            (#[trigger] members[k]).0,
        ) by {
            if k < start.len() {
                assert(members[k] == start[k]);
                let i = choose|i: int|
                    0 <= i < before.len() && (#[trigger] before[i]).0 == start[k].0;
                assert(after[i].0 == before[i].0);
            } else {
                assert(after[place].0 == one.0);
            }
        }
    }
}

/// Where a marker first stands behind `start`, it does so whatever follows it.
proof fn lemma_first_behind(start: Seq<char>, marker: Seq<char>, rest: Seq<char>)
    requires
        first_index(start + marker, marker) == Some(start.len() as int),
    ensures
        first_index(start + marker + rest, marker) == Some(start.len() as int),
        (start + marker + rest).take(start.len() as int) == start,
        (start + marker + rest).skip((start.len() + marker.len()) as int) == rest,
{
    lemma_found_stays(start + marker, rest, marker);
    assert((start + marker + rest).take(start.len() as int) =~= start);
    assert((start + marker + rest).skip((start.len() + marker.len()) as int) =~= rest);
}

/// An argument as it is written in a call.
pub open spec fn written_argument(
    key: Seq<char>,
    arg_type: Seq<char>,
    value: Seq<char>,
) -> Seq<char> {
    ARGUMENT_OPEN_PREFIX@ + (attr_text("key"@, key) + attr_text("type"@, arg_type) + SEP@) + (value
        + ARGUMENT_CLOSE@)
}

/// Two attributes that were written are read back.
proof fn lemma_two_attrs(
    first: Seq<char>,
    one: Seq<char>,
    second: Seq<char>,
    other: Seq<char>,
)
    requires
        first == "key"@ && second == "type"@ || first == "tool"@ && second == "index"@,
    ensures
        attrs_of(attr_text(first, one) + attr_text(second, other)) == Some(
            seq![(first, one), (second, other)],
        ),
{
    reveal_strlit("key");
    reveal_strlit("type");
    reveal_strlit("tool");
    reveal_strlit("index");
    let nothing = Seq::<char>::empty();
    assert(leading_space(nothing) == 0);
    assert(trim_start(nothing) =~= nothing);
    assert(attrs_of(nothing) == Some(Seq::<(Seq<char>, Seq<char>)>::empty()));
    assert(attr_text(second, other) + nothing =~= attr_text(second, other));
    lemma_attr_reads_back(second, other, nothing);
    lemma_attr_reads_back(first, one, attr_text(second, other));
    assert(seq![(first, one)] + (seq![(second, other)] + Seq::empty()) =~= seq![
        (first, one),
        (second, other),
    ]);
}

/// A written attribute holds a separator only where its value does.
proof fn lemma_attr_without_separator(name: Seq<char>, value: Seq<char>)
    requires
        !name.contains('<'),
        !occurs(value, SEP@),
    ensures
        !occurs(attr_text(name, value), SEP@),
{
    reveal_strlit("<|sep|>");
    let text = attr_text(name, value);
    let shown = attr_escaped(value);
    let from = (name.len() + 3) as int;
    if occurs(text, SEP@) {
        let at = choose|at: int| occurs_at(text, SEP@, at);
        let found = text.subrange(at, at + 7);
        assert(found[0] == text[at]);
        if at < from {
            assert(text[at] == (seq![' '] + name + seq!['=', '"'])[at]);
            assert(1 <= at <= name.len());
            assert(name[at - 1] == '<');
        }
        let quote = from + shown.len();
        assert(text[quote] == '"');
        assert(at != quote);
        if quote < at + 7 {
            assert(found[quote - at] == '"');
        }
        assert(shown.subrange(at - from, at - from + 7) =~= found);
        assert(occurs_at(shown, SEP@, at - from));
        lemma_escaped_holds(value, SEP@);
    }
}

/// The separator behind two written attributes is the first, where no value holds
/// one.
pub proof fn lemma_separator_behind_attrs(
    first: Seq<char>,
    one: Seq<char>,
    second: Seq<char>,
    other: Seq<char>,
)
    requires
        !first.contains('<'),
        !second.contains('<'),
        !occurs(one, SEP@),
        !occurs(other, SEP@),
    ensures
        first_index(attr_text(first, one) + attr_text(second, other) + SEP@, SEP@) == Some(
            (attr_text(first, one) + attr_text(second, other)).len() as int,
        ),
{
    reveal_strlit("<|sep|>");
    let start = attr_text(first, one);
    let end = attr_text(second, other);
    let tag = start + end;
    let whole = tag + SEP@;
    lemma_attr_without_separator(first, one);
    lemma_attr_without_separator(second, other);
    assert(whole.subrange(tag.len() as int, tag.len() + 7int) =~= SEP@);
    assert forall|at: int| 0 <= at < tag.len() implies !occurs_at(whole, SEP@, at) by {
        if occurs_at(whole, SEP@, at) {
            let found = whole.subrange(at, at + 7);
            if tag.len() < at + 7 {
                assert(found[tag.len() - at] == whole[tag.len() as int]);
                assert(whole[tag.len() as int] == '<');
            }
            if at >= start.len() {
                let from = at - start.len();
                assert(end.subrange(from, from + 7) =~= found);
                assert(occurs_at(end, SEP@, from));
            } else if at + 7 <= start.len() {
                assert(start.subrange(at, at + 7) =~= found);
                assert(occurs_at(start, SEP@, at));
            } else {
                assert(found[start.len() - at] == end[0]);
            }
        }
    }
    lemma_first_index_is(whole, SEP@, tag.len() as int);
}

/// The names of the attributes that calls and arguments have.
proof fn lemma_plain_names()
    ensures
        !("key"@).contains('<'),
        !("type"@).contains('<'),
        !("tool"@).contains('<'),
        !("index"@).contains('<'),
{
    reveal_strlit("key");
    reveal_strlit("type");
    reveal_strlit("tool");
    reveal_strlit("index");
}

/// An argument that was written is read back: its key, and its value by its type.
/// The values of the tag must not hold a separator, and the value not its closer.
pub proof fn lemma_argument_reads_back(
    key: Seq<char>,
    arg_type: Seq<char>,
    value: Seq<char>,
    rest: Seq<char>,
)
    requires
        !occurs(key, SEP@),
        !occurs(arg_type, SEP@),
        first_index(value + ARGUMENT_CLOSE@, ARGUMENT_CLOSE@) == Some(value.len() as int),
    ensures
        first_argument(written_argument(key, arg_type, value) + rest) == Some(
            (
                (key, argument_json(arg_type, value)),
                written_argument(key, arg_type, value).len() as int,
            ),
        ),
{
    let tag = attr_text("key"@, key) + attr_text("type"@, arg_type);
    let whole = written_argument(key, arg_type, value) + rest;
    let close = value + ARGUMENT_CLOSE@ + rest;
    let after_open = tag + SEP@ + close;
    assert(whole =~= ARGUMENT_OPEN_PREFIX@ + after_open);
    assert(whole.take(ARGUMENT_OPEN_PREFIX@.len() as int) =~= ARGUMENT_OPEN_PREFIX@);
    assert(whole.skip(ARGUMENT_OPEN_PREFIX@.len() as int) =~= after_open);
    lemma_plain_names();
    lemma_separator_behind_attrs("key"@, key, "type"@, arg_type);
    lemma_first_behind(tag, SEP@, close);
    lemma_first_behind(value, ARGUMENT_CLOSE@, rest);
    lemma_two_attrs("key"@, key, "type"@, arg_type);
    reveal_strlit("key");
    reveal_strlit("type");
    let attrs = seq![("key"@, key), ("type"@, arg_type)];
    reveal_with_fuel(attr_of, 3);
    assert(attrs.drop_first()[0] == ("type"@, arg_type));
    assert("key"@.len() != "type"@.len());
}

/// A call as it is written.
pub open spec fn written_call(name: Seq<char>, index: Seq<char>, body: Seq<char>) -> Seq<char> {
    CALL_OPEN_PREFIX@ + (attr_text("tool"@, name) + attr_text("index"@, index) + SEP@) + (body
        + CALL_CLOSE@)
}

/// A tag that names a tool and an index gives the call with them.
proof fn lemma_named_call(name: Seq<char>, index: Seq<char>, arguments: Seq<char>)
    requires
        name.len() > 0,
    ensures
        attrs_of(attr_text("tool"@, name) + attr_text("index"@, index)) matches Some(attrs)
            && named_call(attrs, arguments) == Some(
            CallModel { id: call_id(name, Some(index)), name, arguments },
        ),
{
    lemma_two_attrs("tool"@, name, "index"@, index);
    reveal_strlit("tool");
    reveal_strlit("index");
    let attrs = seq![("tool"@, name), ("index"@, index)];
    reveal_with_fuel(attr_of, 3);
    assert(attrs.drop_first()[0] == ("index"@, index));
    assert("tool"@.len() != "index"@.len());
}

/// A call that was written is read back: its name, its identifier and its
/// arguments. The values of the tag must not hold a separator, and the body not the closer.
pub proof fn lemma_call_reads_back(
    name: Seq<char>,
    index: Seq<char>,
    body: Seq<char>,
    rest: Seq<char>,
    recover: bool,
)
    requires
        name.len() > 0,
        !occurs(name, SEP@),
        !occurs(index, SEP@),
        first_index(body + CALL_CLOSE@, CALL_CLOSE@) == Some(body.len() as int),
        body_arguments(body) is Some,
    ensures
        call_at(written_call(name, index, body) + rest, recover) == Some(
            (
                Some(
                    CallModel {
                        id: call_id(name, Some(index)),
                        name,
                        arguments: body_arguments(body)->0,
                    },
                ),
                written_call(name, index, body).len() as int,
            ),
        ),
{
    let tag = attr_text("tool"@, name) + attr_text("index"@, index);
    let call = written_call(name, index, body);
    let whole = call + rest;
    let close = body + CALL_CLOSE@ + rest;
    let after_open = tag + SEP@ + close;
    let start = (CALL_OPEN_PREFIX@.len() + tag.len() + SEP@.len()) as int;
    let arguments = body_arguments(body).unwrap();
    assert(whole =~= CALL_OPEN_PREFIX@ + after_open);
    assert(whole.take(CALL_OPEN_PREFIX@.len() as int) =~= CALL_OPEN_PREFIX@);
    assert(whole.skip(CALL_OPEN_PREFIX@.len() as int) =~= after_open);
    lemma_plain_names();
    lemma_separator_behind_attrs("tool"@, name, "index"@, index);
    lemma_first_behind(tag, SEP@, close);
    lemma_first_behind(body, CALL_CLOSE@, rest);
    assert(whole.skip(start) =~= close);
    lemma_named_call(name, index, arguments);
    assert(call.len() == start + body.len() + CALL_CLOSE@.len());
    assert(call_body(close, recover) == Some((body, (body.len() + CALL_CLOSE@.len()) as int)));
    lemma_call_at_is(whole, recover, tag.len() as int, body, arguments);
}

/// What [`call_at`] gives, put together from its parts.
proof fn lemma_call_at_is(
    input: Seq<char>,
    recover: bool,
    tag_end: int,
    body: Seq<char>,
    arguments: Seq<char>,
)
    requires
        begins_with(input, CALL_OPEN_PREFIX@),
        first_index(input.skip(CALL_OPEN_PREFIX@.len() as int), SEP@) == Some(tag_end),
        attrs_of(input.skip(CALL_OPEN_PREFIX@.len() as int).take(tag_end)) is Some,
        call_body(input.skip(CALL_OPEN_PREFIX@.len() + tag_end + SEP@.len()), recover) matches Some(
            (found, _),
        ) && found == body,
        body_arguments(body) == Some(arguments),
    ensures
        call_at(input, recover) == Some(
            (
                named_call(
                    attrs_of(input.skip(CALL_OPEN_PREFIX@.len() as int).take(tag_end))->0,
                    arguments,
                ),
                CALL_OPEN_PREFIX@.len() + tag_end + SEP@.len() + (call_body(
                    input.skip(CALL_OPEN_PREFIX@.len() + tag_end + SEP@.len()),
                    recover,
                )->0).1,
            ),
        ),
{
    reveal(call_at);
}

/// A call that has its closer is read in the same way whether or not a missing
/// closer is put up with, and whatever follows it: from its opener up to its closer.
pub proof fn lemma_closed_call_stays(input: Seq<char>, rest: Seq<char>, recover: bool)
    requires
        call_at(input, false) is Some,
    ensures
        ({
            let (call, used) = call_at(input, false)->0;
            &&& 0 < used <= input.len()
            &&& begins_with(input.take(used), CALL_OPEN_PREFIX@)
            &&& ends_with(input.take(used), CALL_CLOSE@)
            &&& call_at(input, recover) == Some((call, used))
            &&& call_at(input.take(used) + rest, recover) == Some((call, used))
        }),
{
    reveal(call_at);
    reveal_strlit("<|close|>call<|sep|>");
    let open = CALL_OPEN_PREFIX@.len() as int;
    let (call, used) = call_at(input, false).unwrap();
    let after_open = input.skip(open);
    let tag_end = first_index(after_open, SEP@).unwrap();
    let start = open + tag_end + SEP@.len();
    let behind = input.skip(start);
    let close = first_index(behind, CALL_CLOSE@).unwrap();
    let kept = input.take(used);
    let other = kept + rest;
    assert(used == start + close + CALL_CLOSE@.len());
    lemma_first_index(behind, CALL_CLOSE@);
    assert(kept.take(open) =~= input.take(open));
    assert(kept.skip(used - CALL_CLOSE@.len()) =~= behind.subrange(
        close,
        close + CALL_CLOSE@.len(),
    ));
    lemma_found_in_start(after_open, used - open, SEP@);
    lemma_found_stays(after_open.take(used - open), rest, SEP@);
    lemma_found_in_start(behind, used - start, CALL_CLOSE@);
    lemma_found_stays(behind.take(used - start), rest, CALL_CLOSE@);
    assert(other.take(open) =~= input.take(open));
    assert(other.skip(open) =~= after_open.take(used - open) + rest);
    assert(other.skip(start) =~= behind.take(used - start) + rest);
    assert(other.skip(open).take(tag_end) =~= after_open.take(tag_end));
    assert(other.skip(start).take(close) =~= behind.take(close));
}

/// The calls of a region that begins with a written call are that call and those
/// of the rest.
pub proof fn lemma_calls_read_back(
    name: Seq<char>,
    index: Seq<char>,
    body: Seq<char>,
    rest: Seq<char>,
    recover: bool,
)
    requires
        name.len() > 0,
        !occurs(name, SEP@),
        !occurs(index, SEP@),
        first_index(body + CALL_CLOSE@, CALL_CLOSE@) == Some(body.len() as int),
        body_arguments(body) is Some,
    ensures
        calls_in(written_call(name, index, body) + rest, recover) == seq![
            CallModel {
                id: call_id(name, Some(index)),
                name,
                arguments: body_arguments(body)->0,
            },
        ] + calls_in(rest, recover),
{
    reveal_strlit("<|open|>call");
    let call = written_call(name, index, body);
    let whole = call + rest;
    lemma_call_reads_back(name, index, body, rest, recover);
    assert(whole.subrange(0, CALL_OPEN_PREFIX@.len() as int) =~= CALL_OPEN_PREFIX@);
    lemma_first_index_is(whole, CALL_OPEN_PREFIX@, 0);
    assert(whole.skip(0) =~= whole);
    assert(whole.skip(call.len() as int) =~= rest);
}

/// A raw JSON body gives its text back, byte by byte. The tag must not hold a
/// separator, and the text not its closer.
pub proof fn lemma_raw_json_kept(attrs: Seq<char>, raw: Seq<char>)
    requires
        first_index(attrs + SEP@, SEP@) == Some(attrs.len() as int),
        first_index(raw + JSON_CLOSE@, JSON_CLOSE@) == Some(raw.len() as int),
    ensures
        body_arguments(JSON_OPEN_PREFIX@ + (attrs + SEP@) + (raw + JSON_CLOSE@)) == Some(raw),
{
    reveal_strlit("<|open|>json");
    reveal_strlit("<|close|>json<|sep|>");
    let body = JSON_OPEN_PREFIX@ + (attrs + SEP@) + (raw + JSON_CLOSE@);
    let nothing = Seq::<char>::empty();
    assert(body[0] == '<');
    assert(leading_space(body) == 0);
    assert(trim_start(body) =~= body);
    assert(body.last() == JSON_CLOSE@.last());
    assert(trailing_space(body) == 0);
    assert(trim(body) =~= body);
    assert(body.take(JSON_OPEN_PREFIX@.len() as int) =~= JSON_OPEN_PREFIX@);
    let after_open = attrs + SEP@ + (raw + JSON_CLOSE@);
    assert(body.skip(JSON_OPEN_PREFIX@.len() as int) =~= after_open);
    lemma_first_behind(attrs, SEP@, raw + JSON_CLOSE@);
    let value = raw + JSON_CLOSE@;
    assert(body.skip(JSON_OPEN_PREFIX@.len() + (attrs.len() + SEP@.len() as int)) =~= value);
    assert(value.take(raw.len() as int) =~= raw);
    assert(value.skip(raw.len() + JSON_CLOSE@.len() as int) =~= nothing);
    assert(leading_space(nothing) == 0);
    assert(trim_start(nothing) =~= nothing);
    assert(trim(nothing).len() == 0);
}

/// A tools section gives the calls that stand in it. It must not hold its own
/// closer, nor a marker that ends the message.
pub proof fn lemma_tools_section(region: Seq<char>, rest: Seq<char>, recover: bool)
    requires
        first_index(region + TOOLS_CLOSE@, TOOLS_CLOSE@) == Some(region.len() as int),
        logical_message(TOOLS_OPEN@ + (region + TOOLS_CLOSE@) + rest) == TOOLS_OPEN@ + (region
            + TOOLS_CLOSE@) + rest,
    ensures
        message_calls(TOOLS_OPEN@ + (region + TOOLS_CLOSE@) + rest, recover) == calls_in(
            region,
            false,
        ),
{
    let body = region + TOOLS_CLOSE@ + rest;
    let whole = TOOLS_OPEN@ + (region + TOOLS_CLOSE@) + rest;
    assert(whole.subrange(0, TOOLS_OPEN@.len() as int) =~= TOOLS_OPEN@);
    lemma_first_index_is(whole, TOOLS_OPEN@, 0);
    assert(whole.skip(TOOLS_OPEN@.len() as int) =~= body);
    lemma_first_behind(region, TOOLS_CLOSE@, rest);
}

/// Without a tools section, the calls that stand alone count.
pub proof fn lemma_calls_without_section(message: Seq<char>, recover: bool)
    requires
        !occurs(message, TOOLS_OPEN@),
        logical_message(message) == message,
    ensures
        message_calls(message, recover) == calls_in(message, recover),
{
    lemma_first_index(message, TOOLS_OPEN@);
}

/// The arguments of a body that begins with a written argument are that argument
/// and those of the rest.
pub proof fn lemma_arguments_read_back(
    key: Seq<char>,
    arg_type: Seq<char>,
    value: Seq<char>,
    rest: Seq<char>,
)
    requires
        !occurs(key, SEP@),
        !occurs(arg_type, SEP@),
        first_index(value + ARGUMENT_CLOSE@, ARGUMENT_CLOSE@) == Some(value.len() as int),
    ensures
        arguments_of(written_argument(key, arg_type, value) + rest) == (match arguments_of(rest) {
            Some(later) => Some(seq![(key, argument_json(arg_type, value))] + later),
            None => None,
        }),
{
    reveal_strlit("<|open|>argument");
    let one = written_argument(key, arg_type, value);
    let whole = one + rest;
    lemma_argument_reads_back(key, arg_type, value, rest);
    assert(whole[0] == '<');
    assert(leading_space(whole) == 0);
    assert(trim_start(whole) =~= whole);
    assert(whole.skip(one.len() as int) =~= rest);
}

/// A message whose tools section holds one written call gives that call.
pub proof fn lemma_section_reads_back(
    name: Seq<char>,
    index: Seq<char>,
    body: Seq<char>,
    rest: Seq<char>,
    recover: bool,
)
    requires
        name.len() > 0,
        !occurs(name, SEP@),
        !occurs(index, SEP@),
        first_index(body + CALL_CLOSE@, CALL_CLOSE@) == Some(body.len() as int),
        body_arguments(body) is Some,
        first_index(written_call(name, index, body) + TOOLS_CLOSE@, TOOLS_CLOSE@) == Some(
            written_call(name, index, body).len() as int,
        ),
        logical_message(TOOLS_OPEN@ + (written_call(name, index, body) + TOOLS_CLOSE@) + rest)
            == TOOLS_OPEN@ + (written_call(name, index, body) + TOOLS_CLOSE@) + rest,
    ensures
        message_calls(
            TOOLS_OPEN@ + (written_call(name, index, body) + TOOLS_CLOSE@) + rest,
            recover,
        ) == seq![
            CallModel {
                id: call_id(name, Some(index)),
                name,
                arguments: body_arguments(body)->0,
            },
        ],
{
    reveal_strlit("<|open|>call");
    let call = written_call(name, index, body);
    let nothing = Seq::<char>::empty();
    lemma_tools_section(call, rest, recover);
    lemma_calls_read_back(name, index, body, nothing, false);
    assert(call + nothing =~= call);
    lemma_first_index(nothing, CALL_OPEN_PREFIX@);
    assert(calls_in(nothing, false) =~= Seq::empty());
}

/// Every boundary begins with `<`.
proof fn lemma_boundaries_begin(which: int)
    requires
        0 <= which < boundary_texts().len(),
    ensures
        boundary_texts()[which].len() > 0,
        boundary_texts()[which][0] == '<',
{
    reveal_strlit("<|open|>response<|sep|>");
    reveal_strlit("<|close|>response<|sep|>");
    reveal_strlit("<|open|>tools<|sep|>");
    reveal_strlit("<|open|>call");
    reveal_strlit("<|close|>argument<|sep|>");
    reveal_strlit("<|close|>tools<|sep|>");
    reveal_strlit("<|close|>call<|sep|>");
    reveal_strlit("<|close|>message<|sep|>");
    reveal_strlit("<|end_of_msg|>");
}

/// A text without `<` does not hold what begins with it.
proof fn lemma_not_in_plain(text: Seq<char>, marker: Seq<char>)
    requires
        !text.contains('<'),
        marker.len() > 0,
        marker[0] == '<',
    ensures
        !occurs(text, marker),
        first_index(text, marker) is None,
{
    lemma_first_index(text, marker);
    if occurs(text, marker) {
        let at = choose|at: int| occurs_at(text, marker, at);
        assert(text.subrange(at, at + marker.len())[0] == text[at]);
    }
}

/// A text without `<` is not taken for the beginning of a boundary.
pub proof fn lemma_plain_chunk_not_noticed(chunk: Seq<char>, which: int)
    requires
        !chunk.contains('<'),
        0 <= which < boundary_texts().len(),
    ensures
        !holds_marker(chunk, boundary_texts()[which]),
{
    let marker = boundary_texts()[which];
    lemma_boundaries_begin(which);
    lemma_not_in_plain(chunk, marker);
    assert forall|count: int| 0 < count < marker.len() implies !ends_with(
        chunk,
        #[trigger] marker.take(count),
    ) by {
        if ends_with(chunk, marker.take(count)) {
            assert(chunk.skip(chunk.len() - count)[0] == chunk[chunk.len() - count]);
            assert(marker.take(count)[0] == '<');
        }
    }
}

/// A message that holds no boundary and does not begin with the opener of a message
/// is for the reader as it is, and holds no call and no span.
pub proof fn lemma_plain_message(message: Seq<char>, recover: bool)
    requires
        earliest(message, boundary_texts()) is None,
        !begins_with(message, MESSAGE_OPEN_PREFIX@),
    ensures
        response_text(message) == message,
        message_calls(message, recover) == Seq::<CallModel>::empty(),
        span_end(message) is None,
{
    lemma_earliest(message, boundary_texts());
    lemma_earliest(message, message_ends());
    let openers = seq![TOOLS_OPEN@, CALL_OPEN_PREFIX@];
    lemma_earliest(message, openers);
    assert(boundary_texts()[0] == RESPONSE_OPEN@);
    assert(boundary_texts()[1] == RESPONSE_CLOSE@);
    assert(boundary_texts()[2] == TOOLS_OPEN@);
    assert(boundary_texts()[3] == CALL_OPEN_PREFIX@);
    assert(boundary_texts()[7] == MESSAGE_CLOSE@);
    assert(boundary_texts()[8] == END_OF_MSG@);
    if let Some((at, which)) = earliest(message, message_ends()) {
        assert(message_ends()[which] == MESSAGE_CLOSE@ || message_ends()[which] == END_OF_MSG@);
    }
    if let Some((at, which)) = earliest(message, openers) {
        assert(openers[which] == TOOLS_OPEN@ || openers[which] == CALL_OPEN_PREFIX@);
    }
    assert(logical_message(message) == message);
}

/// A response that was written is what the reader sees. It must not hold its own
/// closer nor the opener of a tools section, and the message goes on past it.
pub proof fn lemma_response_reads_back(body: Seq<char>, rest: Seq<char>)
    requires
        logical_message(RESPONSE_OPEN@ + (body + RESPONSE_CLOSE@) + rest) == RESPONSE_OPEN@ + (body
            + RESPONSE_CLOSE@) + rest,
        first_index(body + RESPONSE_CLOSE@, RESPONSE_CLOSE@) == Some(body.len() as int),
        first_index(body + RESPONSE_CLOSE@ + rest, TOOLS_OPEN@) matches Some(at) ==> body.len()
            <= at,
    ensures
        response_text(RESPONSE_OPEN@ + (body + RESPONSE_CLOSE@) + rest) == body,
{
    let whole = RESPONSE_OPEN@ + (body + RESPONSE_CLOSE@) + rest;
    let behind = body + RESPONSE_CLOSE@ + rest;
    let ends = seq![RESPONSE_CLOSE@, TOOLS_OPEN@];
    assert(whole.subrange(0, RESPONSE_OPEN@.len() as int) =~= RESPONSE_OPEN@);
    lemma_first_index_is(whole, RESPONSE_OPEN@, 0);
    assert(whole.skip(RESPONSE_OPEN@.len() as int) =~= behind);
    lemma_first_behind(body, RESPONSE_CLOSE@, rest);
    lemma_earliest(behind, ends);
    assert(ends[0] == RESPONSE_CLOSE@ && ends[1] == TOOLS_OPEN@);
    let (at, which) = earliest(behind, ends).unwrap();
    assert(which == 0 || which == 1);
    assert(at == body.len());
}

} // verus!
