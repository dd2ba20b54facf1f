//! What holds of the messages of Kimi K3: what the reader sees, which calls count, and where
//! a span ends.
use crate::kimi_k3::{
    boundary_texts, call_at, calls_in, first_boundary, holds_marker, lemma_call_at_bounds,
    logical_message, message_calls, message_ends, response_text, span_end, CALL_CLOSE,
    CALL_OPEN_PREFIX, END_OF_MSG, MESSAGE_CLOSE, MESSAGE_OPEN_PREFIX, RESPONSE_CLOSE, RESPONSE_OPEN,
    SEP, TOOLS_CLOSE, TOOLS_OPEN,
};
use crate::response::CallModel;
use crate::text::{
    begins_with, earliest, ends_with, first_index, lemma_earliest, lemma_earliest_bounds,
    lemma_first_index, lemma_first_index_bounds, lemma_first_index_is, lemma_found_in_rest,
    lemma_found_stays, occurs, occurs_at,
};
use vstd::prelude::*;

verus! {

broadcast use {lemma_first_index_bounds, lemma_earliest_bounds};

/// Neither marker that ends a message stands in the text.
pub open spec fn is_unended(text: Seq<char>) -> bool {
    !occurs(text, "<|close|>message<|sep|>"@) && !occurs(text, "<|end_of_msg|>"@)
}

/// `marker` stands behind `before`, and not earlier.
pub open spec fn comes_behind(before: Seq<char>, marker: Seq<char>) -> bool {
    first_index(before + marker, marker) == Some(before.len() as int)
}

proof fn lemma_absent(text: Seq<char>, marker: Seq<char>)
    requires
        !occurs(text, marker),
    ensures
        first_index(text, marker) is None,
{
    lemma_first_index(text, marker);
}

pub(crate) proof fn lemma_behind(before: Seq<char>, marker: Seq<char>, rest: Seq<char>)
    requires
        comes_behind(before, marker),
    ensures
        first_index(before + marker + rest, marker) == Some(before.len() as int),
        (before + marker + rest).take(before.len() as int) == before,
        (before + marker + rest).skip((before.len() + marker.len()) as int) == rest,
        (before + marker + rest).skip(before.len() as int) == marker + rest,
{
    lemma_found_stays(before + marker, rest, marker);
    assert((before + marker + rest).take(before.len() as int) =~= before);
    assert((before + marker + rest).skip((before.len() + marker.len()) as int) =~= rest);
    assert((before + marker + rest).skip(before.len() as int) =~= marker + rest);
}

/// A message that has not ended counts as a whole.
proof fn lemma_unended(message: Seq<char>)
    requires
        is_unended(message),
    ensures
        logical_message(message) == message,
{
    lemma_absent(message, MESSAGE_CLOSE@);
    lemma_absent(message, END_OF_MSG@);
    lemma_earliest(message, message_ends());
    if let Some((at, which)) = earliest(message, message_ends()) {
        assert(which == 0 || which == 1);
    }
}

/// What stands behind the end of a message does not count: neither for the reader nor for
/// the calls.
pub proof fn lemma_behind_the_end(
    message: Seq<char>,
    end: Seq<char>,
    rest: Seq<char>,
    recover: bool,
)
    requires
        end == "<|close|>message<|sep|>"@ || end == "<|end_of_msg|>"@,
        comes_behind(message, end),
        first_index(message + end + rest, "<|close|>message<|sep|>"@) matches Some(at)
            ==> message.len() <= at,
        first_index(message + end + rest, "<|end_of_msg|>"@) matches Some(at) ==> message.len()
            <= at,
    ensures
        response_text(message + end + rest) == response_text(message),
        message_calls(message + end + rest, recover) == message_calls(message, recover),
{
    let whole = message + end + rest;
    lemma_behind(message, end, rest);
    lemma_earliest(whole, message_ends());
    assert(message_ends()[0] == MESSAGE_CLOSE@ && message_ends()[1] == END_OF_MSG@);
    let (at, which) = earliest(whole, message_ends()).unwrap();
    assert(which == 0 || which == 1);
    assert(at == message.len());
    assert(logical_message(whole) == message);
    assert(is_unended(message)) by {
        assert forall|marker: Seq<char>|
            marker == MESSAGE_CLOSE@ || marker == END_OF_MSG@ implies !(#[trigger] occurs(
            message,
            marker,
        )) by {
            reveal_strlit("<|close|>message<|sep|>");
            reveal_strlit("<|end_of_msg|>");
            if occurs(message, marker) {
                let place = choose|place: int| occurs_at(message, marker, place);
                assert(whole.subrange(place, place + marker.len()) =~= message.subrange(
                    place,
                    place + marker.len(),
                ));
                assert(occurs_at(whole, marker, place));
                lemma_first_index(whole, marker);
            }
        }
    }
    lemma_unended(message);
}

/// The reader sees the response channel: what stands between its opener and its closer.
pub proof fn lemma_response_channel(before: Seq<char>, body: Seq<char>, rest: Seq<char>)
    requires
        is_unended(before + RESPONSE_OPEN@ + (body + RESPONSE_CLOSE@ + rest)),
        comes_behind(before, RESPONSE_OPEN@),
        comes_behind(body, RESPONSE_CLOSE@),
        first_index(body + RESPONSE_CLOSE@ + rest, TOOLS_OPEN@) matches Some(at) ==> body.len()
            <= at,
    ensures
        response_text(before + RESPONSE_OPEN@ + (body + RESPONSE_CLOSE@ + rest)) == body,
{
    let channel = body + RESPONSE_CLOSE@ + rest;
    let ends = seq![RESPONSE_CLOSE@, TOOLS_OPEN@];
    lemma_unended(before + RESPONSE_OPEN@ + channel);
    lemma_behind(before, RESPONSE_OPEN@, channel);
    lemma_behind(body, RESPONSE_CLOSE@, rest);
    lemma_earliest(channel, ends);
    assert(ends[0] == RESPONSE_CLOSE@ && ends[1] == TOOLS_OPEN@);
    let (at, which) = earliest(channel, ends).unwrap();
    assert(which == 0 || which == 1);
    assert(at == body.len());
}

/// A response channel without a closer goes to the tools section.
pub proof fn lemma_response_before_tools(before: Seq<char>, body: Seq<char>, rest: Seq<char>)
    requires
        is_unended(before + RESPONSE_OPEN@ + (body + TOOLS_OPEN@ + rest)),
        comes_behind(before, RESPONSE_OPEN@),
        comes_behind(body, TOOLS_OPEN@),
        first_index(body + TOOLS_OPEN@ + rest, RESPONSE_CLOSE@) matches Some(at) ==> body.len()
            < at,
    ensures
        response_text(before + RESPONSE_OPEN@ + (body + TOOLS_OPEN@ + rest)) == body,
{
    let channel = body + TOOLS_OPEN@ + rest;
    let ends = seq![RESPONSE_CLOSE@, TOOLS_OPEN@];
    lemma_unended(before + RESPONSE_OPEN@ + channel);
    lemma_behind(before, RESPONSE_OPEN@, channel);
    lemma_behind(body, TOOLS_OPEN@, rest);
    lemma_earliest(channel, ends);
    assert(ends[0] == RESPONSE_CLOSE@ && ends[1] == TOOLS_OPEN@);
    let (at, which) = earliest(channel, ends).unwrap();
    assert(which == 0 || which == 1);
    assert(at == body.len());
}

/// A response channel that nothing ends goes to the end of the message.
pub proof fn lemma_open_response(before: Seq<char>, body: Seq<char>)
    requires
        is_unended(before + RESPONSE_OPEN@ + body),
        comes_behind(before, RESPONSE_OPEN@),
        !occurs(body, RESPONSE_CLOSE@),
        !occurs(body, TOOLS_OPEN@),
    ensures
        response_text(before + RESPONSE_OPEN@ + body) == body,
{
    let ends = seq![RESPONSE_CLOSE@, TOOLS_OPEN@];
    lemma_unended(before + RESPONSE_OPEN@ + body);
    lemma_behind(before, RESPONSE_OPEN@, body);
    lemma_absent(body, RESPONSE_CLOSE@);
    lemma_absent(body, TOOLS_OPEN@);
    lemma_earliest(body, ends);
    if let Some((at, which)) = earliest(body, ends) {
        assert(which == 0 || which == 1);
    }
}

/// Where the prompt has opened the response, the reader sees what stands before its closer,
/// whatever follows: a tools section, a call, or anything else.
pub proof fn lemma_response_opened_before(body: Seq<char>, rest: Seq<char>)
    requires
        is_unended(body + RESPONSE_CLOSE@ + rest),
        !occurs(body + RESPONSE_CLOSE@ + rest, RESPONSE_OPEN@),
        comes_behind(body, RESPONSE_CLOSE@),
        !begins_with(body, MESSAGE_OPEN_PREFIX@),
    ensures
        response_text(body + RESPONSE_CLOSE@ + rest) == body,
{
    let whole = body + RESPONSE_CLOSE@ + rest;
    lemma_unended(whole);
    lemma_absent(whole, RESPONSE_OPEN@);
    lemma_behind(body, RESPONSE_CLOSE@, rest);
}

/// Without a response channel the reader sees what stands before the tools section, or
/// before the first call.
pub proof fn lemma_text_before_markup(body: Seq<char>, opener: Seq<char>, rest: Seq<char>)
    requires
        opener == TOOLS_OPEN@ || opener == CALL_OPEN_PREFIX@,
        is_unended(body + opener + rest),
        !occurs(body + opener + rest, RESPONSE_OPEN@),
        !occurs(body + opener + rest, RESPONSE_CLOSE@),
        comes_behind(body, opener),
        first_index(body + opener + rest, TOOLS_OPEN@) matches Some(at) ==> body.len() <= at,
        first_index(body + opener + rest, CALL_OPEN_PREFIX@) matches Some(at) ==> body.len() <= at,
        !begins_with(body, MESSAGE_OPEN_PREFIX@),
    ensures
        response_text(body + opener + rest) == body,
{
    let whole = body + opener + rest;
    let openers = seq![TOOLS_OPEN@, CALL_OPEN_PREFIX@];
    lemma_unended(whole);
    lemma_absent(whole, RESPONSE_OPEN@);
    lemma_absent(whole, RESPONSE_CLOSE@);
    lemma_behind(body, opener, rest);
    lemma_earliest(whole, openers);
    assert(openers[0] == TOOLS_OPEN@ && openers[1] == CALL_OPEN_PREFIX@);
    let (at, which) = earliest(whole, openers).unwrap();
    assert(which == 0 || which == 1);
    assert(at == body.len());
}

/// A message opener, with whatever attributes, is no part of the text that the reader sees.
pub proof fn lemma_message_opener_dropped(attrs: Seq<char>, body: Seq<char>)
    requires
        comes_behind(attrs, SEP@),
        is_unended(MESSAGE_OPEN_PREFIX@ + (attrs + SEP@ + body)),
        earliest(MESSAGE_OPEN_PREFIX@ + (attrs + SEP@ + body), boundary_texts()) is None,
    ensures
        response_text(MESSAGE_OPEN_PREFIX@ + (attrs + SEP@ + body)) == body,
{
    let tail = attrs + SEP@ + body;
    let whole = MESSAGE_OPEN_PREFIX@ + tail;
    let openers = seq![TOOLS_OPEN@, CALL_OPEN_PREFIX@];
    lemma_unended(whole);
    lemma_earliest(whole, boundary_texts());
    lemma_earliest(whole, openers);
    assert(boundary_texts()[0] == RESPONSE_OPEN@);
    assert(boundary_texts()[1] == RESPONSE_CLOSE@);
    assert(boundary_texts()[2] == TOOLS_OPEN@);
    assert(boundary_texts()[3] == CALL_OPEN_PREFIX@);
    if let Some((at, which)) = earliest(whole, openers) {
        assert(openers[which] == TOOLS_OPEN@ || openers[which] == CALL_OPEN_PREFIX@);
    }
    assert(whole.take(MESSAGE_OPEN_PREFIX@.len() as int) =~= MESSAGE_OPEN_PREFIX@);
    assert(whole.skip(MESSAGE_OPEN_PREFIX@.len() as int) =~= tail);
    lemma_behind(attrs, SEP@, body);
}

/// A message opener before text that stands before the closer of the response is no part of
/// what the reader sees.
pub proof fn lemma_message_opener_dropped_before_closer(
    attrs: Seq<char>,
    body: Seq<char>,
    rest: Seq<char>,
)
    requires
        comes_behind(attrs, SEP@),
        is_unended(MESSAGE_OPEN_PREFIX@ + (attrs + SEP@ + body) + RESPONSE_CLOSE@ + rest),
        !occurs(
            MESSAGE_OPEN_PREFIX@ + (attrs + SEP@ + body) + RESPONSE_CLOSE@ + rest,
            RESPONSE_OPEN@,
        ),
        comes_behind(MESSAGE_OPEN_PREFIX@ + (attrs + SEP@ + body), RESPONSE_CLOSE@),
    ensures
        response_text(MESSAGE_OPEN_PREFIX@ + (attrs + SEP@ + body) + RESPONSE_CLOSE@ + rest)
            == body,
{
    let tail = attrs + SEP@ + body;
    let start = MESSAGE_OPEN_PREFIX@ + tail;
    let whole = start + RESPONSE_CLOSE@ + rest;
    lemma_unended(whole);
    lemma_absent(whole, RESPONSE_OPEN@);
    lemma_behind(start, RESPONSE_CLOSE@, rest);
    assert(start.take(MESSAGE_OPEN_PREFIX@.len() as int) =~= MESSAGE_OPEN_PREFIX@);
    assert(start.skip(MESSAGE_OPEN_PREFIX@.len() as int) =~= tail);
    lemma_behind(attrs, SEP@, body);
}

/// A message opener before text that stands before a tools section or a call is no part of
/// what the reader sees.
pub proof fn lemma_message_opener_dropped_before_markup(
    attrs: Seq<char>,
    body: Seq<char>,
    opener: Seq<char>,
    rest: Seq<char>,
)
    requires
        opener == TOOLS_OPEN@ || opener == CALL_OPEN_PREFIX@,
        comes_behind(attrs, SEP@),
        ({
            let start = MESSAGE_OPEN_PREFIX@ + (attrs + SEP@ + body);
            let whole = start + opener + rest;
            &&& is_unended(whole)
            &&& !occurs(whole, RESPONSE_OPEN@)
            &&& !occurs(whole, RESPONSE_CLOSE@)
            &&& comes_behind(start, opener)
            &&& first_index(whole, TOOLS_OPEN@) matches Some(at) ==> start.len() <= at
            &&& first_index(whole, CALL_OPEN_PREFIX@) matches Some(at) ==> start.len() <= at
        }),
    ensures
        response_text(MESSAGE_OPEN_PREFIX@ + (attrs + SEP@ + body) + opener + rest) == body,
{
    let tail = attrs + SEP@ + body;
    let start = MESSAGE_OPEN_PREFIX@ + tail;
    let whole = start + opener + rest;
    let openers = seq![TOOLS_OPEN@, CALL_OPEN_PREFIX@];
    lemma_unended(whole);
    lemma_absent(whole, RESPONSE_OPEN@);
    lemma_absent(whole, RESPONSE_CLOSE@);
    lemma_behind(start, opener, rest);
    lemma_earliest(whole, openers);
    assert(openers[0] == TOOLS_OPEN@ && openers[1] == CALL_OPEN_PREFIX@);
    assert(start.take(MESSAGE_OPEN_PREFIX@.len() as int) =~= MESSAGE_OPEN_PREFIX@);
    assert(start.skip(MESSAGE_OPEN_PREFIX@.len() as int) =~= tail);
    lemma_behind(attrs, SEP@, body);
}

/// A message opener that has not been completed stays in the text.
pub proof fn lemma_incomplete_message_opener(attrs: Seq<char>)
    requires
        is_unended(MESSAGE_OPEN_PREFIX@ + attrs),
        !occurs(attrs, SEP@),
        earliest(MESSAGE_OPEN_PREFIX@ + attrs, boundary_texts()) is None,
    ensures
        response_text(MESSAGE_OPEN_PREFIX@ + attrs) == MESSAGE_OPEN_PREFIX@ + attrs,
{
    let whole = MESSAGE_OPEN_PREFIX@ + attrs;
    let openers = seq![TOOLS_OPEN@, CALL_OPEN_PREFIX@];
    lemma_unended(whole);
    lemma_earliest(whole, boundary_texts());
    lemma_earliest(whole, openers);
    assert(boundary_texts()[0] == RESPONSE_OPEN@ && boundary_texts()[1] == RESPONSE_CLOSE@);
    assert(boundary_texts()[2] == TOOLS_OPEN@ && boundary_texts()[3] == CALL_OPEN_PREFIX@);
    assert(openers[0] == TOOLS_OPEN@ && openers[1] == CALL_OPEN_PREFIX@);
    assert(whole.skip(MESSAGE_OPEN_PREFIX@.len() as int) =~= attrs);
    lemma_absent(attrs, SEP@);
}

/// A boundary is noticed in a chunk where the chunk has it, or ends with a beginning of it, and
/// nowhere else.
pub proof fn lemma_boundary_noticed(before: Seq<char>, marker: Seq<char>, count: int)
    requires
        0 < count < marker.len(),
    ensures
        holds_marker(before + marker.take(count), marker),
        occurs(before, marker) ==> holds_marker(before, marker),
        !occurs(before, marker) && (forall|n: int|
            0 < n < marker.len() && n <= before.len() ==> before.skip(before.len() - n)
                != #[trigger] marker.take(n)) ==> !holds_marker(before, marker),
{
    let chunk = before + marker.take(count);
    assert(chunk.skip(chunk.len() - count) =~= marker.take(count));
    assert(ends_with(chunk, marker.take(count)));
}

/// A message that has markup, but neither a response nor a tools section nor a call, has
/// nothing for the reader.
pub proof fn lemma_other_markup_hidden(message: Seq<char>)
    requires
        is_unended(message),
        !occurs(message, RESPONSE_OPEN@),
        !occurs(message, RESPONSE_CLOSE@),
        !occurs(message, TOOLS_OPEN@),
        !occurs(message, CALL_OPEN_PREFIX@),
        occurs(message, "<|close|>argument<|sep|>"@) || occurs(message, "<|close|>call<|sep|>"@)
            || occurs(message, "<|close|>tools<|sep|>"@),
    ensures
        response_text(message).len() == 0,
{
    let openers = seq![TOOLS_OPEN@, CALL_OPEN_PREFIX@];
    lemma_unended(message);
    lemma_absent(message, RESPONSE_OPEN@);
    lemma_absent(message, RESPONSE_CLOSE@);
    lemma_absent(message, TOOLS_OPEN@);
    lemma_absent(message, CALL_OPEN_PREFIX@);
    lemma_earliest(message, openers);
    if let Some((at, which)) = earliest(message, openers) {
        assert(openers[which] == TOOLS_OPEN@ || openers[which] == CALL_OPEN_PREFIX@);
    }
    lemma_earliest(message, boundary_texts());
    lemma_first_index(message, "<|close|>argument<|sep|>"@);
    lemma_first_index(message, "<|close|>call<|sep|>"@);
    lemma_first_index(message, "<|close|>tools<|sep|>"@);
    assert(boundary_texts()[4] == "<|close|>argument<|sep|>"@);
    assert(boundary_texts()[5] == "<|close|>tools<|sep|>"@);
    assert(boundary_texts()[6] == "<|close|>call<|sep|>"@);
    assert(first_boundary(message) is Some);
}

/// The calls of a message are those between the opener and the closer of its tools section,
/// whatever stands around it. Each needs its own closer.
pub proof fn lemma_calls_of_section(
    before: Seq<char>,
    region: Seq<char>,
    rest: Seq<char>,
    recover: bool,
)
    requires
        is_unended(before + TOOLS_OPEN@ + (region + TOOLS_CLOSE@ + rest)),
        comes_behind(before, TOOLS_OPEN@),
        comes_behind(region, TOOLS_CLOSE@),
    ensures
        message_calls(before + TOOLS_OPEN@ + (region + TOOLS_CLOSE@ + rest), recover) == calls_in(
            region,
            false,
        ),
{
    lemma_unended(before + TOOLS_OPEN@ + (region + TOOLS_CLOSE@ + rest));
    lemma_behind(before, TOOLS_OPEN@, region + TOOLS_CLOSE@ + rest);
    lemma_behind(region, TOOLS_CLOSE@, rest);
}

/// The calls of a tools section without its closer count only where the output has ended.
pub proof fn lemma_calls_of_open_section(before: Seq<char>, region: Seq<char>)
    requires
        is_unended(before + TOOLS_OPEN@ + region),
        comes_behind(before, TOOLS_OPEN@),
        !occurs(region, TOOLS_CLOSE@),
    ensures
        message_calls(before + TOOLS_OPEN@ + region, false) == Seq::<CallModel>::empty(),
        message_calls(before + TOOLS_OPEN@ + region, true) == calls_in(region, true),
{
    lemma_unended(before + TOOLS_OPEN@ + region);
    lemma_behind(before, TOOLS_OPEN@, region);
    lemma_absent(region, TOOLS_CLOSE@);
}

/// Without a tools section the calls that stand alone count.
pub proof fn lemma_calls_alone(message: Seq<char>, recover: bool)
    requires
        is_unended(message),
        !occurs(message, TOOLS_OPEN@),
    ensures
        message_calls(message, recover) == calls_in(message, recover),
{
    lemma_unended(message);
    lemma_absent(message, TOOLS_OPEN@);
}

/// What stands before a call opener is passed over.
pub proof fn lemma_calls_behind_text(text: Seq<char>, region: Seq<char>, recover: bool)
    requires
        forall|at: int|
            0 <= at < text.len() ==> !occurs_at(text + region, CALL_OPEN_PREFIX@, at),
    ensures
        calls_in(text + region, recover) == calls_in(region, recover),
{
    reveal_strlit("<|open|>call");
    let whole = text + region;
    let count = text.len() as int;
    lemma_found_in_rest(whole, count, CALL_OPEN_PREFIX@);
    assert(whole.skip(count) =~= region);
    if let Some(at) = first_index(region, CALL_OPEN_PREFIX@) {
        assert(whole.skip(count + at) =~= region.skip(at));
    }
}

/// A text without a call opener has no calls.
pub proof fn lemma_no_calls(text: Seq<char>, recover: bool)
    requires
        !occurs(text, CALL_OPEN_PREFIX@),
    ensures
        calls_in(text, recover) == Seq::<CallModel>::empty(),
{
    lemma_absent(text, CALL_OPEN_PREFIX@);
}

/// A call that cannot be read is passed over: reading goes on behind its opener.
pub proof fn lemma_unreadable_call_skipped(rest: Seq<char>, recover: bool)
    requires
        call_at(CALL_OPEN_PREFIX@ + rest, recover) is None,
    ensures
        calls_in(CALL_OPEN_PREFIX@ + rest, recover) == calls_in(rest, recover),
{
    reveal_strlit("<|open|>call");
    let whole = CALL_OPEN_PREFIX@ + rest;
    assert(whole.subrange(0, CALL_OPEN_PREFIX@.len() as int) =~= CALL_OPEN_PREFIX@);
    lemma_first_index_is(whole, CALL_OPEN_PREFIX@, 0);
    assert(whole.skip(0) =~= whole);
    assert(whole.skip(CALL_OPEN_PREFIX@.len() as int) =~= rest);
}

/// A call that can be read counts if it names a tool, and reading goes on behind it.
pub proof fn lemma_readable_call_counts(input: Seq<char>, recover: bool)
    requires
        call_at(input, recover) is Some,
    ensures
        ({
            let (call, used) = call_at(input, recover)->0;
            let later = calls_in(input.skip(used), recover);
            calls_in(input, recover) == (match call {
                Some(call) => seq![call] + later,
                None => later,
            })
        }),
{
    reveal(call_at);
    reveal_strlit("<|open|>call");
    assert(input.subrange(0, CALL_OPEN_PREFIX@.len() as int) =~= input.take(
        CALL_OPEN_PREFIX@.len() as int,
    ));
    lemma_first_index_is(input, CALL_OPEN_PREFIX@, 0);
    assert(input.skip(0) =~= input);
    lemma_call_at_bounds(input, recover);
}

/// `boundary` is the first boundary in `text + boundary + rest`, and stands behind `text`.
pub open spec fn is_next_boundary(text: Seq<char>, boundary: Seq<char>, rest: Seq<char>) -> bool {
    first_boundary(text + boundary + rest) == Some((text.len() as int, boundary))
}

/// A boundary within a message that is not seen to end is a span of its own, unless it opens
/// a tools section or a call: a tools section goes to its closer, and a call to its own.
pub proof fn lemma_span_of_boundary(text: Seq<char>, boundary: Seq<char>, rest: Seq<char>)
    requires
        is_next_boundary(text, boundary, rest),
        is_unended(boundary + rest),
    ensures
        boundary != TOOLS_OPEN@ && boundary != CALL_OPEN_PREFIX@ ==> span_end(
            text + boundary + rest,
        ) == Some((text + boundary).len() as int),
        boundary == TOOLS_OPEN@ || boundary == CALL_OPEN_PREFIX@ ==> {
            let closer = if boundary == TOOLS_OPEN@ {
                "<|close|>tools<|sep|>"@
            } else {
                "<|close|>call<|sep|>"@
            };
            match first_index(boundary + rest, closer) {
                Some(at) => span_end(text + boundary + rest) == Some(
                    text.len() + at + closer.len(),
                ),
                None => span_end(text + boundary + rest) is None,
            }
        },
{
    let whole = text + boundary + rest;
    assert(whole.skip(text.len() as int) =~= boundary + rest);
    lemma_absent(boundary + rest, MESSAGE_CLOSE@);
    lemma_absent(boundary + rest, END_OF_MSG@);
    assert(TOOLS_CLOSE@ == "<|close|>tools<|sep|>"@);
    assert(CALL_CLOSE@ == "<|close|>call<|sep|>"@);
}

/// A message that is seen to end is one span from its first boundary on: up to the last
/// marker of its end, where that has arrived.
pub proof fn lemma_span_of_message(text: Seq<char>, boundary: Seq<char>, rest: Seq<char>)
    requires
        is_next_boundary(text, boundary, rest),
    ensures
        first_index(boundary + rest, "<|end_of_msg|>"@) matches Some(at) ==> span_end(
            text + boundary + rest,
        ) == Some(text.len() + at + "<|end_of_msg|>"@.len()),
        first_index(boundary + rest, "<|end_of_msg|>"@) is None ==> (first_index(
            boundary + rest,
            "<|close|>message<|sep|>"@,
        ) matches Some(at) ==> span_end(text + boundary + rest) == Some(
            text.len() + at + "<|close|>message<|sep|>"@.len(),
        )),
{
    let whole = text + boundary + rest;
    assert(whole.skip(text.len() as int) =~= boundary + rest);
}

/// A text without a boundary has no span.
pub proof fn lemma_no_span(text: Seq<char>)
    requires
        first_boundary(text) is None,
    ensures
        span_end(text) is None,
{
}

/// The first boundary is the leftmost of the nine markers, and where two stand at one place
/// it is one of them.
pub proof fn lemma_first_boundary(text: Seq<char>)
    ensures
        match first_boundary(text) {
            Some((at, marker)) => {
                &&& boundary_texts().contains(marker)
                &&& occurs_at(text, marker, at)
                &&& forall|other: Seq<char>, place: int|
                    boundary_texts().contains(other) && 0 <= place < at ==> !(#[trigger] occurs_at(
                        text,
                        other,
                        place,
                    ))
            },
            None => forall|other: Seq<char>|
                boundary_texts().contains(other) ==> !(#[trigger] occurs(text, other)),
        },
{
    let all = boundary_texts();
    lemma_earliest(text, all);
    match earliest(text, all) {
        Some((at, which)) => {
            lemma_first_index(text, all[which]);
            assert(all.contains(all[which]));
            assert forall|other: Seq<char>, place: int|
                all.contains(other) && 0 <= place < at implies !(#[trigger] occurs_at(
                text,
                other,
                place,
            )) by {
                let k = choose|k: int| 0 <= k < all.len() && all[k] == other;
                lemma_first_index(text, all[k]);
                assert(first_index(text, all[k]) matches Some(first) ==> at <= first);
            }
        },
        None => {
            assert forall|other: Seq<char>| all.contains(other) implies !(#[trigger] occurs(
                text,
                other,
            )) by {
                let k = choose|k: int| 0 <= k < all.len() && all[k] == other;
                lemma_first_index(text, all[k]);
                assert(first_index(text, all[k]) is None);
            }
        },
    }
}

/// The boundaries are the markers around a response, a tools section and its calls, and
/// those that end an argument or a message.
pub proof fn lemma_boundaries(text: Seq<char>)
    ensures
        boundary_texts().contains(text) <==> (text == "<|open|>response<|sep|>"@ || text
            == "<|close|>response<|sep|>"@ || text == "<|open|>tools<|sep|>"@ || text
            == "<|close|>tools<|sep|>"@ || text == "<|open|>call"@ || text
            == "<|close|>call<|sep|>"@ || text == "<|close|>argument<|sep|>"@ || text
            == "<|close|>message<|sep|>"@ || text == "<|end_of_msg|>"@),
{
    let all = boundary_texts();
    assert(all[0] == "<|open|>response<|sep|>"@ && all[1] == "<|close|>response<|sep|>"@ && all[2]
        == "<|open|>tools<|sep|>"@ && all[3] == "<|open|>call"@ && all[4]
        == "<|close|>argument<|sep|>"@ && all[5] == "<|close|>tools<|sep|>"@ && all[6]
        == "<|close|>call<|sep|>"@ && all[7] == "<|close|>message<|sep|>"@ && all[8]
        == "<|end_of_msg|>"@);
    if all.contains(text) {
        let k = choose|k: int| 0 <= k < all.len() && all[k] == text;
        assert(0 <= k < 9);
    }
}

} // verus!
