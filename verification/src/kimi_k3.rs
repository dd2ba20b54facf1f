//! The channel grammar of Kimi K3.
//!
//! ```text
//! <|open|>response<|sep|>answer<|close|>response<|sep|>
//! <|open|>tools<|sep|>
//!   <|open|>call tool="get_weather" index="1"<|sep|>
//!     <|open|>argument key="city" type="string"<|sep|>Paris<|close|>argument<|sep|>
//!   <|close|>call<|sep|>
//! <|close|>tools<|sep|>
//! <|close|>message<|sep|><|end_of_msg|>
//! ```
use crate::attributes::{attr_of, attr_value, attrs_of, attrs_view, parse_attrs};
use crate::compact::{compact_json_lexically, compacted};
use crate::decimal::{i64_value, numeral, numeral_of, parse_i64};
use crate::error::ToolCallError;
use crate::json::{
    braced, braced_text, json_parsed, member_string, member_text, parse_json, quote, quoted,
};
use crate::response::{calls_view, CallModel, CalledFunction, ToolCallResponse, ToolCallType};
use crate::text::{
    append_chars, begins_with, begins_with_str, chars_of, contains_str, earliest, ends_with,
    ends_with_chars, find_earliest, find_str, first_index, first_of, leading_space_len,
    lemma_earliest_bounds, lemma_first_index_bounds, lemma_leading_space_bound,
    lemma_trailing_space_bound, occurs, rest_of, same_text, slice_texts, string_of, string_texts,
    trim, trim_end, trim_start, trimmed, trimmed_end, utf8_prefix_len,
};
use crate::tools::ToolDefinition;
use vstd::prelude::*;
use vstd::utf8::encode_utf8;

verus! {

broadcast use {
    lemma_first_index_bounds,
    lemma_earliest_bounds,
    lemma_leading_space_bound,
    lemma_trailing_space_bound,
};

pub const SEP: &'static str = "<|sep|>";

pub const RESPONSE_OPEN: &'static str = "<|open|>response<|sep|>";

pub const RESPONSE_CLOSE: &'static str = "<|close|>response<|sep|>";

pub const TOOLS_OPEN: &'static str = "<|open|>tools<|sep|>";

pub const TOOLS_CLOSE: &'static str = "<|close|>tools<|sep|>";

pub const CALL_OPEN_PREFIX: &'static str = "<|open|>call";

pub const CALL_CLOSE: &'static str = "<|close|>call<|sep|>";

pub const ARGUMENT_OPEN_PREFIX: &'static str = "<|open|>argument";

pub const ARGUMENT_CLOSE: &'static str = "<|close|>argument<|sep|>";

pub const JSON_OPEN_PREFIX: &'static str = "<|open|>json";

pub const JSON_CLOSE: &'static str = "<|close|>json<|sep|>";

pub const MESSAGE_OPEN_PREFIX: &'static str = "<|open|>message";

pub const MESSAGE_CLOSE: &'static str = "<|close|>message<|sep|>";

pub const END_OF_MSG: &'static str = "<|end_of_msg|>";

/// The boundaries at which streamed text is held until it can be parsed.
pub open spec fn boundary_texts() -> Seq<Seq<char>> {
    seq![
        RESPONSE_OPEN@,
        RESPONSE_CLOSE@,
        TOOLS_OPEN@,
        CALL_OPEN_PREFIX@,
        ARGUMENT_CLOSE@,
        TOOLS_CLOSE@,
        CALL_CLOSE@,
        MESSAGE_CLOSE@,
        END_OF_MSG@,
    ]
}

/// The boundaries at which streamed text is held until it can be parsed.
pub fn jail_boundaries() -> (markers: [&'static str; 9])
    ensures
        slice_texts(markers@) == boundary_texts(),
{
    let markers = [
        RESPONSE_OPEN,
        RESPONSE_CLOSE,
        TOOLS_OPEN,
        CALL_OPEN_PREFIX,
        ARGUMENT_CLOSE,
        TOOLS_CLOSE,
        CALL_CLOSE,
        MESSAGE_CLOSE,
        END_OF_MSG,
    ];
    assert(slice_texts(markers@) =~= boundary_texts());
    markers
}

/// How the output of Kimi K3 is parsed.
#[derive(Debug, Clone, Copy, PartialEq, Eq)]
pub struct KimiK3ParserConfig {
    /// The output has ended: a call whose last argument is complete counts although
    /// its closers are missing.
    pub allow_eof_recovery: bool,
}

impl Default for KimiK3ParserConfig {
    fn default() -> (config: KimiK3ParserConfig)
        ensures
            !config.allow_eof_recovery,
    {
        KimiK3ParserConfig { allow_eof_recovery: false }
    }
}

impl KimiK3ParserConfig {
    /// The markers at which text is held back.
    pub fn start_tokens(&self) -> (markers: [&'static str; 9])
        ensures
            slice_texts(markers@) == boundary_texts(),
    {
        jail_boundaries()
    }
}

/// `text` up to the first of `markers`; all of it where none stands in it.
pub open spec fn before_any(text: Seq<char>, markers: Seq<Seq<char>>) -> Seq<char> {
    match earliest(text, markers) {
        Some((at, _)) => text.take(at),
        None => text,
    }
}

/// `text` up to the first of `markers`.
fn take_before<'a>(text: &'a [char], markers: &[&str]) -> (start: &'a [char])
    ensures
        start@ == before_any(text@, slice_texts(markers@)),
{
    match find_earliest(text, markers) {
        Some((at, _)) => first_of(text, at),
        None => text,
    }
}

/// A marker stands in `chunk`, or `chunk` ends in the middle of one.
pub open spec fn holds_marker(chunk: Seq<char>, marker: Seq<char>) -> bool {
    ||| occurs(chunk, marker)
    ||| exists|count: int|
        0 < count < marker.len() && ends_with(chunk, #[trigger] marker.take(count))
}

/// Whether a boundary stands in `chunk`, or `chunk` ends in the middle of one.
pub fn detect_tool_call_start_kimi_k3(chunk: &str, config: &KimiK3ParserConfig) -> (found: bool)
    ensures
        found == exists|k: int|
            0 <= k < boundary_texts().len() && holds_marker(chunk@, #[trigger] boundary_texts()[k]),
{
    let text = chars_of(chunk);
    let markers = config.start_tokens();
    let mut at: usize = 0;
    while at < 9
        invariant
            at <= 9,
            text@ == chunk@,
            slice_texts(markers@) == boundary_texts(),
            forall|k: int|
                0 <= k < at ==> !holds_marker(chunk@, #[trigger] boundary_texts()[k]),
        decreases 9 - at,
    {
        assert(boundary_texts()[at as int] == markers@[at as int]@);
        if contains_str(text.as_slice(), markers[at]) {
            return true;
        }
        let marker = chars_of(markers[at]);
        let mut count: usize = 1;
        while count < marker.len()
            invariant
                at < 9,
                1 <= count,
                text@ == chunk@,
                marker@ == boundary_texts()[at as int],
                forall|n: int|
                    0 < n < count && n < marker@.len() ==> !ends_with(
                        chunk@,
                        #[trigger] marker@.take(n),
                    ),
            decreases marker.len() - count,
        {
            if ends_with_chars(text.as_slice(), first_of(marker.as_slice(), count)) {
                assert(holds_marker(chunk@, boundary_texts()[at as int]));
                return true;
            }
            count += 1;
        }
        assert(!holds_marker(chunk@, boundary_texts()[at as int]));
        at += 1;
    }
    false
}

/// The position behind the first `marker` in `text`.
pub open spec fn position_behind(text: Seq<char>, marker: Seq<char>) -> Option<int> {
    match first_index(text, marker) {
        Some(at) => Some(at + marker.len()),
        None => None,
    }
}

/// The first boundary in `chunk`: where it stands, and which one it is.
pub open spec fn first_boundary(chunk: Seq<char>) -> Option<(int, Seq<char>)> {
    match earliest(chunk, boundary_texts()) {
        Some((at, which)) => Some((at, boundary_texts()[which])),
        None => None,
    }
}

/// The length of the span that begins with `marker`. A message that is seen to end
/// is one span; a tools section goes to its closer, a call to its own, and any
/// other boundary is a span of its own.
pub open spec fn span_len(span: Seq<char>, marker: Seq<char>) -> Option<int> {
    match (position_behind(span, END_OF_MSG@), position_behind(span, MESSAGE_CLOSE@)) {
        (Some(end), _) => Some(end),
        (None, Some(end)) => Some(end),
        (None, None) => if marker == TOOLS_OPEN@ {
            position_behind(span, TOOLS_CLOSE@)
        } else if marker == CALL_OPEN_PREFIX@ {
            position_behind(span, CALL_CLOSE@)
        } else {
            Some(marker.len() as int)
        },
    }
}

/// The position in `chunk` behind the first complete span.
pub open spec fn span_end(chunk: Seq<char>) -> Option<int> {
    match first_boundary(chunk) {
        Some((start, marker)) => match span_len(chunk.skip(start), marker) {
            Some(length) => Some(start + length),
            None => None,
        },
        None => None,
    }
}

/// A position that ends a span lies within the text.
pub broadcast proof fn lemma_span_end_bounds(chunk: Seq<char>)
    ensures
        (#[trigger] span_end(chunk)) matches Some(end) ==> 0 <= end <= chunk.len(),
{
}

/// The position behind the first `marker` in `text`.
fn find_behind(text: &[char], marker: &str) -> (found: Option<usize>)
    ensures
        match (found, position_behind(text@, marker@)) {
            (Some(at), Some(position)) => at == position && at <= text@.len(),
            (None, None) => true,
            _ => false,
        },
{
    match find_str(text, marker) {
        None => None,
        Some(at) => {
            let length: usize = chars_of(marker).len();
            let ghost total = text.len();
            assert(at + length <= total);
            Some(at + length)
        },
    }
}

/// The first boundary in `chunk`: where it stands, and which one it is.
fn first_marker(chunk: &[char]) -> (found: Option<(usize, &'static str)>)
    ensures
        match (found, first_boundary(chunk@)) {
            (Some((at, marker)), Some((start, text))) => at == start && marker@ == text && at
                + marker@.len() <= chunk@.len(),
            (None, None) => true,
            _ => false,
        },
{
    let markers = jail_boundaries();
    match find_earliest(chunk, &markers) {
        Some((at, which)) => {
            assert(slice_texts(markers@)[which as int] == markers@[which as int]@);
            Some((at, markers[which]))
        },
        None => None,
    }
}

/// The end of the first complete span in `chunk`, in bytes. The markers around a
/// response are spans of their own, so that the text between them can be streamed;
/// a tools section is held until its closer, and a call outside of one until its
/// own.
pub fn find_tool_call_end_position_kimi_k3(
    chunk: &str,
    _config: &KimiK3ParserConfig,
) -> (position: Option<usize>)
    ensures
        match (position, span_end(chunk@)) {
            (Some(bytes), Some(end)) => bytes == encode_utf8(chunk@.take(end)).len(),
            (None, None) => true,
            _ => false,
        },
{
    let text = chars_of(chunk);
    let (start, marker) = match first_marker(text.as_slice()) {
        Some((start, marker)) => (start, marker),
        None => {
            return None;
        },
    };
    let after_start = rest_of(text.as_slice(), start);
    let relative_end = if let Some(position) = find_behind(after_start, END_OF_MSG) {
        position
    } else if let Some(position) = find_behind(after_start, MESSAGE_CLOSE) {
        position
    } else if same_text(marker, TOOLS_OPEN) {
        match find_behind(after_start, TOOLS_CLOSE) {
            Some(position) => position,
            None => {
                return None;
            },
        }
    } else if same_text(marker, CALL_OPEN_PREFIX) {
        match find_behind(after_start, CALL_CLOSE) {
            Some(position) => position,
            None => {
                return None;
            },
        }
    } else {
        chars_of(marker).len()
    };
    let ghost total = text.len();
    assert(start + relative_end <= total);
    Some(utf8_prefix_len(chunk, text.as_slice(), start + relative_end))
}

/// The markers that end a message.
pub open spec fn message_ends() -> Seq<Seq<char>> {
    seq![MESSAGE_CLOSE@, END_OF_MSG@]
}

/// The message without what stands behind its end.
pub open spec fn logical_message(message: Seq<char>) -> Seq<char> {
    before_any(message, message_ends())
}

fn take_logical<'a>(message: &'a [char]) -> (logical: &'a [char])
    ensures
        logical@ == logical_message(message@),
{
    let ends = [MESSAGE_CLOSE, END_OF_MSG];
    assert(slice_texts(ends@) =~= message_ends());
    take_before(message, &ends)
}

/// `text` without the message opener that it begins with.
pub open spec fn without_message_open(text: Seq<char>) -> Seq<char> {
    if begins_with(text, MESSAGE_OPEN_PREFIX@) {
        let rest = text.skip(MESSAGE_OPEN_PREFIX@.len() as int);
        match position_behind(rest, SEP@) {
            Some(end) => rest.skip(end),
            None => text,
        }
    } else {
        text
    }
}

fn strip_leading_message_open<'a>(text: &'a [char]) -> (stripped: &'a [char])
    ensures
        stripped@ == without_message_open(text@),
{
    if !begins_with_str(text, MESSAGE_OPEN_PREFIX) {
        return text;
    }
    let rest = rest_of(text, chars_of(MESSAGE_OPEN_PREFIX).len());
    match find_behind(rest, SEP) {
        Some(end) => rest_of(rest, end),
        None => text,
    }
}

/// What the reader sees of a message: its response channel, or the text before any
/// markup. Behind the response only markup follows.
pub open spec fn response_text(message: Seq<char>) -> Seq<char> {
    let logical = logical_message(message);
    match (
        position_behind(logical, RESPONSE_OPEN@),
        first_index(logical, RESPONSE_CLOSE@),
        earliest(logical, seq![TOOLS_OPEN@, CALL_OPEN_PREFIX@]),
    ) {
        (Some(body), _, _) => before_any(
            logical.skip(body),
            seq![RESPONSE_CLOSE@, TOOLS_OPEN@],
        ),
        (None, Some(close), _) => without_message_open(logical.take(close)),
        (None, None, Some((tools, _))) => without_message_open(logical.take(tools)),
        (None, None, None) => if first_boundary(logical) is Some {
            Seq::empty()
        } else {
            without_message_open(logical)
        },
    }
}

fn extract_response_text(message: &[char]) -> (text: String)
    ensures
        text@ == response_text(message@),
{
    let logical = take_logical(message);
    if let Some(body) = find_behind(logical, RESPONSE_OPEN) {
        let ends = [RESPONSE_CLOSE, TOOLS_OPEN];
        assert(slice_texts(ends@) =~= seq![RESPONSE_CLOSE@, TOOLS_OPEN@]);
        return string_of(take_before(rest_of(logical, body), &ends));
    }
    if let Some(close) = find_str(logical, RESPONSE_CLOSE) {
        return string_of(strip_leading_message_open(first_of(logical, close)));
    }
    let openers = [TOOLS_OPEN, CALL_OPEN_PREFIX];
    assert(slice_texts(openers@) =~= seq![TOOLS_OPEN@, CALL_OPEN_PREFIX@]);
    if let Some((tools, _)) = find_earliest(logical, &openers) {
        return string_of(strip_leading_message_open(first_of(logical, tools)));
    }
    if first_marker(logical).is_some() {
        return String::new();
    }
    string_of(strip_leading_message_open(logical))
}

/// The value of an argument as JSON text: a string as it is; any other JSON in
/// compact form; what is no JSON as a string.
pub open spec fn argument_json(arg_type: Seq<char>, raw: Seq<char>) -> Seq<char> {
    if arg_type != "string"@ && json_parsed(raw) is Some {
        compacted(raw)
    } else {
        quoted(raw)
    }
}

/// The value of an argument as JSON text, where the parse of the raw value came to
/// `is_json`.
pub fn encode_parsed_value(arg_type: &str, raw: &[char], is_json: bool) -> (text: String)
    ensures
        text@ == (if arg_type@ != "string"@ && is_json {
            compacted(raw@)
        } else {
            quoted(raw@)
        }),
{
    if !same_text(arg_type, "string") && is_json {
        string_of(compact_json_lexically(raw).as_slice())
    } else {
        quote(string_of(raw).as_str())
    }
}

/// The value of an argument as JSON text.
fn encode_argument_value(arg_type: &str, raw: &[char]) -> (text: String)
    ensures
        text@ == argument_json(arg_type@, raw@),
{
    let is_json = parse_json(string_of(raw).as_str()).is_some();
    encode_parsed_value(arg_type, raw, is_json)
}

/// One argument of a call, and how many characters it takes. A missing key is
/// empty; a missing type is `string`.
pub open spec fn first_argument(text: Seq<char>) -> Option<((Seq<char>, Seq<char>), int)> {
    let after_open = text.skip(ARGUMENT_OPEN_PREFIX@.len() as int);
    if !begins_with(text, ARGUMENT_OPEN_PREFIX@) {
        None
    } else {
        match first_index(after_open, SEP@) {
            None => None,
            Some(tag_end) => {
                let value = after_open.skip(tag_end + SEP@.len());
                match (attrs_of(after_open.take(tag_end)), first_index(value, ARGUMENT_CLOSE@)) {
                    (Some(attrs), Some(close)) => Some(
                        (
                            (
                                attr_or(attrs, "key"@, Seq::empty()),
                                argument_json(
                                    attr_or(attrs, "type"@, "string"@),
                                    value.take(close),
                                ),
                            ),
                            ARGUMENT_OPEN_PREFIX@.len() + tag_end + SEP@.len() + close
                                + ARGUMENT_CLOSE@.len(),
                        ),
                    ),
                    _ => None,
                }
            },
        }
    }
}

/// The value of an attribute, or `missing` where there is none with that name.
pub open spec fn attr_or(
    attrs: Seq<(Seq<char>, Seq<char>)>,
    name: Seq<char>,
    missing: Seq<char>,
) -> Seq<char> {
    match attr_of(attrs, name) {
        Some(value) => value,
        None => missing,
    }
}

/// The arguments in a row, with white space around them and nothing else: keys and
/// values as JSON text.
pub open spec fn arguments_of(text: Seq<char>) -> Option<Seq<(Seq<char>, Seq<char>)>>
    decreases text.len(),
{
    let rest = trim_start(text);
    if rest.len() == 0 {
        Some(Seq::empty())
    } else {
        match first_argument(rest) {
            Some((argument, used)) if 0 < used <= rest.len() => match arguments_of(
                rest.skip(used),
            ) {
                Some(later) => Some(seq![argument] + later),
                None => None,
            },
            _ => None,
        }
    }
}

/// The position of the first argument with the given key.
pub open spec fn argument_place(members: Seq<(Seq<char>, Seq<char>)>, key: Seq<char>) -> nat
    decreases members.len(),
{
    if members.len() > 0 && members[0].0 != key {
        1 + argument_place(members.drop_first(), key)
    } else {
        0
    }
}

/// `members` with one more: it takes the place of the one with its key, or comes
/// last.
pub open spec fn placed(
    members: Seq<(Seq<char>, Seq<char>)>,
    one: (Seq<char>, Seq<char>),
) -> Seq<(Seq<char>, Seq<char>)> {
    let place = argument_place(members, one.0) as int;
    if place < members.len() {
        members.update(place, one)
    } else {
        members.push(one)
    }
}

/// Each key once: where it came first, with the value that came last.
pub open spec fn settled(members: Seq<(Seq<char>, Seq<char>)>) -> Seq<(Seq<char>, Seq<char>)>
    decreases members.len(),
{
    if members.len() == 0 {
        Seq::empty()
    } else {
        placed(settled(members.drop_last()), members.last())
    }
}

/// The members of an object, written out.
pub open spec fn written_members(members: Seq<(Seq<char>, Seq<char>)>) -> Seq<Seq<char>> {
    members.map_values(|one: (Seq<char>, Seq<char>)| member_text(one.0, one.1))
}

/// The arguments of a call as JSON text, where its body can be read. A body that
/// is one raw JSON element stands for its text, byte by byte and unchecked.
pub open spec fn body_arguments(body: Seq<char>) -> Option<Seq<char>> {
    let text = trim(body);
    if text.len() == 0 {
        Some("{}"@)
    } else if begins_with(text, JSON_OPEN_PREFIX@) {
        match position_behind(text.skip(JSON_OPEN_PREFIX@.len() as int), SEP@) {
            None => None,
            Some(tag) => {
                let value = text.skip(JSON_OPEN_PREFIX@.len() + tag);
                match first_index(value, JSON_CLOSE@) {
                    Some(close) if trim(value.skip(close + JSON_CLOSE@.len())).len() == 0 => Some(
                        value.take(close),
                    ),
                    _ => None,
                }
            },
        }
    } else {
        match arguments_of(text) {
            Some(members) => Some(braced(written_members(settled(members)))),
            None => None,
        }
    }
}

/// One argument of a call, and how many characters it takes.
fn parse_argument(text: &[char]) -> (found: Option<((String, String), usize)>)
    ensures
        match (found, first_argument(text@)) {
            (Some((argument, used)), Some((model, count))) => (argument.0@, argument.1@) == model
                && used == count && 0 < used <= text@.len(),
            (None, None) => true,
            _ => false,
        },
{
    if !begins_with_str(text, ARGUMENT_OPEN_PREFIX) {
        return None;
    }
    let open: usize = chars_of(ARGUMENT_OPEN_PREFIX).len();
    let after_open = rest_of(text, open);
    let tag_end = match find_str(after_open, SEP) {
        Some(tag_end) => tag_end,
        None => {
            return None;
        },
    };
    let sep: usize = chars_of(SEP).len();
    assert(tag_end + sep <= after_open.len());
    let tag: usize = tag_end + sep;
    let value = rest_of(after_open, tag);
    let attrs = match parse_attrs(first_of(after_open, tag_end)) {
        Some(attrs) => attrs,
        None => {
            return None;
        },
    };
    let close = match find_str(value, ARGUMENT_CLOSE) {
        Some(close) => close,
        None => {
            return None;
        },
    };
    let length: usize = chars_of(ARGUMENT_CLOSE).len();
    let ghost total = text.len();
    assert(open + tag + close + length <= total);
    proof {
        reveal_strlit("<|open|>argument");
        reveal_strlit("");
    }
    let key = match attr_value(&attrs, "key") {
        Some(key) => key,
        None => "",
    };
    let arg_type = match attr_value(&attrs, "type") {
        Some(arg_type) => arg_type,
        None => "string",
    };
    let encoded = encode_argument_value(arg_type, first_of(value, close));
    Some(((key.to_owned(), encoded), open + tag + close + length))
}

/// What a run of members holds.
pub open spec fn members_view(members: Seq<(String, String)>) -> Seq<(Seq<char>, Seq<char>)> {
    members.map_values(|one: (String, String)| (one.0@, one.1@))
}

/// Gives a member its place.
fn place(members: &mut Vec<(String, String)>, one: (String, String))
    ensures
        members_view(final(members)@) == placed(members_view(old(members)@), (one.0@, one.1@)),
{
    let ghost before = members_view(members@);
    let mut at: usize = 0;
    assert(before.skip(0) =~= before);
    while at < members.len() && !same_text(members[at].0.as_str(), one.0.as_str())
        invariant
            at <= members@.len(),
            members@ == old(members)@,
            before == members_view(members@),
            argument_place(before, one.0@) == at + argument_place(before.skip(at as int), one.0@),
        decreases members.len() - at,
    {
        assert(before.skip(at as int)[0] == before[at as int]);
        assert(before.skip(at as int).drop_first() =~= before.skip(at + 1));
        at += 1;
    }
    assert(at < members@.len() ==> before.skip(at as int)[0] == before[at as int]);
    if at < members.len() {
        members.set(at, one);
    } else {
        members.push(one);
    }
    assert(members_view(members@) =~= placed(before, (one.0@, one.1@)));
}

/// The arguments in a row: each key once, where it came first, with the value that
/// came last.
fn parse_arguments(text: &[char]) -> (found: Option<Vec<(String, String)>>)
    ensures
        match (found, arguments_of(text@)) {
            (Some(members), Some(model)) => members_view(members@) == settled(model),
            (None, None) => true,
            _ => false,
        },
{
    let ghost mut seen: Seq<(Seq<char>, Seq<char>)> = Seq::empty();
    let mut members: Vec<(String, String)> = Vec::new();
    let mut cursor: usize = 0;
    assert(text@.skip(0) =~= text@);
    assert(members_view(members@) =~= Seq::empty());
    proof {
        if let Some(all) = arguments_of(text@) {
            assert(seen + all =~= all);
        }
    }
    loop
        invariant
            cursor <= text@.len() == text.len(),
            members_view(members@) == settled(seen),
            arguments_of(text@) == (match arguments_of(text@.skip(cursor as int)) {
                Some(later) => Some(seen + later),
                None => None,
            }),
        decreases text@.len() - cursor,
    {
        let spaced = rest_of(text, cursor);
        let space = leading_space_len(spaced);
        let rest = rest_of(spaced, space);
        if rest.len() == 0 {
            assert(seen + Seq::empty() =~= seen);
            return Some(members);
        }
        match parse_argument(rest) {
            None => {
                return None;
            },
            Some((argument, used)) => {
                let ghost one = (argument.0@, argument.1@);
                let ghost before = seen;
                assert(rest@.skip(used as int) =~= text@.skip(cursor + space + used));
                place(&mut members, argument);
                proof {
                    seen = before.push(one);
                    assert(seen.drop_last() =~= before);
                    if let Some(later) = arguments_of(rest@.skip(used as int)) {
                        assert(before + (seq![one] + later) =~= seen + later);
                    }
                }
                cursor = cursor + space + used;
            },
        }
    }
}

/// The members as an object.
fn write_members(members: &Vec<(String, String)>) -> (text: String)
    ensures
        text@ == braced(written_members(members_view(members@))),
{
    let ghost all = members_view(members@);
    let mut parts: Vec<String> = Vec::new();
    let mut at: usize = 0;
    while at < members.len()
        invariant
            at <= members@.len(),
            all == members_view(members@),
            string_texts(parts@) == written_members(all.take(at as int)),
        decreases members.len() - at,
    {
        let ghost before = parts@;
        parts.push(member_string(members[at].0.as_str(), members[at].1.as_str()));
        assert(string_texts(parts@) =~= string_texts(before).push(parts@.last()@));
        assert(written_members(all.take(at + 1)) =~= written_members(all.take(at as int)).push(
            member_text(all[at as int].0, all[at as int].1),
        ));
        at += 1;
    }
    assert(all.take(at as int) =~= all);
    braced_text(&parts)
}

/// The arguments of a call as JSON text, where its body can be read.
fn parse_call_body(body: &[char]) -> (arguments: Option<String>)
    ensures
        match (arguments, body_arguments(body@)) {
            (Some(text), Some(model)) => text@ == model,
            (None, None) => true,
            _ => false,
        },
{
    let text = trimmed(body);
    if text.len() == 0 {
        return Some("{}".to_owned());
    }
    if begins_with_str(text, JSON_OPEN_PREFIX) {
        let open: usize = chars_of(JSON_OPEN_PREFIX).len();
        let after_open = rest_of(text, open);
        let tag = match find_behind(after_open, SEP) {
            Some(tag) => tag,
            None => {
                return None;
            },
        };
        let value = rest_of(after_open, tag);
        assert(value@ =~= text@.skip(JSON_OPEN_PREFIX@.len() + tag));
        let close = match find_str(value, JSON_CLOSE) {
            Some(close) => close,
            None => {
                return None;
            },
        };
        let behind: usize = close + chars_of(JSON_CLOSE).len();
        if trimmed(rest_of(value, behind)).len() > 0 {
            return None;
        }
        return Some(string_of(first_of(value, close)));
    }
    match parse_arguments(text) {
        Some(members) => Some(write_members(&members)),
        None => None,
    }
}

/// The identifier of a call: its name and its index, counted from zero. An index
/// that is no number stands as it is. The least number is followed downwards by
/// the greatest.
pub open spec fn call_id(name: Seq<char>, index: Option<Seq<char>>) -> Seq<char> {
    match index {
        Some(raw) if raw.len() > 0 => name + seq![':'] + (match i64_value(raw) {
            Some(one_based) => numeral(
                if one_based == i64::MIN {
                    i64::MAX as int
                } else {
                    one_based - 1
                },
            ),
            None => raw,
        }),
        _ => name,
    }
}

fn tool_call_id(name: &str, index: Option<&str>) -> (id: String)
    ensures
        id@ == call_id(
            name@,
            match index {
                Some(raw) => Some(raw@),
                None => None,
            },
        ),
{
    let mut id = chars_of(name);
    if let Some(raw) = index {
        let text = chars_of(raw);
        if text.len() > 0 {
            id.push(':');
            match parse_i64(text.as_slice()) {
                Some(one_based) => {
                    let zero_based: i64 = if one_based == i64::MIN {
                        i64::MAX
                    } else {
                        one_based - 1
                    };
                    append_chars(&mut id, numeral_of(zero_based).as_slice());
                },
                None => {
                    append_chars(&mut id, text.as_slice());
                },
            }
        }
    }
    string_of(id.as_slice())
}

/// The body of the call whose tag ends where `rest` begins, and how many characters
/// it takes with its closer. Without a closer it goes to the end of what is around
/// it, where that may be recovered and the body ends with a complete element.
pub open spec fn call_body(rest: Seq<char>, recover: bool) -> Option<(Seq<char>, int)> {
    match first_index(rest, CALL_CLOSE@) {
        Some(close) => Some((rest.take(close), close + CALL_CLOSE@.len())),
        None => {
            let body = before_any(rest, seq![TOOLS_CLOSE@, MESSAGE_CLOSE@, END_OF_MSG@]);
            if recover && (ends_with(trim_end(body), ARGUMENT_CLOSE@) || ends_with(
                trim_end(body),
                JSON_CLOSE@,
            )) {
                Some((body, body.len() as int))
            } else {
                None
            }
        },
    }
}

/// The call that `input` begins with, and how many characters it takes. A call
/// without a tool name is used up and gives nothing.
#[verifier::opaque]
pub open spec fn call_at(input: Seq<char>, recover: bool) -> Option<(Option<CallModel>, int)> {
    let after_open = input.skip(CALL_OPEN_PREFIX@.len() as int);
    if !begins_with(input, CALL_OPEN_PREFIX@) {
        None
    } else {
        match first_index(after_open, SEP@) {
            None => None,
            Some(tag_end) => {
                let start = CALL_OPEN_PREFIX@.len() + tag_end + SEP@.len();
                match (attrs_of(after_open.take(tag_end)), call_body(input.skip(start), recover)) {
                    (Some(attrs), Some((body, used))) => match body_arguments(body) {
                        Some(arguments) => Some(
                            (named_call(attrs, arguments), start + used),
                        ),
                        None => None,
                    },
                    _ => None,
                }
            },
        }
    }
}

/// The call with the given attributes, where they name a tool.
pub open spec fn named_call(
    attrs: Seq<(Seq<char>, Seq<char>)>,
    arguments: Seq<char>,
) -> Option<CallModel> {
    match attr_of(attrs, "tool"@) {
        Some(name) if name.len() > 0 => Some(
            CallModel { id: call_id(name, attr_of(attrs, "index"@)), name, arguments },
        ),
        _ => None,
    }
}

/// A call takes at least its opener, and no more than there is.
pub broadcast proof fn lemma_call_at_bounds(input: Seq<char>, recover: bool)
    ensures
        (#[trigger] call_at(input, recover)) matches Some((_, used)) ==> CALL_OPEN_PREFIX@.len()
            <= used <= input.len(),
{
    reveal(call_at);
}

/// The calls in a region of text, in order. What cannot be read is passed over.
pub open spec fn calls_in(region: Seq<char>, recover: bool) -> Seq<CallModel>
    decreases region.len(),
{
    match first_index(region, CALL_OPEN_PREFIX@) {
        Some(start) => {
            let input = region.skip(start);
            let (call, used) = match call_at(input, recover) {
                Some((call, used)) => (call, used),
                None => (None, CALL_OPEN_PREFIX@.len() as int),
            };
            let later = if 0 < used <= input.len() {
                calls_in(input.skip(used), recover)
            } else {
                Seq::empty()
            };
            match call {
                Some(call) => seq![call] + later,
                None => later,
            }
        },
        None => Seq::empty(),
    }
}

/// The calls of a message: those of its tools section, or where it has none those
/// that stand alone. A tools section without its closer counts only where it may
/// be recovered.
pub open spec fn message_calls(message: Seq<char>, recover: bool) -> Seq<CallModel> {
    let logical = logical_message(message);
    match position_behind(logical, TOOLS_OPEN@) {
        Some(start) => {
            let body = logical.skip(start);
            match first_index(body, TOOLS_CLOSE@) {
                Some(close) => calls_in(body.take(close), false),
                None => if recover {
                    calls_in(body, true)
                } else {
                    Seq::empty()
                },
            }
        },
        None => calls_in(logical, recover),
    }
}

fn parse_body_at(rest: &[char], recover: bool) -> (found: Option<(&[char], usize)>)
    ensures
        match (found, call_body(rest@, recover)) {
            (Some((body, used)), Some((model, count))) => body@ == model && used == count,
            (None, None) => true,
            _ => false,
        },
{
    match find_str(rest, CALL_CLOSE) {
        Some(close) => {
            let length: usize = chars_of(CALL_CLOSE).len();
            let ghost total = rest.len();
            assert(close + length <= total);
            Some((first_of(rest, close), close + length))
        },
        None => {
            if !recover {
                return None;
            }
            let ends = [TOOLS_CLOSE, MESSAGE_CLOSE, END_OF_MSG];
            assert(slice_texts(ends@) =~= seq![TOOLS_CLOSE@, MESSAGE_CLOSE@, END_OF_MSG@]);
            let body = take_before(rest, &ends);
            let text = trimmed_end(body);
            if ends_with_chars(text, chars_of(ARGUMENT_CLOSE).as_slice()) || ends_with_chars(
                text,
                chars_of(JSON_CLOSE).as_slice(),
            ) {
                Some((body, body.len()))
            } else {
                None
            }
        },
    }
}

/// What a parsed call holds.
pub open spec fn call_view(call: Option<ToolCallResponse>) -> Option<CallModel> {
    match call {
        Some(call) => Some(call@),
        None => None,
    }
}

/// The call with the given attributes, where they name a tool.
fn name_call(attrs: &Vec<(String, String)>, arguments: String) -> (call: Option<ToolCallResponse>)
    ensures
        call_view(call) == named_call(attrs_view(attrs@), arguments@),
{
    match attr_value(attrs, "tool") {
        None => None,
        Some(name) => {
            if chars_of(name).len() == 0 {
                None
            } else {
                let id = tool_call_id(name, attr_value(attrs, "index"));
                Some(
                    ToolCallResponse {
                        id,
                        tp: ToolCallType::Function,
                        function: CalledFunction { name: name.to_owned(), arguments },
                    },
                )
            }
        },
    }
}

/// The call that `input` begins with, and how many characters it takes.
pub fn parse_call_at(
    input: &[char],
    allow_missing_call_close: bool,
) -> (found: Option<(Option<ToolCallResponse>, usize)>)
    ensures
        match (found, call_at(input@, allow_missing_call_close)) {
            (Some((call, used)), Some((model, count))) => call_view(call) == model && used == count,
            (None, None) => true,
            _ => false,
        },
{
    proof {
        reveal(call_at);
    }
    if !begins_with_str(input, CALL_OPEN_PREFIX) {
        return None;
    }
    let open: usize = chars_of(CALL_OPEN_PREFIX).len();
    let after_open = rest_of(input, open);
    let tag_end = match find_str(after_open, SEP) {
        Some(tag_end) => tag_end,
        None => {
            return None;
        },
    };
    let attrs = match parse_attrs(first_of(after_open, tag_end)) {
        Some(attrs) => attrs,
        None => {
            return None;
        },
    };
    let sep: usize = chars_of(SEP).len();
    let ghost total = input.len();
    assert(open + tag_end + sep <= total);
    let start: usize = open + tag_end + sep;
    let (body, used) = match parse_body_at(rest_of(input, start), allow_missing_call_close) {
        Some((body, used)) => (body, used),
        None => {
            return None;
        },
    };
    let arguments = match parse_call_body(body) {
        Some(arguments) => arguments,
        None => {
            return None;
        },
    };
    let call = name_call(&attrs, arguments);
    proof {
        lemma_call_at_bounds(input@, allow_missing_call_close);
    }
    assert(start + used <= total);
    Some((call, start + used))
}

/// Adds the calls in a region of text.
fn parse_calls_region(
    region: &[char],
    allow_missing_call_close: bool,
    calls: &mut Vec<ToolCallResponse>,
)
    ensures
        calls_view(final(calls)@) == calls_view(old(calls)@) + calls_in(
            region@,
            allow_missing_call_close,
        ),
{
    let ghost recover = allow_missing_call_close;
    let ghost first = calls_view(calls@);
    let ghost all = calls_in(region@, recover);
    let mut cursor: usize = 0;
    assert(region@.skip(0) =~= region@);
    proof {
        reveal_strlit("<|open|>call");
    }
    loop
        invariant
            cursor <= region@.len() == region.len(),
            recover == allow_missing_call_close,
            CALL_OPEN_PREFIX@.len() > 0,
            first + all == calls_view(calls@) + calls_in(region@.skip(cursor as int), recover),
            first == calls_view(old(calls)@),
            all == calls_in(region@, recover),
        decreases region@.len() - cursor,
    {
        let rest = rest_of(region, cursor);
        let relative = match find_str(rest, CALL_OPEN_PREFIX) {
            Some(relative) => relative,
            None => {
                assert(calls_view(calls@) + Seq::empty() =~= calls_view(calls@));
                return;
            },
        };
        let input = rest_of(rest, relative);
        let ghost before = calls_view(calls@);
        proof {
            lemma_call_at_bounds(input@, recover);
        }
        match parse_call_at(input, allow_missing_call_close) {
            Some((call, used)) => {
                let ghost later = calls_in(input@.skip(used as int), recover);
                assert(input@.skip(used as int) =~= region@.skip(cursor + relative + used));
                if let Some(call) = call {
                    calls.push(call);
                    assert(calls_view(calls@) =~= before.push(call@));
                    assert(before + (seq![call@] + later) =~= before.push(call@) + later);
                }
                cursor = cursor + relative + used;
            },
            None => {
                let open: usize = chars_of(CALL_OPEN_PREFIX).len();
                assert(input@.skip(open as int) =~= region@.skip(cursor + relative + open));
                cursor = cursor + relative + open;
            },
        }
    }
}

fn extract_calls(message: &[char], config: &KimiK3ParserConfig) -> (calls: Vec<ToolCallResponse>)
    ensures
        calls_view(calls@) == message_calls(message@, config.allow_eof_recovery),
{
    let logical = take_logical(message);
    let mut calls: Vec<ToolCallResponse> = Vec::new();
    assert(calls_view(calls@) =~= Seq::empty());
    if let Some(start) = find_behind(logical, TOOLS_OPEN) {
        let body = rest_of(logical, start);
        if let Some(close) = find_str(body, TOOLS_CLOSE) {
            parse_calls_region(first_of(body, close), false, &mut calls);
        } else if config.allow_eof_recovery {
            parse_calls_region(body, true, &mut calls);
        }
    } else {
        parse_calls_region(logical, config.allow_eof_recovery, &mut calls);
    }
    assert(calls_view(calls@) =~= message_calls(message@, config.allow_eof_recovery));
    calls
}

/// Parses a whole message, or one span of it: its calls, and what the reader sees.
/// A call counts whether or not its tool is among the given ones.
pub fn try_tool_call_parse_kimi_k3(
    message: &str,
    config: &KimiK3ParserConfig,
    _tools: Option<&[ToolDefinition]>,
) -> (parsed: Result<(Vec<ToolCallResponse>, Option<String>), ToolCallError>)
    ensures
        parsed matches Ok((calls, Some(text))) && calls_view(calls@) == message_calls(
            message@,
            config.allow_eof_recovery,
        ) && text@ == response_text(message@),
{
    let text = chars_of(message);
    let normal_text = extract_response_text(text.as_slice());
    let calls = extract_calls(text.as_slice(), config);
    Ok((calls, Some(normal_text)))
}

} // verus!
