//! What holds of scanning as a whole: what reaches the reader, what is dropped, and
//! how calls are numbered.
use crate::chunking::{
    is_fenced, joined, lemma_earliest_later, lemma_empty_settled, lemma_lists, lemma_more_text,
    lemma_same_marker, lemma_separable_advances,
};
use crate::error::ToolCallError;
use crate::response::ParseModel;
use crate::scan::{
    ending_prefix, held_back, lemma_held_back, next_of, next_opener, nothing, only_text,
    BareRecoveryLatch, Grammar, InvokeEmitter, Opener, ScanState, ScanStep,
};
use crate::text::{
    earliest, ends_with, first_index, lemma_earliest, lemma_earliest_bounds, lemma_first_index,
    lemma_first_index_bounds, lemma_first_index_is, lemma_found_in_rest, lemma_found_stays,
    lemma_occurs_in_longer, occurs, occurs_at,
};
use vstd::prelude::*;

verus! {

broadcast use {lemma_first_index_bounds, lemma_earliest_bounds};

impl ScanState {
    /// Nothing is left, no block is open, and text reaches the reader.
    pub open spec fn is_idle(self) -> bool {
        &&& self.buffer.len() == 0
        &&& !self.in_block
        &&& !self.suppress_normal_text
    }
}

impl Grammar {
    /// Every marker that is held back begins with `opening`, which occurs nowhere
    /// else in it.
    pub open spec fn holds_fenced(self, opening: char) -> bool {
        forall|k: int|
            0 <= k < self.holdback_markers.len() ==> is_fenced(
                #[trigger] self.holdback_markers[k],
                opening,
            )
    }
}

impl Grammar {
    /// Neither an opener nor a stray marker stands in the text. The text may hold
    /// the character with which the markers begin, and parts of markers.
    pub open spec fn is_plain(self, text: Seq<char>) -> bool {
        &&& earliest(text, self.block_starts) is None
        &&& !occurs(text, self.invoke_start)
        &&& earliest(text, self.orphan_markers) is None
    }

    /// What is held back of a plain text while more may arrive: an ending that a
    /// marker may begin with.
    pub open spec fn kept(self, text: Seq<char>) -> Seq<char> {
        text.skip(text.len() - held_back(text, self.holdback_markers))
    }

    /// What a plain text gives at once.
    pub open spec fn shown(self, text: Seq<char>) -> Seq<char> {
        text.take(text.len() - held_back(text, self.holdback_markers))
    }
}

/// Plain text reaches the reader as it is. While more may arrive, an ending that a
/// marker may begin with is held back; at the end of the stream nothing is.
pub proof fn lemma_plain_text<E: InvokeEmitter>(
    grammar: Grammar,
    emitter: E,
    state: ScanState,
    text: Seq<char>,
)
    requires
        grammar.advances(),
        state.is_idle(),
        grammar.is_plain(text),
    ensures
        state.with_more(text).run(grammar, emitter, false) == (
            state.with_buffer(grammar.kept(text)),
            Ok::<ParseModel, ToolCallError>(only_text(grammar.shown(text))),
        ),
        state.with_more(text).run(grammar, emitter, true) == (
            state,
            Ok::<ParseModel, ToolCallError>(only_text(text)),
        ),
        grammar.shown(text) + grammar.kept(text) == text,
{
    let whole = state.with_more(text);
    assert(whole.buffer =~= text);
    lemma_held_back(text, grammar.holdback_markers);
    lemma_first_index(text, grammar.invoke_start);
    assert(next_opener(grammar, text) is None);
    assert(text.skip(text.len() as int) =~= state.buffer);
    assert(text.take(text.len() as int) =~= text);
    assert(grammar.shown(text) + grammar.kept(text) =~= text);
}

/// What stands behind a part of a plain text is plain.
proof fn lemma_plain_rest(grammar: Grammar, text: Seq<char>, from: int)
    requires
        grammar.is_plain(text),
        0 <= from <= text.len(),
    ensures
        grammar.is_plain(text.skip(from)),
{
    lemma_first_index(text, grammar.invoke_start);
    lemma_found_in_rest(text, from, grammar.invoke_start);
    lemma_first_index(text.skip(from), grammar.invoke_start);
    lemma_none_in_rest(text, from, grammar.block_starts);
    lemma_none_in_rest(text, from, grammar.orphan_markers);
}

/// What is held back of a plain text is given when the stream ends.
pub proof fn lemma_kept_text<E: InvokeEmitter>(
    grammar: Grammar,
    emitter: E,
    state: ScanState,
    text: Seq<char>,
)
    requires
        grammar.advances(),
        state.is_idle(),
        grammar.is_plain(text),
    ensures
        state.with_buffer(grammar.kept(text)).run(grammar, emitter, true) == (
            state,
            Ok::<ParseModel, ToolCallError>(only_text(grammar.kept(text))),
        ),
{
    let kept = grammar.kept(text);
    lemma_held_back(text, grammar.holdback_markers);
    lemma_plain_rest(grammar, text, text.len() - held_back(text, grammar.holdback_markers));
    lemma_plain_text(grammar, emitter, state, kept);
    assert(state.with_more(kept) =~= state.with_buffer(kept));
}

/// A text that does not hold the character with which the markers begin is plain,
/// and nothing of it is held back.
pub proof fn lemma_nothing_kept(grammar: Grammar, opening: char, text: Seq<char>)
    requires
        grammar.is_separable(opening),
        grammar.holds_fenced(opening),
        !text.contains(opening),
    ensures
        grammar.is_plain(text),
        grammar.shown(text) == text,
        grammar.kept(text) == Seq::<char>::empty(),
{
    lemma_lists(grammar);
    assert forall|marker: Seq<char>| is_fenced(marker, opening) implies (#[trigger] first_index(
        text,
        marker,
    )) is None by {
        lemma_first_index(text, marker);
        if let Some(at) = first_index(text, marker) {
            assert(text.subrange(at, at + marker.len())[0] == text[at]);
        }
    }
    lemma_earliest(text, grammar.block_starts);
    lemma_earliest(text, grammar.orphan_markers);
    lemma_first_index(text, grammar.invoke_start);
    assert(first_index(text, grammar.invoke_start) is None);
    lemma_nothing_held_back(text, opening, grammar.holdback_markers);
    assert(grammar.shown(text) =~= text);
    assert(grammar.kept(text) =~= Seq::empty());
}

/// The beginning of a plain text is plain.
proof fn lemma_plain_start(grammar: Grammar, text: Seq<char>, more: Seq<char>)
    requires
        grammar.is_plain(text + more),
    ensures
        grammar.is_plain(text),
{
    lemma_found_stays(text, more, grammar.invoke_start);
    lemma_first_index(text, grammar.invoke_start);
    lemma_first_index(text + more, grammar.invoke_start);
    lemma_none_in_start(text, more, grammar.block_starts);
    lemma_none_in_start(text, more, grammar.orphan_markers);
}

/// None of several markers stands in the beginning of a text without them.
proof fn lemma_none_in_start(text: Seq<char>, more: Seq<char>, markers: Seq<Seq<char>>)
    requires
        earliest(text + more, markers) is None,
    ensures
        earliest(text, markers) is None,
{
    lemma_earliest(text, markers);
    lemma_earliest(text + more, markers);
    if let Some((at, which)) = earliest(text, markers) {
        lemma_found_stays(text, more, markers[which]);
    }
}

/// Plain text that arrives in chunks reaches the reader as it is, wherever it is
/// cut: what the chunks give, followed by what ending the stream gives, is the text.
pub proof fn lemma_plain_stream<E: InvokeEmitter>(
    grammar: Grammar,
    opening: char,
    emitter: E,
    state: ScanState,
    chunks: Seq<Seq<char>>,
)
    requires
        grammar.is_separable(opening),
        state.is_idle(),
        grammar.is_plain(joined(chunks)),
    ensures
        state.pushed(grammar, emitter, chunks) == (
            state.with_buffer(grammar.kept(joined(chunks))),
            Ok::<ParseModel, ToolCallError>(only_text(grammar.shown(joined(chunks)))),
        ),
        state.with_buffer(grammar.kept(joined(chunks))).run(grammar, emitter, true) == (
            state,
            Ok::<ParseModel, ToolCallError>(only_text(grammar.kept(joined(chunks)))),
        ),
        grammar.shown(joined(chunks)) + grammar.kept(joined(chunks)) == joined(chunks),
    decreases chunks.len(),
{
    let text = joined(chunks);
    lemma_separable_advances(grammar, opening);
    lemma_plain_text(grammar, emitter, state, text);
    lemma_kept_text(grammar, emitter, state, text);
    if chunks.len() == 0 {
        lemma_empty_settled(grammar, opening, state);
        assert(text =~= Seq::empty());
        assert(state.with_more(text) =~= state);
        assert(nothing() == only_text(Seq::empty()));
    } else {
        let before = joined(chunks.drop_last());
        lemma_plain_start(grammar, before, chunks.last());
        lemma_plain_stream(grammar, opening, emitter, state, chunks.drop_last());
        lemma_plain_text(grammar, emitter, state, before);
        lemma_more_text(grammar, opening, emitter, state.with_more(before), chunks.last());
        assert(state.with_more(before).with_more(chunks.last()) =~= state.with_more(text));
    }
}

proof fn lemma_nothing_held_back(text: Seq<char>, opening: char, markers: Seq<Seq<char>>)
    requires
        forall|k: int| 0 <= k < markers.len() ==> is_fenced(#[trigger] markers[k], opening),
        !text.contains(opening),
    ensures
        held_back(text, markers) == 0,
    decreases markers.len(),
{
    if markers.len() > 0 {
        let start = markers.drop_last();
        assert forall|k: int| 0 <= k < start.len() implies is_fenced(
            #[trigger] start[k],
            opening,
        ) by {
            assert(start[k] == markers[k]);
        }
        lemma_nothing_held_back(text, opening, start);
        let marker = markers.last();
        assert(marker == markers[markers.len() - 1]);
        lemma_no_ending_prefix(text, opening, marker, (marker.len() - 1) as nat);
    }
}

proof fn lemma_no_ending_prefix(text: Seq<char>, opening: char, marker: Seq<char>, limit: nat)
    requires
        is_fenced(marker, opening),
        limit < marker.len(),
        !text.contains(opening),
    ensures
        ending_prefix(text, marker, limit) == 0,
    decreases limit,
{
    if limit > 0 {
        let start = marker.take(limit as int);
        if ends_with(text, start) {
            assert(text.skip(text.len() - start.len())[0] == start[0]);
            assert(text[text.len() - start.len()] == opening);
        }
        lemma_no_ending_prefix(text, opening, marker, (limit - 1) as nat);
    }
}

/// Ending a stream leaves nothing behind and closes any block.
pub proof fn lemma_finish_empties<E: InvokeEmitter>(grammar: Grammar, emitter: E, state: ScanState)
    requires
        grammar.advances(),
        state.run(grammar, emitter, true).1 is Ok,
    ensures
        state.run(grammar, emitter, true).0.buffer.len() == 0,
        !state.run(grammar, emitter, true).0.in_block,
    decreases state.buffer.len(),
{
    match state.step(grammar, true) {
        ScanStep::Wait { state: next, text } => {},
        ScanStep::Advance { state: next, text } => {
            lemma_finish_empties(grammar, emitter, next);
        },
        ScanStep::Invoke { state: next, text, invoke, bare } => {
            let emitted = emitter.emits(invoke, next.next_index)->Ok_0 is Some;
            lemma_finish_empties(grammar, emitter, next.after_invoke(grammar, bare, emitted));
        },
    }
}

/// The calls of a stream are numbered one after another, where the emitter gives
/// each call the index that it was handed.
pub proof fn lemma_indices<E: InvokeEmitter>(
    grammar: Grammar,
    emitter: E,
    state: ScanState,
    flush: bool,
)
    requires
        grammar.advances(),
        forall|invoke: Seq<char>, tool_index: usize|
            (#[trigger] emitter.emits(invoke, tool_index)) matches Ok(Some(delta))
                ==> delta.tool_index == tool_index,
        state.run(grammar, emitter, flush).1 matches Ok(output) && state.next_index
            + output.calls.len() <= usize::MAX,
    ensures
        state.run(grammar, emitter, flush) matches (last, Ok(output)) && last.next_index
            == state.next_index + output.calls.len() && forall|k: int|
            0 <= k < output.calls.len() ==> (#[trigger] output.calls[k]).tool_index
                == state.next_index + k,
    decreases state.buffer.len(),
{
    let output = state.run(grammar, emitter, flush).1->Ok_0;
    match state.step(grammar, flush) {
        ScanStep::Wait { state: next, text } => {},
        ScanStep::Advance { state: next, text } => {
            let later = next.run(grammar, emitter, flush).1->Ok_0;
            assert(output.calls =~= later.calls);
            lemma_indices(grammar, emitter, next, flush);
        },
        ScanStep::Invoke { state: next, text, invoke, bare } => {
            match emitter.emits(invoke, next.next_index) {
                Ok(Some(delta)) => {
                    let after = next.after_invoke(grammar, bare, true);
                    let later = after.run(grammar, emitter, flush).1->Ok_0;
                    assert(output.calls =~= seq![delta] + later.calls);
                    lemma_indices(grammar, emitter, after, flush);
                    assert forall|k: int| 0 <= k < output.calls.len() implies (
                    #[trigger] output.calls[k]).tool_index == state.next_index + k by {
                        if k > 0 {
                            assert(output.calls[k] == later.calls[k - 1]);
                        }
                    }
                },
                _ => {
                    let after = next.after_invoke(grammar, bare, false);
                    let later = after.run(grammar, emitter, flush).1->Ok_0;
                    assert(output.calls =~= later.calls);
                    lemma_indices(grammar, emitter, after, flush);
                },
            }
        },
    }
}

/// Where the emitter can read every invoke, scanning does not fail.
pub proof fn lemma_run_succeeds<E: InvokeEmitter>(
    grammar: Grammar,
    emitter: E,
    state: ScanState,
    flush: bool,
)
    requires
        grammar.advances(),
        forall|invoke: Seq<char>, tool_index: usize| #[trigger]
            emitter.emits(invoke, tool_index) is Ok,
    ensures
        state.run(grammar, emitter, flush).1 is Ok,
    decreases state.buffer.len(),
{
    match state.step(grammar, flush) {
        ScanStep::Wait { state: next, text } => {},
        ScanStep::Advance { state: next, text } => {
            lemma_run_succeeds(grammar, emitter, next, flush);
        },
        ScanStep::Invoke { state: next, text, invoke, bare } => {
            let emitted = emitter.emits(invoke, next.next_index)->Ok_0 is Some;
            lemma_run_succeeds(grammar, emitter, next.after_invoke(grammar, bare, emitted), flush);
        },
    }
}

/// Where the emitter can read every invoke, pushing chunks does not fail.
pub proof fn lemma_pushes_succeed<E: InvokeEmitter>(
    grammar: Grammar,
    emitter: E,
    state: ScanState,
    chunks: Seq<Seq<char>>,
)
    requires
        grammar.advances(),
        forall|invoke: Seq<char>, tool_index: usize| #[trigger]
            emitter.emits(invoke, tool_index) is Ok,
    ensures
        state.pushed(grammar, emitter, chunks).1 is Ok,
    decreases chunks.len(),
{
    if chunks.len() > 0 {
        let before = state.pushed(grammar, emitter, chunks.drop_last());
        lemma_pushes_succeed(grammar, emitter, state, chunks.drop_last());
        lemma_run_succeeds(grammar, emitter, before.0.with_more(chunks.last()), false);
    }
}

/// Behind a text without the marker, before `opening`, a marker first stands where the
/// text ends.
pub(crate) proof fn lemma_first_behind(
    text: Seq<char>,
    opening: char,
    marker: Seq<char>,
    rest: Seq<char>,
)
    requires
        is_fenced(marker, opening),
        first_index(text, marker) is None,
        rest.len() > 0,
        rest[0] == opening,
    ensures
        first_index(text + rest, marker) matches Some(at) ==> text.len() <= at,
        occurs_at(rest, marker, 0) ==> first_index(text + rest, marker) == Some(text.len() as int),
{
    let whole = text + rest;
    lemma_first_index(text, marker);
    assert forall|at: int| 0 <= at < text.len() implies !occurs_at(whole, marker, at) by {
        if occurs_at(whole, marker, at) {
            lemma_ends_before_opening(text, rest, opening, marker, at);
        }
    }
    lemma_found_in_rest(whole, text.len() as int, marker);
    assert(whole.skip(text.len() as int) =~= rest);
    if occurs_at(rest, marker, 0) {
        lemma_first_index_is(rest, marker, 0);
    }
}

/// Behind a text without any of several markers, before `opening`, none of them stands
/// before the text ends.
pub(crate) proof fn lemma_earliest_behind(
    text: Seq<char>,
    opening: char,
    markers: Seq<Seq<char>>,
    rest: Seq<char>,
)
    requires
        forall|k: int| 0 <= k < markers.len() ==> is_fenced(#[trigger] markers[k], opening),
        earliest(text, markers) is None,
        rest.len() > 0,
        rest[0] == opening,
    ensures
        earliest(text + rest, markers) matches Some((at, _)) ==> text.len() <= at,
{
    lemma_earliest(text, markers);
    lemma_earliest(text + rest, markers);
    if let Some((at, which)) = earliest(text + rest, markers) {
        lemma_first_behind(text, opening, markers[which], rest);
    }
}

/// None of several markers stands in what is behind a part of a text without them.
proof fn lemma_none_in_rest(text: Seq<char>, from: int, markers: Seq<Seq<char>>)
    requires
        earliest(text, markers) is None,
        0 <= from <= text.len(),
    ensures
        earliest(text.skip(from), markers) is None,
{
    let rest = text.skip(from);
    lemma_earliest(text, markers);
    lemma_earliest(rest, markers);
    assert forall|k: int| 0 <= k < markers.len() implies first_index(
        rest,
        #[trigger] markers[k],
    ) is None by {
        lemma_first_index(text, markers[k]);
        lemma_found_in_rest(text, from, markers[k]);
    }
}

/// An invoke from its opener to its first closer.
pub open spec fn is_complete_invoke(grammar: Grammar, invoke: Seq<char>) -> bool {
    &&& occurs_at(invoke, grammar.invoke_start, 0)
    &&& first_index(invoke, grammar.invoke_end) == Some(invoke.len() - grammar.invoke_end.len())
}

/// An invoke as it stands in a block: complete, and without a marker that closes
/// the block.
pub open spec fn is_whole_invoke(grammar: Grammar, invoke: Seq<char>) -> bool {
    &&& is_complete_invoke(grammar, invoke)
    &&& earliest(invoke, grammar.block_ends) is None
}

pub(crate) proof fn lemma_whole_invoke_taken(
    grammar: Grammar,
    opening: char,
    state: ScanState,
    invoke: Seq<char>,
    rest: Seq<char>,
)
    requires
        grammar.is_separable(opening),
        state.in_block,
        state.buffer == invoke + rest,
        is_whole_invoke(grammar, invoke),
    ensures
        state.step(grammar, false) == (ScanStep::Invoke {
            state: state.with_buffer(rest),
            text: Seq::empty(),
            invoke,
            bare: false,
        }),
{
    let whole = invoke + rest;
    let close = invoke.len() - grammar.invoke_end.len();
    lemma_lists(grammar);
    lemma_first_index_is(invoke, grammar.invoke_start, 0);
    lemma_found_stays(invoke, rest, grammar.invoke_start);
    lemma_found_stays(invoke, rest, grammar.invoke_end);
    lemma_earliest_later(
        grammar,
        opening,
        invoke,
        rest,
        grammar.invoke_end,
        close,
        grammar.block_ends,
    );
    lemma_first_index(invoke, grammar.invoke_end);
    assert(whole.skip(0) =~= whole);
    assert(whole.skip(invoke.len() as int) =~= rest);
    assert(whole.take(invoke.len() as int) =~= invoke);
    assert(state.with_buffer(state.buffer.skip(0)) == state);
}

/// A block that opens behind plain text: the text reaches the reader as it is.
pub(crate) proof fn lemma_block_opens(
    grammar: Grammar,
    opening: char,
    state: ScanState,
    text: Seq<char>,
    start: int,
    content: Seq<char>,
)
    requires
        grammar.is_separable(opening),
        state.is_idle(),
        grammar.is_plain(text),
        0 <= start < grammar.block_starts.len(),
    ensures
        state.with_more(text + (grammar.block_starts[start] + content)).step(grammar, false) == (
        ScanStep::Advance {
            state: ScanState {
                buffer: content,
                in_block: true,
                suppress_normal_text: true,
                next_index: state.next_index,
            },
            text,
        }),
{
    lemma_separable_advances(grammar, opening);
    lemma_lists(grammar);
    let opener = grammar.block_starts[start];
    let rest = opener + content;
    let first = state.with_more(text + rest);
    assert(first.buffer =~= text + rest);
    assert(rest.subrange(0, opener.len() as int) =~= opener);
    lemma_earliest(text, grammar.block_starts);
    lemma_first_index(text, grammar.invoke_start);
    lemma_first_behind(text, opening, opener, rest);
    lemma_first_behind(text, opening, grammar.invoke_start, rest);
    lemma_earliest_behind(text, opening, grammar.block_starts, rest);
    lemma_earliest_behind(text, opening, grammar.orphan_markers, rest);
    lemma_earliest(text + rest, grammar.block_starts);
    let which = earliest(text + rest, grammar.block_starts).unwrap().1;
    assert(grammar.block_starts[which] == opener) by {
        lemma_first_index(text + rest, opener);
        lemma_first_index(text + rest, grammar.block_starts[which]);
        lemma_same_marker(
            grammar,
            opening,
            text + rest,
            opener,
            grammar.block_starts[which],
            text.len() as int,
        );
    }
    assert((text + rest).skip((text.len() + opener.len()) as int) =~= content);
    assert((text + rest).take(text.len() as int) =~= text);
}

/// A complete block with one invoke in it, behind plain text: the text reaches the
/// reader as it is, the call is given, and nothing of the markup is left.
pub proof fn lemma_complete_block<E: InvokeEmitter>(
    grammar: Grammar,
    opening: char,
    emitter: E,
    state: ScanState,
    text: Seq<char>,
    invoke: Seq<char>,
    start: int,
    end: int,
)
    requires
        grammar.is_separable(opening),
        !grammar.block_ends.contains(grammar.invoke_start),
        state.is_idle(),
        grammar.is_plain(text),
        is_whole_invoke(grammar, invoke),
        0 <= start < grammar.block_starts.len(),
        0 <= end < grammar.block_ends.len(),
        emitter.emits(invoke, state.next_index) matches Ok(Some(_)),
    ensures
        state.with_more(
            text + (grammar.block_starts[start] + (invoke + grammar.block_ends[end])),
        ).run(grammar, emitter, false) == (
            ScanState { next_index: next_of(state.next_index), ..state },
            Ok::<ParseModel, ToolCallError>(
                ParseModel {
                    normal_text: text,
                    calls: seq![(emitter.emits(invoke, state.next_index)->Ok_0)->Some_0],
                },
            ),
        ),
{
    lemma_separable_advances(grammar, opening);
    lemma_lists(grammar);
    let opener = grammar.block_starts[start];
    let closer = grammar.block_ends[end];
    let first = state.with_more(text + (opener + (invoke + closer)));
    let delta = emitter.emits(invoke, state.next_index)->Ok_0->Some_0;
    lemma_block_opens(grammar, opening, state, text, start, invoke + closer);
    let inside = ScanState {
        buffer: invoke + closer,
        in_block: true,
        suppress_normal_text: true,
        next_index: state.next_index,
    };
    assert(first.step(grammar, false) == (ScanStep::Advance { state: inside, text }));
    lemma_whole_invoke_taken(grammar, opening, inside, invoke, closer);
    let behind = ScanState { buffer: closer, next_index: next_of(state.next_index), ..inside };
    assert(inside.with_buffer(closer).after_invoke(grammar, false, true) == behind);
    lemma_closer_alone(grammar, opening, behind, end);
    let last = ScanState { next_index: next_of(state.next_index), ..state };
    assert(last.buffer =~= Seq::empty());
    assert(behind.step(grammar, false) == (ScanStep::Advance { state: last, text: Seq::empty() }));
    lemma_empty_settled(grammar, opening, last);
    let nothing = only_text(Seq::empty());
    let one = ParseModel { normal_text: Seq::empty(), calls: seq![delta] };
    assert(last.run(grammar, emitter, false) == (last, Ok::<ParseModel, ToolCallError>(nothing)));
    assert(nothing.followed_by(nothing) =~= nothing);
    assert(behind.run(grammar, emitter, false) == (
        last,
        Ok::<ParseModel, ToolCallError>(nothing),
    ));
    assert(one.followed_by(nothing) =~= one);
    assert(inside.run(grammar, emitter, false) == (last, Ok::<ParseModel, ToolCallError>(one)));
    assert(only_text(text).followed_by(one) =~= ParseModel {
        normal_text: text,
        calls: seq![delta],
    });
}

/// Plain text before and behind a complete block reaches the reader as it is; of the
/// text behind, an ending that a marker may begin with is held back.
pub proof fn lemma_text_around_block<E: InvokeEmitter>(
    grammar: Grammar,
    opening: char,
    emitter: E,
    state: ScanState,
    text: Seq<char>,
    invoke: Seq<char>,
    tail: Seq<char>,
    start: int,
    end: int,
)
    requires
        grammar.is_separable(opening),
        !grammar.block_ends.contains(grammar.invoke_start),
        state.is_idle(),
        grammar.is_plain(text),
        grammar.is_plain(tail),
        is_whole_invoke(grammar, invoke),
        0 <= start < grammar.block_starts.len(),
        0 <= end < grammar.block_ends.len(),
        emitter.emits(invoke, state.next_index) matches Ok(Some(_)),
    ensures
        state.with_more(
            text + (grammar.block_starts[start] + (invoke + grammar.block_ends[end])) + tail,
        ).run(grammar, emitter, false) == (
            ScanState {
                buffer: grammar.kept(tail),
                next_index: next_of(state.next_index),
                ..state
            },
            Ok::<ParseModel, ToolCallError>(
                ParseModel {
                    normal_text: text + grammar.shown(tail),
                    calls: seq![(emitter.emits(invoke, state.next_index)->Ok_0)->Some_0],
                },
            ),
        ),
{
    let block = text + (grammar.block_starts[start] + (invoke + grammar.block_ends[end]));
    let delta = emitter.emits(invoke, state.next_index)->Ok_0->Some_0;
    let last = ScanState { next_index: next_of(state.next_index), ..state };
    lemma_complete_block(grammar, opening, emitter, state, text, invoke, start, end);
    lemma_more_text(grammar, opening, emitter, state.with_more(block), tail);
    lemma_separable_advances(grammar, opening);
    lemma_plain_text(grammar, emitter, last, tail);
    assert(state.with_more(block).with_more(tail) =~= state.with_more(block + tail));
    let given = only_text(grammar.shown(tail));
    assert((ParseModel { normal_text: text, calls: seq![delta] }).followed_by(given)
        =~= ParseModel { normal_text: text + grammar.shown(tail), calls: seq![delta] });
}

/// A stray marker in plain text is removed, and the text around it reaches the
/// reader as it is; an ending that a marker may begin with is held back.
pub proof fn lemma_stray_marker<E: InvokeEmitter>(
    grammar: Grammar,
    opening: char,
    emitter: E,
    state: ScanState,
    text: Seq<char>,
    stray: int,
    tail: Seq<char>,
)
    requires
        grammar.is_separable(opening),
        0 <= stray < grammar.orphan_markers.len(),
        !grammar.block_starts.contains(grammar.orphan_markers[stray]),
        grammar.orphan_markers[stray] != grammar.invoke_start,
        state.is_idle(),
        grammar.is_plain(text),
        grammar.is_plain(tail),
    ensures
        state.with_more(text + (grammar.orphan_markers[stray] + tail)).run(
            grammar,
            emitter,
            false,
        ) == (
            state.with_buffer(grammar.kept(tail)),
            Ok::<ParseModel, ToolCallError>(only_text(text + grammar.shown(tail))),
        ),
{
    lemma_separable_advances(grammar, opening);
    lemma_lists(grammar);
    let marker = grammar.orphan_markers[stray];
    let rest = marker + tail;
    let whole = text + rest;
    let first = state.with_more(whole);
    let place = text.len() as int;
    assert(first.buffer =~= whole);
    assert(rest.subrange(0, marker.len() as int) =~= marker);
    lemma_earliest(text, grammar.orphan_markers);
    lemma_first_behind(text, opening, marker, rest);
    lemma_first_index(whole, marker);
    lemma_earliest(whole, grammar.orphan_markers);
    lemma_earliest_behind(text, opening, grammar.orphan_markers, rest);
    let which = earliest(whole, grammar.orphan_markers).unwrap().1;
    lemma_first_index(whole, grammar.orphan_markers[which]);
    lemma_same_marker(grammar, opening, whole, marker, grammar.orphan_markers[which], place);
    assert forall|other: Seq<char>| #[trigger] grammar.is_marker(other) && other != marker
        && first_index(text, other) is None && first_index(tail, other)
        is None implies first_index(whole, other) is None by {
        lemma_first_index(whole, other);
        if let Some(at) = first_index(whole, other) {
            assert(whole.subrange(at, at + other.len())[0] == whole[at]);
            if at < place {
                lemma_ends_before_opening(text, rest, opening, other, at);
                lemma_first_index(text, other);
            } else if at == place {
                lemma_same_marker(grammar, opening, whole, marker, other, place);
            } else if at < place + marker.len() {
                assert(whole[at] == marker[at - place]);
            } else {
                let from = at - place - marker.len();
                assert(tail.subrange(from, from + other.len()) =~= whole.subrange(
                    at,
                    at + other.len(),
                ));
                assert(occurs_at(tail, other, from));
                lemma_first_index(tail, other);
            }
        }
    }
    lemma_earliest(text, grammar.block_starts);
    lemma_earliest(tail, grammar.block_starts);
    lemma_earliest(whole, grammar.block_starts);
    lemma_first_index(text, grammar.invoke_start);
    lemma_first_index(tail, grammar.invoke_start);
    if let Some((at, index)) = earliest(whole, grammar.block_starts) {
        assert(grammar.block_starts.contains(grammar.block_starts[index]));
    }
    assert(next_opener(grammar, whole) is None);
    assert(whole.skip((text.len() + marker.len()) as int) =~= tail);
    assert(whole.take(place) =~= text);
    let next = state.with_more(tail);
    assert(next.buffer =~= tail);
    assert(first.step(grammar, false) == (ScanStep::Advance { state: next, text }));
    lemma_plain_text(grammar, emitter, state, tail);
    assert(only_text(text).followed_by(only_text(grammar.shown(tail))) =~= only_text(
        text + grammar.shown(tail),
    ));
}

/// An invoke without a block around it, behind plain text: the text reaches the
/// reader as it is and the call is given. Whether later text reaches the reader is
/// up to the grammar.
pub proof fn lemma_bare_invoke<E: InvokeEmitter>(
    grammar: Grammar,
    opening: char,
    emitter: E,
    state: ScanState,
    text: Seq<char>,
    invoke: Seq<char>,
)
    requires
        grammar.is_separable(opening),
        !grammar.block_starts.contains(grammar.invoke_start),
        state.is_idle(),
        grammar.is_plain(text),
        is_complete_invoke(grammar, invoke),
        emitter.emits(invoke, state.next_index) matches Ok(Some(_)),
    ensures
        state.with_more(text + invoke).run(grammar, emitter, false) == (
            ScanState {
                suppress_normal_text: grammar.bare_recovery_latch == BareRecoveryLatch::Suppress,
                next_index: next_of(state.next_index),
                ..state
            },
            Ok::<ParseModel, ToolCallError>(
                ParseModel {
                    normal_text: text,
                    calls: seq![(emitter.emits(invoke, state.next_index)->Ok_0)->Some_0],
                },
            ),
        ),
{
    lemma_separable_advances(grammar, opening);
    lemma_lists(grammar);
    let whole = text + invoke;
    let first = state.with_more(whole);
    let place = text.len() as int;
    let delta = emitter.emits(invoke, state.next_index)->Ok_0->Some_0;
    assert(first.buffer =~= whole);
    lemma_first_index(text, grammar.invoke_start);
    lemma_first_behind(text, opening, grammar.invoke_start, invoke);
    lemma_earliest_behind(text, opening, grammar.block_starts, invoke);
    lemma_earliest_behind(text, opening, grammar.orphan_markers, invoke);
    lemma_first_index(whole, grammar.invoke_start);
    lemma_earliest(whole, grammar.block_starts);
    if let Some((at, index)) = earliest(whole, grammar.block_starts) {
        if at == place {
            let other = grammar.block_starts[index];
            lemma_first_index(whole, other);
            lemma_same_marker(grammar, opening, whole, grammar.invoke_start, other, place);
            assert(grammar.block_starts.contains(other));
        }
    }
    assert(next_opener(grammar, whole) == Some((place, Opener::BareInvoke)));
    assert(whole.skip(place) =~= invoke);
    assert(whole.take(place) =~= text);
    let close = invoke.len() - grammar.invoke_end.len();
    assert(invoke.skip(invoke.len() as int) =~= state.buffer);
    assert(invoke.take(invoke.len() as int) =~= invoke);
    let next = first.with_buffer(state.buffer);
    assert(first.step(grammar, false) == (ScanStep::Invoke {
        state: next,
        text,
        invoke,
        bare: true,
    }));
    let last = next.after_invoke(grammar, true, true);
    lemma_empty_settled(grammar, opening, last);
    let given = ParseModel { normal_text: text, calls: seq![delta] };
    let nothing = only_text(Seq::empty());
    assert(last.run(grammar, emitter, false) == (last, Ok::<ParseModel, ToolCallError>(nothing)));
    assert(given.followed_by(nothing) =~= given);
}

/// A block that the end of the stream cuts off is dropped: nothing of it reaches
/// the reader.
pub proof fn lemma_cut_off_block<E: InvokeEmitter>(grammar: Grammar, emitter: E, state: ScanState)
    requires
        grammar.advances(),
        state.in_block,
        !occurs(state.buffer, grammar.invoke_end),
        earliest(state.buffer, grammar.block_ends) is None,
    ensures
        state.run(grammar, emitter, true) == (
            ScanState { buffer: Seq::empty(), in_block: false, ..state },
            Ok::<ParseModel, ToolCallError>(nothing()),
        ),
{
    let text = state.buffer;
    assert(nothing() == only_text(Seq::empty()));
    if let Some(open) = first_index(text, grammar.invoke_start) {
        let rest = text.skip(open);
        lemma_found_in_rest(text, open, grammar.invoke_end);
        lemma_first_index(text, grammar.invoke_end);
        lemma_none_in_rest(text, open, grammar.block_ends);
    }
}

/// A marker that begins before a place where `opening` stands ends before it.
proof fn lemma_ends_before_opening(
    text: Seq<char>,
    rest: Seq<char>,
    opening: char,
    marker: Seq<char>,
    at: int,
)
    requires
        is_fenced(marker, opening),
        rest.len() > 0,
        rest[0] == opening,
        at < text.len(),
        occurs_at(text + rest, marker, at),
    ensures
        occurs_at(text, marker, at),
{
    let whole = text + rest;
    if text.len() < at + marker.len() {
        assert(whole.subrange(at, at + marker.len())[text.len() - at] == whole[text.len() as int]);
        assert(marker[text.len() - at] == opening);
    }
    lemma_occurs_in_longer(text, rest, marker, at);
}

/// The closer of a block behind an invoke that has not ended drops the invoke and
/// closes the block.
proof fn lemma_invoke_cut_off(
    grammar: Grammar,
    opening: char,
    state: ScanState,
    invoke: Seq<char>,
    end: int,
)
    requires
        grammar.is_separable(opening),
        grammar.drop_invoke_crossing_block_end,
        !grammar.block_ends.contains(grammar.invoke_end),
        state.in_block,
        occurs_at(invoke, grammar.invoke_start, 0),
        !occurs(invoke, grammar.invoke_end),
        earliest(invoke, grammar.block_ends) is None,
        0 <= end < grammar.block_ends.len(),
        state.buffer == invoke + grammar.block_ends[end],
    ensures
        state.step(grammar, false) == (ScanStep::Advance {
            state: state.outside(Seq::empty()),
            text: Seq::empty(),
        }),
{
    lemma_lists(grammar);
    let closer = grammar.block_ends[end];
    let whole = invoke + closer;
    let place = invoke.len() as int;
    assert(invoke.len() > 0);
    lemma_first_index_is(invoke, grammar.invoke_start, 0);
    lemma_found_stays(invoke, closer, grammar.invoke_start);
    lemma_earliest(invoke, grammar.block_ends);
    lemma_earliest(whole, grammar.block_ends);
    assert(whole.subrange(place, place + closer.len()) =~= closer);
    assert(occurs_at(whole, closer, place));
    lemma_first_index(whole, closer);
    let (at, which) = earliest(whole, grammar.block_ends).unwrap();
    lemma_first_index(whole, grammar.block_ends[which]);
    lemma_first_index(invoke, grammar.block_ends[which]);
    if at < place {
        lemma_ends_before_opening(invoke, closer, opening, grammar.block_ends[which], at);
    }
    assert(at == place);
    lemma_same_marker(grammar, opening, whole, closer, grammar.block_ends[which], place);
    lemma_first_index(whole, grammar.invoke_end);
    if let Some(close) = first_index(whole, grammar.invoke_end) {
        if close < place {
            lemma_ends_before_opening(invoke, closer, opening, grammar.invoke_end, close);
        } else if close == place {
            lemma_same_marker(grammar, opening, whole, closer, grammar.invoke_end, place);
        }
    }
    assert(whole.skip(0) =~= whole);
    assert(whole.skip(place + closer.len()) =~= Seq::empty());
}

/// An invoke that the end of its block cuts off is dropped where the grammar says
/// so: plain text before and behind the block reaches the reader as it is, but for an
/// ending that a marker may begin with, which is held back, and no call is given.
pub proof fn lemma_call_cut_off_by_block<E: InvokeEmitter>(
    grammar: Grammar,
    opening: char,
    emitter: E,
    state: ScanState,
    text: Seq<char>,
    invoke: Seq<char>,
    tail: Seq<char>,
    start: int,
    end: int,
)
    requires
        grammar.is_separable(opening),
        grammar.drop_invoke_crossing_block_end,
        !grammar.block_ends.contains(grammar.invoke_end),
        state.is_idle(),
        grammar.is_plain(text),
        grammar.is_plain(tail),
        occurs_at(invoke, grammar.invoke_start, 0),
        !occurs(invoke, grammar.invoke_end),
        earliest(invoke, grammar.block_ends) is None,
        0 <= start < grammar.block_starts.len(),
        0 <= end < grammar.block_ends.len(),
    ensures
        state.with_more(
            text + (grammar.block_starts[start] + (invoke + grammar.block_ends[end])) + tail,
        ).run(grammar, emitter, false) == (
            state.with_buffer(grammar.kept(tail)),
            Ok::<ParseModel, ToolCallError>(only_text(text + grammar.shown(tail))),
        ),
{
    lemma_separable_advances(grammar, opening);
    let content = invoke + grammar.block_ends[end];
    let block = text + (grammar.block_starts[start] + content);
    let first = state.with_more(block);
    let inside = ScanState {
        buffer: content,
        in_block: true,
        suppress_normal_text: true,
        next_index: state.next_index,
    };
    lemma_block_opens(grammar, opening, state, text, start, content);
    lemma_invoke_cut_off(grammar, opening, inside, invoke, end);
    assert(inside.outside(Seq::empty()) =~= state);
    lemma_empty_settled(grammar, opening, state);
    let nothing = only_text(Seq::empty());
    assert(state.run(grammar, emitter, false) == (state, Ok::<ParseModel, ToolCallError>(nothing)));
    assert(nothing.followed_by(nothing) =~= nothing);
    assert(inside.run(grammar, emitter, false) == (
        state,
        Ok::<ParseModel, ToolCallError>(nothing),
    ));
    assert(only_text(text).followed_by(nothing) =~= only_text(text));
    lemma_more_text(grammar, opening, emitter, first, tail);
    lemma_plain_text(grammar, emitter, state, tail);
    assert(first.with_more(tail) =~= state.with_more(block + tail));
    assert(only_text(text).followed_by(only_text(grammar.shown(tail))) =~= only_text(
        text + grammar.shown(tail),
    ));
}

/// A marker that closes a block, alone in the buffer, closes it.
proof fn lemma_closer_alone(grammar: Grammar, opening: char, state: ScanState, end: int)
    requires
        grammar.is_separable(opening),
        !grammar.block_ends.contains(grammar.invoke_start),
        0 <= end < grammar.block_ends.len(),
        state.in_block,
        state.buffer == grammar.block_ends[end],
    ensures
        state.step(grammar, false) == (ScanStep::Advance {
            state: state.outside(Seq::empty()),
            text: Seq::empty(),
        }),
{
    lemma_lists(grammar);
    let closer = grammar.block_ends[end];
    assert(closer.subrange(0, closer.len() as int) =~= closer);
    lemma_first_index_is(closer, closer, 0);
    lemma_first_index(closer, grammar.invoke_start);
    if let Some(at) = first_index(closer, grammar.invoke_start) {
        assert(closer.subrange(at, at + grammar.invoke_start.len())[0] == closer[at]);
        if at == 0 {
            lemma_same_marker(grammar, opening, closer, closer, grammar.invoke_start, 0);
        }
    }
    lemma_earliest(closer, grammar.block_ends);
    let (at, which) = earliest(closer, grammar.block_ends).unwrap();
    lemma_first_index(closer, grammar.block_ends[which]);
    assert(at == 0);
    lemma_same_marker(grammar, opening, closer, closer, grammar.block_ends[which], 0);
    assert(closer.skip(closer.len() as int) =~= Seq::empty());
}

impl ScanStep {
    /// The text that the move gives.
    pub open spec fn given_text(self) -> Seq<char> {
        match self {
            ScanStep::Wait { text, .. } => text,
            ScanStep::Advance { text, .. } => text,
            ScanStep::Invoke { text, .. } => text,
        }
    }
}

/// What stands in the beginning of a text is found in the text, and before the
/// beginning ends.
proof fn lemma_found_in_beginning(text: Seq<char>, end: int, marker: Seq<char>)
    requires
        0 <= end <= text.len(),
        marker.len() > 0,
        occurs(text.take(end), marker),
    ensures
        first_index(text, marker) matches Some(at) && at < end,
{
    let at = choose|at: int| occurs_at(text.take(end), marker, at);
    assert(text.take(end).subrange(at, at + marker.len()) =~= text.subrange(
        at,
        at + marker.len(),
    ));
    assert(occurs_at(text, marker, at));
    lemma_first_index(text, marker);
}

/// No stray marker and no opener reaches the reader within what one move gives.
pub proof fn lemma_given_text_clean(
    grammar: Grammar,
    state: ScanState,
    flush: bool,
    marker: Seq<char>,
)
    requires
        grammar.advances(),
        grammar.block_starts.contains(marker) || grammar.orphan_markers.contains(marker) || marker
            == grammar.invoke_start,
    ensures
        !occurs(state.step(grammar, flush).given_text(), marker),
{
    let text = state.buffer;
    let given = state.step(grammar, flush).given_text();
    lemma_earliest(text, grammar.block_starts);
    lemma_earliest(text, grammar.orphan_markers);
    lemma_held_back(text, grammar.holdback_markers);
    assert(marker.len() > 0) by {
        if grammar.block_starts.contains(marker) {
            let k = choose|k: int|
                0 <= k < grammar.block_starts.len() && grammar.block_starts[k] == marker;
            assert(grammar.block_starts[k].len() > 0);
        } else if grammar.orphan_markers.contains(marker) {
            let k = choose|k: int|
                0 <= k < grammar.orphan_markers.len() && grammar.orphan_markers[k] == marker;
            assert(grammar.orphan_markers[k].len() > 0);
        }
    }
    if occurs(given, marker) {
        let end = given.len() as int;
        assert(given =~= text.take(end));
        lemma_found_in_beginning(text, end, marker);
        let at = first_index(text, marker).unwrap();
        if grammar.block_starts.contains(marker) {
            let k = choose|k: int|
                0 <= k < grammar.block_starts.len() && grammar.block_starts[k] == marker;
            assert(first_index(text, grammar.block_starts[k]) == Some(at));
            assert(earliest(text, grammar.block_starts) is Some);
        } else if grammar.orphan_markers.contains(marker) {
            let k = choose|k: int|
                0 <= k < grammar.orphan_markers.len() && grammar.orphan_markers[k] == marker;
            assert(first_index(text, grammar.orphan_markers[k]) == Some(at));
            assert(earliest(text, grammar.orphan_markers) is Some);
        }
    }
}

} // verus!
