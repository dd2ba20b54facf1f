//! What holds of scanning piece by piece: a block opens, gives its invokes and closes, and
//! text behind an invoke without a block is dropped until the markup ends.
use crate::chunking::{lemma_lists, lemma_same_marker, lemma_separable_advances};
use crate::error::ToolCallError;
use crate::response::ParseModel;
use crate::scan::{
    after_output, ending_prefix, held_back, lemma_held_back, next_opener, nothing, only_text,
    split_marker_len, BareRecoveryLatch, Grammar, InvokeEmitter, Opener, ScanState, ScanStep,
};
use crate::scan_laws::{
    is_complete_invoke, is_whole_invoke, lemma_block_opens, lemma_earliest_behind,
    lemma_first_behind, lemma_whole_invoke_taken,
};
use crate::text::{
    earliest, ends_with, first_index, lemma_earliest, lemma_earliest_bounds, lemma_first_index,
    lemma_first_index_bounds, lemma_first_index_is, lemma_found_in_rest, lemma_found_stays, occurs,
    occurs_at,
};
use vstd::prelude::*;

verus! {

broadcast use {lemma_first_index_bounds, lemma_earliest_bounds};

/// A move that does not wait for text is the same whether or not more text will arrive.
proof fn lemma_decided(grammar: Grammar, state: ScanState, flush: bool)
    requires
        !(state.step(grammar, false) is Wait),
    ensures
        state.step(grammar, flush) == state.step(grammar, false),
{
}

/// A block that opens behind plain text: the text reaches the reader, and scanning goes on
/// within the block. No text of a block reaches the reader.
pub proof fn lemma_block_opened<E: InvokeEmitter>(
    grammar: Grammar,
    opening: char,
    emitter: E,
    state: ScanState,
    text: Seq<char>,
    start: int,
    content: Seq<char>,
    flush: bool,
)
    requires
        grammar.is_separable(opening),
        state.is_idle(),
        grammar.is_plain(text),
        0 <= start < grammar.block_starts.len(),
    ensures
        state.with_more(text + (grammar.block_starts[start] + content)).run(
            grammar,
            emitter,
            flush,
        ) == after_output(
            only_text(text),
            ScanState {
                buffer: content,
                in_block: true,
                suppress_normal_text: true,
                next_index: state.next_index,
            }.run(grammar, emitter, flush),
        ),
{
    lemma_separable_advances(grammar, opening);
    lemma_block_opens(grammar, opening, state, text, start, content);
    lemma_decided(
        grammar,
        state.with_more(text + (grammar.block_starts[start] + content)),
        flush,
    );
}

/// An invoke in a block is handed over, and what stands before it is dropped. It uses up an
/// index where it gives a call; where it is malformed it gives nothing, and where it cannot be
/// read scanning stops behind it with the error.
pub proof fn lemma_block_invoke<E: InvokeEmitter>(
    grammar: Grammar,
    opening: char,
    emitter: E,
    state: ScanState,
    before: Seq<char>,
    invoke: Seq<char>,
    rest: Seq<char>,
    flush: bool,
)
    requires
        grammar.is_separable(opening),
        state.in_block,
        state.suppress_normal_text,
        state.next_index < usize::MAX,
        !occurs(before, grammar.invoke_start),
        earliest(before, grammar.block_ends) is None,
        is_whole_invoke(grammar, invoke),
        state.buffer == before + (invoke + rest),
    ensures
        state.run(grammar, emitter, flush) == (match emitter.emits(invoke, state.next_index) {
            Ok(Some(delta)) => after_output(
                ParseModel { normal_text: Seq::empty(), calls: seq![delta] },
                ScanState {
                    buffer: rest,
                    next_index: (state.next_index + 1) as usize,
                    ..state
                }.run(grammar, emitter, flush),
            ),
            Ok(None) => after_output(
                only_text(Seq::empty()),
                ScanState { buffer: rest, ..state }.run(grammar, emitter, flush),
            ),
            Err(error) => (ScanState { buffer: rest, ..state }, Err(error)),
        }),
{
    lemma_separable_advances(grammar, opening);
    lemma_lists(grammar);
    let whole = before + (invoke + rest);
    let place = before.len() as int;
    let inner = state.with_buffer(invoke + rest);
    lemma_whole_invoke_taken(grammar, opening, inner, invoke, rest);
    lemma_first_index(before, grammar.invoke_start);
    assert((invoke + rest)[0] == opening) by {
        assert(invoke.subrange(0, grammar.invoke_start.len() as int)[0] == invoke[0]);
    }
    assert((invoke + rest).subrange(0, grammar.invoke_start.len() as int) =~= invoke.subrange(
        0,
        grammar.invoke_start.len() as int,
    ));
    lemma_first_behind(before, opening, grammar.invoke_start, invoke + rest);
    lemma_earliest_behind(before, opening, grammar.block_ends, invoke + rest);
    lemma_earliest(whole, grammar.block_ends);
    lemma_first_index(whole, grammar.invoke_start);
    if let Some((at, which)) = earliest(whole, grammar.block_ends) {
        if at == place {
            let closer = grammar.block_ends[which];
            lemma_first_index(whole, closer);
            lemma_same_marker(grammar, opening, whole, grammar.invoke_start, closer, place);
            lemma_earliest(invoke, grammar.block_ends);
            lemma_first_index(invoke, closer);
        }
    }
    assert(whole.skip(place) =~= invoke + rest);
    assert((invoke + rest).skip(0) =~= invoke + rest);
    assert((invoke + rest).subrange(0, grammar.invoke_start.len() as int)
        == grammar.invoke_start);
    lemma_first_index_is(invoke + rest, grammar.invoke_start, 0);
    assert(state.step(grammar, false) == inner.step(grammar, false));
    lemma_decided(grammar, state, flush);
    let next = state.with_buffer(rest);
    assert(next.after_invoke(grammar, false, true) == ScanState {
        buffer: rest,
        next_index: (state.next_index + 1) as usize,
        ..state
    });
    assert(next.after_invoke(grammar, false, false) == ScanState { buffer: rest, ..state });
}

/// Where the family lets an invoke go over the end of its block, it is handed over with what
/// it holds.
pub proof fn lemma_block_invoke_over_end<E: InvokeEmitter>(
    grammar: Grammar,
    opening: char,
    emitter: E,
    state: ScanState,
    before: Seq<char>,
    invoke: Seq<char>,
    rest: Seq<char>,
    flush: bool,
)
    requires
        grammar.is_separable(opening),
        !grammar.drop_invoke_crossing_block_end,
        !grammar.block_ends.contains(grammar.invoke_start),
        state.in_block,
        state.suppress_normal_text,
        state.next_index < usize::MAX,
        !occurs(before, grammar.invoke_start),
        earliest(before, grammar.block_ends) is None,
        is_complete_invoke(grammar, invoke),
        state.buffer == before + (invoke + rest),
        emitter.emits(invoke, state.next_index) matches Ok(Some(_)),
    ensures
        state.run(grammar, emitter, flush) == after_output(
            ParseModel {
                normal_text: Seq::empty(),
                calls: seq![(emitter.emits(invoke, state.next_index)->Ok_0)->Some_0],
            },
            ScanState {
                buffer: rest,
                next_index: (state.next_index + 1) as usize,
                ..state
            }.run(grammar, emitter, flush),
        ),
{
    lemma_separable_advances(grammar, opening);
    lemma_lists(grammar);
    let tail = invoke + rest;
    let whole = before + tail;
    let place = before.len() as int;
    lemma_first_index(before, grammar.invoke_start);
    assert(tail[0] == opening) by {
        assert(invoke.subrange(0, grammar.invoke_start.len() as int)[0] == invoke[0]);
    }
    assert(tail.subrange(0, grammar.invoke_start.len() as int) =~= invoke.subrange(
        0,
        grammar.invoke_start.len() as int,
    ));
    lemma_first_behind(before, opening, grammar.invoke_start, tail);
    lemma_earliest_behind(before, opening, grammar.block_ends, tail);
    lemma_earliest(whole, grammar.block_ends);
    lemma_first_index(whole, grammar.invoke_start);
    if let Some((at, which)) = earliest(whole, grammar.block_ends) {
        if at == place {
            let closer = grammar.block_ends[which];
            lemma_first_index(whole, closer);
            lemma_same_marker(grammar, opening, whole, grammar.invoke_start, closer, place);
            assert(grammar.block_ends.contains(closer));
        }
    }
    assert(whole.skip(place) =~= tail);
    lemma_found_stays(invoke, rest, grammar.invoke_end);
    lemma_first_index(invoke, grammar.invoke_end);
    assert(tail.skip(invoke.len() as int) =~= rest);
    assert(tail.take(invoke.len() as int) =~= invoke);
    assert(state.step(grammar, false) == (ScanStep::Invoke {
        state: state.with_buffer(rest),
        text: Seq::empty(),
        invoke,
        bare: false,
    }));
    lemma_decided(grammar, state, flush);
    assert(state.with_buffer(rest).after_invoke(grammar, false, true) == ScanState {
        buffer: rest,
        next_index: (state.next_index + 1) as usize,
        ..state
    });
}

/// A block in which nothing is complete waits for more: what stands before an invoke is
/// dropped, and the invoke is kept.
pub proof fn lemma_block_waits<E: InvokeEmitter>(
    grammar: Grammar,
    opening: char,
    emitter: E,
    state: ScanState,
    before: Seq<char>,
    invoke: Seq<char>,
)
    requires
        grammar.is_separable(opening),
        state.in_block,
        state.buffer == before + invoke,
        !occurs(before, grammar.invoke_start),
        invoke.len() == 0 || occurs_at(invoke, grammar.invoke_start, 0),
        !occurs(invoke, grammar.invoke_end),
        earliest(before + invoke, grammar.block_ends) is None,
    ensures
        state.run(grammar, emitter, false) == (
            if invoke.len() == 0 {
                state
            } else {
                state.with_buffer(invoke)
            },
            Ok::<ParseModel, ToolCallError>(only_text(Seq::empty())),
        ),
{
    lemma_separable_advances(grammar, opening);
    lemma_lists(grammar);
    let whole = before + invoke;
    let place = before.len() as int;
    lemma_first_index(before, grammar.invoke_start);
    if invoke.len() == 0 {
        assert(whole =~= before);
    } else {
        assert(invoke[0] == opening) by {
            assert(invoke.subrange(0, grammar.invoke_start.len() as int)[0] == invoke[0]);
        }
        lemma_first_behind(before, opening, grammar.invoke_start, invoke);
        assert(whole.skip(place) =~= invoke);
        lemma_first_index(invoke, grammar.invoke_end);
        lemma_earliest(whole, grammar.block_ends);
        lemma_earliest(invoke, grammar.block_ends);
        assert forall|k: int| 0 <= k < grammar.block_ends.len() implies first_index(
            invoke,
            #[trigger] grammar.block_ends[k],
        ) is None by {
            lemma_first_index(whole, grammar.block_ends[k]);
            lemma_found_in_rest(whole, place, grammar.block_ends[k]);
        }
    }
}

/// The closer of a block closes it, and what stands before it is dropped: scanning goes on
/// outside, and text reaches the reader again.
pub proof fn lemma_block_closed<E: InvokeEmitter>(
    grammar: Grammar,
    opening: char,
    emitter: E,
    state: ScanState,
    before: Seq<char>,
    end: int,
    rest: Seq<char>,
    flush: bool,
)
    requires
        grammar.is_separable(opening),
        !grammar.block_ends.contains(grammar.invoke_start),
        state.in_block,
        !occurs(before, grammar.invoke_start),
        earliest(before, grammar.block_ends) is None,
        0 <= end < grammar.block_ends.len(),
        state.buffer == before + (grammar.block_ends[end] + rest),
    ensures
        state.run(grammar, emitter, flush) == after_output(
            only_text(Seq::empty()),
            ScanState {
                buffer: rest,
                in_block: false,
                suppress_normal_text: false,
                next_index: state.next_index,
            }.run(grammar, emitter, flush),
        ),
{
    lemma_separable_advances(grammar, opening);
    lemma_lists(grammar);
    let closer = grammar.block_ends[end];
    let tail = closer + rest;
    let whole = before + tail;
    let place = before.len() as int;
    lemma_first_index(before, grammar.invoke_start);
    assert(tail[0] == opening);
    assert(tail.subrange(0, closer.len() as int) =~= closer);
    lemma_earliest(before, grammar.block_ends);
    lemma_first_behind(before, opening, grammar.invoke_start, tail);
    lemma_first_behind(before, opening, closer, tail);
    lemma_earliest_behind(before, opening, grammar.block_ends, tail);
    lemma_earliest(whole, grammar.block_ends);
    lemma_first_index(whole, closer);
    let (at, which) = earliest(whole, grammar.block_ends).unwrap();
    assert(at == place);
    lemma_first_index(whole, grammar.block_ends[which]);
    lemma_same_marker(grammar, opening, whole, closer, grammar.block_ends[which], place);
    assert(whole.skip(place + closer.len()) =~= rest);
    assert(state.step(grammar, false) == (ScanStep::Advance {
        state: state.outside(rest),
        text: Seq::empty(),
    }));
    lemma_decided(grammar, state, flush);
}

/// An invoke without a block around it, behind plain text: the text reaches the reader and the
/// invoke is handed over. Where it gives a call, the family says whether later text is
/// dropped; where it is malformed, later text reaches the reader.
pub proof fn lemma_bare_invoke_taken<E: InvokeEmitter>(
    grammar: Grammar,
    opening: char,
    emitter: E,
    state: ScanState,
    text: Seq<char>,
    invoke: Seq<char>,
    rest: Seq<char>,
    flush: bool,
)
    requires
        grammar.is_separable(opening),
        !grammar.block_starts.contains(grammar.invoke_start),
        state.is_idle(),
        state.next_index < usize::MAX,
        grammar.is_plain(text),
        is_complete_invoke(grammar, invoke),
    ensures
        state.with_more(text + (invoke + rest)).run(grammar, emitter, flush) == (
        match emitter.emits(invoke, state.next_index) {
            Ok(Some(delta)) => after_output(
                ParseModel { normal_text: text, calls: seq![delta] },
                ScanState {
                    buffer: rest,
                    in_block: false,
                    suppress_normal_text: grammar.bare_recovery_latch
                        == BareRecoveryLatch::Suppress,
                    next_index: (state.next_index + 1) as usize,
                }.run(grammar, emitter, flush),
            ),
            Ok(None) => after_output(
                only_text(text),
                state.with_buffer(rest).run(grammar, emitter, flush),
            ),
            Err(error) => (state.with_buffer(rest), Err(error)),
        }),
{
    lemma_separable_advances(grammar, opening);
    lemma_lists(grammar);
    let tail = invoke + rest;
    let whole = text + tail;
    let first = state.with_more(whole);
    let place = text.len() as int;
    assert(first.buffer =~= whole);
    lemma_first_index(text, grammar.invoke_start);
    assert(tail[0] == opening) by {
        assert(invoke.subrange(0, grammar.invoke_start.len() as int)[0] == invoke[0]);
    }
    assert(tail.subrange(0, grammar.invoke_start.len() as int) =~= invoke.subrange(
        0,
        grammar.invoke_start.len() as int,
    ));
    lemma_first_behind(text, opening, grammar.invoke_start, tail);
    lemma_earliest_behind(text, opening, grammar.block_starts, tail);
    lemma_earliest_behind(text, opening, grammar.orphan_markers, tail);
    lemma_first_index(whole, grammar.invoke_start);
    lemma_earliest(whole, grammar.block_starts);
    if let Some((at, index)) = earliest(whole, grammar.block_starts) {
        if at == place {
            let other = grammar.block_starts[index];
            lemma_first_index(whole, other);
            lemma_same_marker(grammar, opening, whole, grammar.invoke_start, other, place);
            assert(grammar.block_starts.contains(other));
        }
    }
    assert(next_opener(grammar, whole) == Some((place, Opener::BareInvoke)));
    lemma_found_stays(invoke, rest, grammar.invoke_end);
    lemma_first_index(invoke, grammar.invoke_end);
    assert(whole.skip(place) =~= tail);
    assert(whole.take(place) =~= text);
    assert(tail.skip(invoke.len() as int) =~= rest);
    assert(tail.take(invoke.len() as int) =~= invoke);
    let next = first.with_buffer(rest);
    assert(first.step(grammar, false) == (ScanStep::Invoke { state: next, text, invoke, bare: true }
    ));
    lemma_decided(grammar, first, flush);
    assert(next == state.with_buffer(rest));
    assert(next.after_invoke(grammar, true, false) == next);
    assert(next.after_invoke(grammar, true, true) == ScanState {
        buffer: rest,
        in_block: false,
        suppress_normal_text: grammar.bare_recovery_latch == BareRecoveryLatch::Suppress,
        next_index: (state.next_index + 1) as usize,
    });
}

/// An invoke without a block around it whose closer has not arrived, behind plain text: the
/// text reaches the reader, and the invoke waits for its closer. At the end of the stream it
/// is dropped.
pub proof fn lemma_bare_invoke_waits<E: InvokeEmitter>(
    grammar: Grammar,
    opening: char,
    emitter: E,
    state: ScanState,
    text: Seq<char>,
    invoke: Seq<char>,
)
    requires
        grammar.is_separable(opening),
        !grammar.block_starts.contains(grammar.invoke_start),
        state.is_idle(),
        grammar.is_plain(text),
        occurs_at(invoke, grammar.invoke_start, 0),
        !occurs(invoke, grammar.invoke_end),
    ensures
        state.with_more(text + invoke).run(grammar, emitter, false) == (
            state.with_buffer(invoke),
            Ok::<ParseModel, ToolCallError>(only_text(text)),
        ),
        state.with_more(text + invoke).run(grammar, emitter, true) == (
            state,
            Ok::<ParseModel, ToolCallError>(only_text(text)),
        ),
{
    lemma_separable_advances(grammar, opening);
    lemma_lists(grammar);
    let whole = text + invoke;
    let first = state.with_more(whole);
    let place = text.len() as int;
    assert(first.buffer =~= whole);
    lemma_first_index(text, grammar.invoke_start);
    assert(invoke[0] == opening) by {
        assert(invoke.subrange(0, grammar.invoke_start.len() as int)[0] == invoke[0]);
    }
    lemma_first_behind(text, opening, grammar.invoke_start, invoke);
    lemma_earliest_behind(text, opening, grammar.block_starts, invoke);
    lemma_earliest_behind(text, opening, grammar.orphan_markers, invoke);
    lemma_first_index(whole, grammar.invoke_start);
    lemma_earliest(whole, grammar.block_starts);
    if let Some((at, index)) = earliest(whole, grammar.block_starts) {
        if at == place {
            let other = grammar.block_starts[index];
            lemma_first_index(whole, other);
            lemma_same_marker(grammar, opening, whole, grammar.invoke_start, other, place);
            assert(grammar.block_starts.contains(other));
        }
    }
    assert(next_opener(grammar, whole) == Some((place, Opener::BareInvoke)));
    lemma_first_index(invoke, grammar.invoke_end);
    assert(whole.skip(place) =~= invoke);
    assert(whole.take(place) =~= text);
    assert(state.with_buffer(Seq::empty()) =~= state);
}

/// While text is dropped, plain text gives nothing, and nothing of it is left at the end of
/// the stream.
pub proof fn lemma_suppressed_text<E: InvokeEmitter>(
    grammar: Grammar,
    emitter: E,
    state: ScanState,
    text: Seq<char>,
)
    requires
        grammar.advances(),
        !state.in_block,
        state.suppress_normal_text,
        state.buffer == text,
        grammar.is_plain(text),
    ensures
        state.run(grammar, emitter, false) == (
            state.with_buffer(grammar.kept(text)),
            Ok::<ParseModel, ToolCallError>(only_text(Seq::empty())),
        ),
        state.run(grammar, emitter, true) == (
            state.with_buffer(Seq::empty()),
            Ok::<ParseModel, ToolCallError>(only_text(Seq::empty())),
        ),
{
    lemma_held_back(text, grammar.holdback_markers);
    lemma_first_index(text, grammar.invoke_start);
    assert(next_opener(grammar, text) is None);
    assert(text.skip(text.len() as int) =~= Seq::empty());
}

/// While text is dropped, a stray marker ends the markup: what stands before it is dropped,
/// and what stands behind it reaches the reader.
pub proof fn lemma_suppression_ends<E: InvokeEmitter>(
    grammar: Grammar,
    opening: char,
    emitter: E,
    state: ScanState,
    text: Seq<char>,
    stray: int,
    rest: Seq<char>,
    flush: bool,
)
    requires
        grammar.is_separable(opening),
        !state.in_block,
        state.suppress_normal_text,
        grammar.is_plain(text),
        0 <= stray < grammar.orphan_markers.len(),
        !grammar.block_starts.contains(grammar.orphan_markers[stray]),
        grammar.orphan_markers[stray] != grammar.invoke_start,
        state.buffer == text + (grammar.orphan_markers[stray] + rest),
    ensures
        state.run(grammar, emitter, flush) == after_output(
            only_text(Seq::empty()),
            ScanState {
                buffer: rest,
                in_block: false,
                suppress_normal_text: false,
                next_index: state.next_index,
            }.run(grammar, emitter, flush),
        ),
{
    lemma_separable_advances(grammar, opening);
    lemma_stray_first(grammar, opening, text, stray, rest);
    let marker = grammar.orphan_markers[stray];
    let whole = text + (marker + rest);
    assert(whole.skip((text.len() + marker.len()) as int) =~= rest);
    assert(state.step(grammar, false) == (ScanStep::Advance {
        state: state.outside(rest),
        text: Seq::empty(),
    }));
    lemma_decided(grammar, state, flush);
}

/// A stray marker behind plain text is removed: the text reaches the reader, and scanning
/// goes on behind the marker.
pub proof fn lemma_stray_removed<E: InvokeEmitter>(
    grammar: Grammar,
    opening: char,
    emitter: E,
    state: ScanState,
    text: Seq<char>,
    stray: int,
    rest: Seq<char>,
    flush: bool,
)
    requires
        grammar.is_separable(opening),
        state.is_idle(),
        grammar.is_plain(text),
        0 <= stray < grammar.orphan_markers.len(),
        !grammar.block_starts.contains(grammar.orphan_markers[stray]),
        grammar.orphan_markers[stray] != grammar.invoke_start,
    ensures
        state.with_more(text + (grammar.orphan_markers[stray] + rest)).run(
            grammar,
            emitter,
            flush,
        ) == after_output(only_text(text), state.with_buffer(rest).run(grammar, emitter, flush)),
{
    lemma_separable_advances(grammar, opening);
    lemma_stray_first(grammar, opening, text, stray, rest);
    let marker = grammar.orphan_markers[stray];
    let whole = text + (marker + rest);
    let first = state.with_more(whole);
    assert(first.buffer =~= whole);
    assert(whole.skip((text.len() + marker.len()) as int) =~= rest);
    assert(whole.take(text.len() as int) =~= text);
    assert(first.outside(rest) == state.with_buffer(rest));
    assert(first.step(grammar, false) == (ScanStep::Advance {
        state: state.with_buffer(rest),
        text,
    }));
    lemma_decided(grammar, first, flush);
}

/// A stray marker behind plain text comes before any opener.
proof fn lemma_stray_first(
    grammar: Grammar,
    opening: char,
    text: Seq<char>,
    stray: int,
    rest: Seq<char>,
)
    requires
        grammar.is_separable(opening),
        grammar.is_plain(text),
        0 <= stray < grammar.orphan_markers.len(),
        !grammar.block_starts.contains(grammar.orphan_markers[stray]),
        grammar.orphan_markers[stray] != grammar.invoke_start,
    ensures
        ({
            let marker = grammar.orphan_markers[stray];
            let whole = text + (marker + rest);
            &&& earliest(whole, grammar.orphan_markers) matches Some((at, which)) && at
                == text.len() && grammar.orphan_markers[which] == marker
            &&& next_opener(grammar, whole) matches Some((open, _)) ==> text.len() < open
        }),
{
    lemma_lists(grammar);
    let marker = grammar.orphan_markers[stray];
    let tail = marker + rest;
    let whole = text + tail;
    let place = text.len() as int;
    assert(tail[0] == opening);
    assert(tail.subrange(0, marker.len() as int) =~= marker);
    lemma_earliest(text, grammar.orphan_markers);
    lemma_first_index(text, grammar.invoke_start);
    lemma_first_behind(text, opening, marker, tail);
    lemma_first_behind(text, opening, grammar.invoke_start, tail);
    lemma_earliest_behind(text, opening, grammar.orphan_markers, tail);
    lemma_earliest_behind(text, opening, grammar.block_starts, tail);
    lemma_first_index(whole, marker);
    lemma_earliest(whole, grammar.orphan_markers);
    let (at, which) = earliest(whole, grammar.orphan_markers).unwrap();
    lemma_first_index(whole, grammar.orphan_markers[which]);
    lemma_same_marker(grammar, opening, whole, marker, grammar.orphan_markers[which], place);
    lemma_first_index(whole, grammar.invoke_start);
    if first_index(whole, grammar.invoke_start) == Some(place) {
        lemma_same_marker(grammar, opening, whole, marker, grammar.invoke_start, place);
    }
    lemma_earliest(whole, grammar.block_starts);
    if let Some((open, index)) = earliest(whole, grammar.block_starts) {
        if open == place {
            lemma_first_index(whole, grammar.block_starts[index]);
            lemma_same_marker(
                grammar,
                opening,
                whole,
                marker,
                grammar.block_starts[index],
                place,
            );
            assert(grammar.block_starts.contains(grammar.block_starts[index]));
        }
    }
}

/// What is held back of a text is the beginning of a marker, shorter than the marker; and no
/// longer beginning of a marker stands at the end of the text.
pub proof fn lemma_kept_is_beginning(grammar: Grammar, text: Seq<char>)
    ensures
        grammar.kept(text).len() > 0 ==> exists|k: int|
            {
                &&& 0 <= k < grammar.holdback_markers.len()
                &&& grammar.kept(text).len() < (#[trigger] grammar.holdback_markers[k]).len()
                &&& grammar.kept(text) == grammar.holdback_markers[k].take(
                    grammar.kept(text).len() as int,
                )
            },
        forall|k: int, n: int|
            0 <= k < grammar.holdback_markers.len() && 0 < n < grammar.holdback_markers[k].len()
                && ends_with(text, #[trigger] grammar.holdback_markers[k].take(n)) ==> n
                <= grammar.kept(text).len(),
{
    lemma_held_back(text, grammar.holdback_markers);
    lemma_held_back_is_beginning(text, grammar.holdback_markers);
}

proof fn lemma_held_back_is_beginning(text: Seq<char>, markers: Seq<Seq<char>>)
    ensures
        ({
            let count = held_back(text, markers) as int;
            count > 0 ==> exists|k: int|
                {
                    &&& 0 <= k < markers.len()
                    &&& count < (#[trigger] markers[k]).len()
                    &&& text.skip(text.len() - count) == markers[k].take(count)
                }
        }),
    decreases markers.len(),
{
    if markers.len() > 0 {
        let start = markers.drop_last();
        let marker = markers.last();
        let count = held_back(text, markers) as int;
        lemma_held_back_is_beginning(text, start);
        assert(marker == markers[markers.len() - 1]);
        if held_back(text, start) < split_marker_len(text, marker) {
            lemma_split_is_beginning(text, marker, (marker.len() - 1) as nat);
        } else if count > 0 {
            let k = choose|k: int|
                {
                    &&& 0 <= k < start.len()
                    &&& count < (#[trigger] start[k]).len()
                    &&& text.skip(text.len() - count) == start[k].take(count)
                };
            assert(markers[k] == start[k]);
        }
    }
}

proof fn lemma_split_is_beginning(text: Seq<char>, marker: Seq<char>, limit: nat)
    requires
        limit < marker.len(),
    ensures
        ({
            let count = ending_prefix(text, marker, limit) as int;
            &&& count <= limit
            &&& count > 0 ==> text.skip(text.len() - count) == marker.take(count)
        }),
    decreases limit,
{
    if limit > 0 && !ends_with(text, marker.take(limit as int)) {
        lemma_split_is_beginning(text, marker, (limit - 1) as nat);
    }
}

} // verus!
