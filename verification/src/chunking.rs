//! Scanning does not depend on how a stream is cut into chunks.
//!
//! This holds of every grammar whose markers can be told apart as they arrive:
//! each begins with a character that occurs nowhere else in a marker, and none is
//! the beginning of another.
use crate::error::ToolCallError;
use crate::response::ParseModel;
use crate::scan::{
    after_output, ending_prefix, held_back, is_stray, lemma_held_back, lemma_output_associates,
    lies_before, next_opener, nothing, only_text, Grammar, InvokeEmitter, Opener, ScanState,
    ScanStep,
};
use crate::text::{
    earliest, ends_with, first_index, lemma_earliest, lemma_earliest_bounds, lemma_first_index,
    lemma_first_index_bounds, lemma_first_index_is, lemma_found_in_rest, lemma_found_stays,
    lemma_occurs_in_longer, occurs, occurs_at,
};
use vstd::prelude::*;

verus! {

broadcast use {lemma_first_index_bounds, lemma_earliest_bounds};

/// `marker` begins with `opening`, which occurs nowhere else in it.
pub open spec fn is_fenced(marker: Seq<char>, opening: char) -> bool {
    &&& marker.len() > 0
    &&& marker[0] == opening
    &&& forall|i: int| 0 < i < marker.len() ==> (#[trigger] marker[i]) != opening
}

/// `start` is what `text` begins with.
pub open spec fn is_beginning(start: Seq<char>, text: Seq<char>) -> bool {
    start.len() <= text.len() && text.take(start.len() as int) == start
}

/// `marker` begins with `<` and ends with `>`, and holds them nowhere else.
pub open spec fn is_tag(marker: Seq<char>) -> bool {
    &&& is_fenced(marker, '<')
    &&& marker.last() == '>'
    &&& forall|at: int| 0 <= at < marker.len() - 1 ==> (#[trigger] marker[at]) != '>'
}

/// No tag is the beginning of another.
pub proof fn lemma_tags_differ(one: Seq<char>, other: Seq<char>)
    requires
        is_tag(one),
        is_tag(other),
        is_beginning(one, other),
    ensures
        one == other,
{
    assert(other.take(one.len() as int)[one.len() - 1] == other[one.len() - 1]);
    assert(one =~= other);
}

impl Grammar {
    /// A marker that scanning looks for.
    pub open spec fn is_marker(self, marker: Seq<char>) -> bool {
        ||| self.block_starts.contains(marker)
        ||| self.block_ends.contains(marker)
        ||| self.orphan_markers.contains(marker)
        ||| marker == self.invoke_start
        ||| marker == self.invoke_end
    }

    /// The markers can be told apart as they arrive, and each marker that
    /// scanning looks for outside of blocks is held back.
    pub open spec fn is_separable(self, opening: char) -> bool {
        &&& forall|marker: Seq<char>| #[trigger]
            self.is_marker(marker) ==> is_fenced(marker, opening)
        &&& forall|one: Seq<char>, other: Seq<char>|
            #![trigger self.is_marker(one), self.is_marker(other)]
            self.is_marker(one) && self.is_marker(other) && is_beginning(one, other) ==> one
                == other
        &&& forall|k: int|
            0 <= k < self.block_starts.len() ==> self.holdback_markers.contains(
                #[trigger] self.block_starts[k],
            )
        &&& forall|k: int|
            0 <= k < self.orphan_markers.len() ==> self.holdback_markers.contains(
                #[trigger] self.orphan_markers[k],
            )
        &&& self.holdback_markers.contains(self.invoke_start)
    }
}

/// A separable grammar has no empty marker.
pub proof fn lemma_separable_advances(grammar: Grammar, opening: char)
    requires
        grammar.is_separable(opening),
    ensures
        grammar.advances(),
{
    assert(grammar.is_marker(grammar.invoke_start));
    assert(grammar.is_marker(grammar.invoke_end));
    assert forall|k: int| 0 <= k < grammar.block_starts.len() implies (
    #[trigger] grammar.block_starts[k]).len() > 0 by {
        assert(grammar.is_marker(grammar.block_starts[k]));
    }
    assert forall|k: int| 0 <= k < grammar.block_ends.len() implies (
    #[trigger] grammar.block_ends[k]).len() > 0 by {
        assert(grammar.is_marker(grammar.block_ends[k]));
    }
    assert forall|k: int| 0 <= k < grammar.orphan_markers.len() implies (
    #[trigger] grammar.orphan_markers[k]).len() > 0 by {
        assert(grammar.is_marker(grammar.orphan_markers[k]));
    }
}

/// No marker that more text completes begins at or before a complete marker.
proof fn lemma_completed_later(
    grammar: Grammar,
    opening: char,
    text: Seq<char>,
    more: Seq<char>,
    complete: Seq<char>,
    at: int,
    marker: Seq<char>,
    begins: int,
)
    requires
        grammar.is_separable(opening),
        grammar.is_marker(complete),
        grammar.is_marker(marker),
        occurs_at(text, complete, at),
        occurs_at(text + more, marker, begins),
        begins <= at,
    ensures
        occurs_at(text, marker, begins),
{
    lemma_occurs_in_longer(text, more, marker, begins);
    let longer = text + more;
    if begins + marker.len() > text.len() {
        assert(longer.subrange(begins, begins + marker.len())[at - begins] == marker[at - begins]);
        assert(text.subrange(at, at + complete.len())[0] == complete[0]);
        assert(longer[at] == text[at]);
        assert(begins == at);
        assert(marker.take(complete.len() as int) =~= complete) by {
            assert forall|i: int| 0 <= i < complete.len() implies marker[i] == complete[i] by {
                assert(longer.subrange(begins, begins + marker.len())[i] == marker[i]);
                assert(text.subrange(at, at + complete.len())[i] == complete[i]);
            }
        }
        assert(is_beginning(complete, marker));
    }
}

/// Two markers at the same position are the same.
pub(crate) proof fn lemma_same_marker(
    grammar: Grammar,
    opening: char,
    text: Seq<char>,
    one: Seq<char>,
    other: Seq<char>,
    at: int,
)
    requires
        grammar.is_separable(opening),
        grammar.is_marker(one),
        grammar.is_marker(other),
        occurs_at(text, one, at),
        occurs_at(text, other, at),
    ensures
        one == other,
{
    if one.len() <= other.len() {
        assert(other.take(one.len() as int) =~= one) by {
            assert forall|i: int| 0 <= i < one.len() implies other[i] == one[i] by {
                assert(text.subrange(at, at + one.len())[i] == one[i]);
                assert(text.subrange(at, at + other.len())[i] == other[i]);
            }
        }
        assert(is_beginning(one, other));
    } else {
        assert(one.take(other.len() as int) =~= other) by {
            assert forall|i: int| 0 <= i < other.len() implies other[i] == one[i] by {
                assert(text.subrange(at, at + one.len())[i] == one[i]);
                assert(text.subrange(at, at + other.len())[i] == other[i]);
            }
        }
        assert(is_beginning(other, one));
    }
}

/// A marker that was not found is found, if at all, behind every complete marker.
pub(crate) proof fn lemma_found_later(
    grammar: Grammar,
    opening: char,
    text: Seq<char>,
    more: Seq<char>,
    complete: Seq<char>,
    at: int,
    marker: Seq<char>,
)
    requires
        grammar.is_separable(opening),
        grammar.is_marker(complete),
        grammar.is_marker(marker),
        first_index(text, complete) == Some(at),
        first_index(text, marker) is None,
    ensures
        first_index(text + more, marker) matches Some(found) ==> at < found,
{
    lemma_first_index(text, complete);
    lemma_first_index(text, marker);
    lemma_first_index(text + more, marker);
    if let Some(found) = first_index(text + more, marker) {
        if found <= at {
            lemma_completed_later(
                grammar,
                opening,
                text,
                more,
                complete,
                at,
                marker,
                found,
            );
        }
    }
}

/// What is found first among several markers stays the same when more text
/// follows.
proof fn lemma_earliest_stays(
    grammar: Grammar,
    opening: char,
    text: Seq<char>,
    more: Seq<char>,
    markers: Seq<Seq<char>>,
)
    requires
        grammar.is_separable(opening),
        forall|k: int| 0 <= k < markers.len() ==> grammar.is_marker(#[trigger] markers[k]),
    ensures
        earliest(text, markers) is Some ==> earliest(text + more, markers) == earliest(
            text,
            markers,
        ),
{
    lemma_earliest(text, markers);
    lemma_earliest(text + more, markers);
    if let Some((at, which)) = earliest(text, markers) {
        let longer = text + more;
        lemma_found_stays(text, more, markers[which]);
        let (found, index) = earliest(longer, markers).unwrap();
        assert(first_index(longer, markers[which]) == Some(at));
        lemma_found_stays(text, more, markers[index]);
        if first_index(text, markers[index]) is None {
            lemma_found_later(
                grammar,
                opening,
                text,
                more,
                markers[which],
                at,
                markers[index],
            );
        }
    }
}

/// Where none of several markers was found, one that is found once more text
/// follows stands behind every complete marker.
pub(crate) proof fn lemma_earliest_later(
    grammar: Grammar,
    opening: char,
    text: Seq<char>,
    more: Seq<char>,
    complete: Seq<char>,
    at: int,
    markers: Seq<Seq<char>>,
)
    requires
        grammar.is_separable(opening),
        forall|k: int| 0 <= k < markers.len() ==> grammar.is_marker(#[trigger] markers[k]),
        grammar.is_marker(complete),
        first_index(text, complete) == Some(at),
        earliest(text, markers) is None,
    ensures
        earliest(text + more, markers) matches Some((found, _)) ==> at < found,
{
    lemma_earliest(text, markers);
    lemma_earliest(text + more, markers);
    if let Some((found, index)) = earliest(text + more, markers) {
        lemma_found_later(grammar, opening, text, more, complete, at, markers[index]);
    }
}

/// The markers of each list are markers of the grammar.
pub(crate) proof fn lemma_lists(grammar: Grammar)
    ensures
        grammar.is_marker(grammar.invoke_start),
        grammar.is_marker(grammar.invoke_end),
        forall|k: int|
            0 <= k < grammar.block_starts.len() ==> grammar.is_marker(
                #[trigger] grammar.block_starts[k],
            ),
        forall|k: int|
            0 <= k < grammar.block_ends.len() ==> grammar.is_marker(
                #[trigger] grammar.block_ends[k],
            ),
        forall|k: int|
            0 <= k < grammar.orphan_markers.len() ==> grammar.is_marker(
                #[trigger] grammar.orphan_markers[k],
            ),
{
}

/// An opener that was found stays the next one when more text follows.
proof fn lemma_opener_stays(grammar: Grammar, opening: char, text: Seq<char>, more: Seq<char>)
    requires
        grammar.is_separable(opening),
    ensures
        next_opener(grammar, text) is Some ==> next_opener(grammar, text + more) == next_opener(
            grammar,
            text,
        ),
{
    lemma_lists(grammar);
    lemma_earliest(text, grammar.block_starts);
    lemma_earliest_stays(grammar, opening, text, more, grammar.block_starts);
    lemma_found_stays(text, more, grammar.invoke_start);
    match (earliest(text, grammar.block_starts), first_index(text, grammar.invoke_start)) {
        (Some((at, which)), None) => {
            lemma_found_later(
                grammar,
                opening,
                text,
                more,
                grammar.block_starts[which],
                at,
                grammar.invoke_start,
            );
        },
        (None, Some(at)) => {
            lemma_earliest_later(
                grammar,
                opening,
                text,
                more,
                grammar.invoke_start,
                at,
                grammar.block_starts,
            );
        },
        _ => {},
    }
}

/// Where no opener was found, one that is found once more text follows stands
/// behind every complete marker.
proof fn lemma_opener_later(
    grammar: Grammar,
    opening: char,
    text: Seq<char>,
    more: Seq<char>,
    complete: Seq<char>,
    at: int,
)
    requires
        grammar.is_separable(opening),
        grammar.is_marker(complete),
        first_index(text, complete) == Some(at),
        next_opener(grammar, text) is None,
    ensures
        is_stray(at, next_opener(grammar, text + more)),
{
    lemma_lists(grammar);
    lemma_earliest_later(grammar, opening, text, more, complete, at, grammar.block_starts);
    lemma_found_later(grammar, opening, text, more, complete, at, grammar.invoke_start);
}

impl ScanStep {
    /// The same move with more text behind it.
    pub open spec fn with_more(self, more: Seq<char>) -> ScanStep {
        match self {
            ScanStep::Wait { state, text } => ScanStep::Wait {
                state: state.with_more(more),
                text,
            },
            ScanStep::Advance { state, text } => ScanStep::Advance {
                state: state.with_more(more),
                text,
            },
            ScanStep::Invoke { state, text, invoke, bare } => ScanStep::Invoke {
                state: state.with_more(more),
                text,
                invoke,
                bare,
            },
        }
    }

    /// The same move with more text before what it gives.
    pub open spec fn with_text_before(self, before: Seq<char>) -> ScanStep {
        match self {
            ScanStep::Wait { state, text } => ScanStep::Wait { state, text: before + text },
            ScanStep::Advance { state, text } => ScanStep::Advance { state, text: before + text },
            ScanStep::Invoke { state, text, invoke, bare } => ScanStep::Invoke {
                state,
                text: before + text,
                invoke,
                bare,
            },
        }
    }
}

proof fn lemma_split_longer(text: Seq<char>, more: Seq<char>, at: int)
    requires
        0 <= at <= text.len(),
    ensures
        (text + more).skip(at) == text.skip(at) + more,
        (text + more).take(at) == text.take(at),
{
    assert((text + more).skip(at) =~= text.skip(at) + more);
    assert((text + more).take(at) =~= text.take(at));
}

/// A move within an invoke is the same when more text follows.
proof fn lemma_invoke_step_stays(
    grammar: Grammar,
    opening: char,
    state: ScanState,
    more: Seq<char>,
)
    requires
        grammar.is_separable(opening),
        state.step_invoke_in_block(grammar, false) !is Wait,
    ensures
        state.with_more(more).step_invoke_in_block(grammar, false) == state.step_invoke_in_block(
            grammar,
            false,
        ).with_more(more),
{
    let text = state.buffer;
    lemma_lists(grammar);
    lemma_found_stays(text, more, grammar.invoke_end);
    lemma_earliest_stays(grammar, opening, text, more, grammar.block_ends);
    let close = first_index(text, grammar.invoke_end);
    if let Some(close) = close {
        lemma_split_longer(text, more, close + grammar.invoke_end.len());
    }
    match earliest(text, grammar.block_ends) {
        None => {
            let close = close.unwrap();
            lemma_earliest_later(
                grammar,
                opening,
                text,
                more,
                grammar.invoke_end,
                close,
                grammar.block_ends,
            );
        },
        Some((at, which)) => {
            lemma_split_longer(text, more, at + grammar.block_ends[which].len());
            if close is None {
                lemma_earliest(text, grammar.block_ends);
                lemma_found_later(
                    grammar,
                    opening,
                    text,
                    more,
                    grammar.block_ends[which],
                    at,
                    grammar.invoke_end,
                );
            }
        },
    }
}

/// A block that was seen to close, or an invoke that was seen to open in it, is
/// still what comes first when more text follows.
proof fn lemma_block_decision_stays(
    grammar: Grammar,
    opening: char,
    text: Seq<char>,
    more: Seq<char>,
)
    requires
        grammar.is_separable(opening),
    ensures
        first_index(text, grammar.invoke_start) matches Some(open) ==> {
            &&& first_index(text + more, grammar.invoke_start) == Some(open)
            &&& match earliest(text, grammar.block_ends) {
                Some((at, which)) => earliest(text + more, grammar.block_ends) == Some((at, which)),
                None => match earliest(text + more, grammar.block_ends) {
                    Some((at, _)) => open < at,
                    None => true,
                },
            }
        },
        (first_index(text, grammar.invoke_start) is None && earliest(
            text,
            grammar.block_ends,
        ) is Some) ==> {
            &&& earliest(text + more, grammar.block_ends) == earliest(text, grammar.block_ends)
            &&& !lies_before(
                first_index(text + more, grammar.invoke_start),
                earliest(text, grammar.block_ends).unwrap().0,
            )
        },
{
    lemma_lists(grammar);
    lemma_earliest(text, grammar.block_ends);
    lemma_found_stays(text, more, grammar.invoke_start);
    lemma_earliest_stays(grammar, opening, text, more, grammar.block_ends);
    match (first_index(text, grammar.invoke_start), earliest(text, grammar.block_ends)) {
        (Some(open), None) => {
            lemma_earliest_later(
                grammar,
                opening,
                text,
                more,
                grammar.invoke_start,
                open,
                grammar.block_ends,
            );
        },
        (None, Some((at, which))) => {
            lemma_found_later(
                grammar,
                opening,
                text,
                more,
                grammar.block_ends[which],
                at,
                grammar.invoke_start,
            );
        },
        _ => {},
    }
}

/// A move that used something up is the same when more text follows.
proof fn lemma_step_stays(grammar: Grammar, opening: char, state: ScanState, more: Seq<char>)
    requires
        grammar.is_separable(opening),
        state.step(grammar, false) !is Wait,
    ensures
        state.with_more(more).step(grammar, false) == state.step(grammar, false).with_more(more),
{
    let text = state.buffer;
    lemma_lists(grammar);
    if state.in_block {
        lemma_block_decision_stays(grammar, opening, text, more);
        match (earliest(text, grammar.block_ends), first_index(text, grammar.invoke_start)) {
            (Some((at, which)), open) if !lies_before(open, at) => {
                lemma_split_longer(text, more, at + grammar.block_ends[which].len());
            },
            (_, Some(open)) => {
                lemma_split_longer(text, more, open);
                lemma_invoke_step_stays(
                    grammar,
                    opening,
                    state.with_buffer(text.skip(open)),
                    more,
                );
            },
            _ => {},
        }
    } else {
        lemma_earliest(text, grammar.orphan_markers);
        lemma_earliest_stays(grammar, opening, text, more, grammar.orphan_markers);
        lemma_opener_stays(grammar, opening, text, more);
        match (earliest(text, grammar.orphan_markers), next_opener(grammar, text)) {
            (Some((at, which)), opener) if is_stray(at, opener) => {
                if opener is None {
                    lemma_opener_later(
                        grammar,
                        opening,
                        text,
                        more,
                        grammar.orphan_markers[which],
                        at,
                    );
                }
                lemma_split_longer(text, more, at);
                lemma_split_longer(text, more, at + grammar.orphan_markers[which].len());
            },
            (orphan, Some((at, Opener::Block(which)))) => {
                lemma_earliest(text, grammar.block_starts);
                if orphan is None {
                    lemma_earliest_later(
                        grammar,
                        opening,
                        text,
                        more,
                        grammar.block_starts[which],
                        at,
                        grammar.orphan_markers,
                    );
                }
                lemma_split_longer(text, more, at);
                lemma_split_longer(text, more, at + grammar.block_starts[which].len());
            },
            (orphan, Some((at, Opener::BareInvoke))) => {
                if orphan is None {
                    lemma_earliest_later(
                        grammar,
                        opening,
                        text,
                        more,
                        grammar.invoke_start,
                        at,
                        grammar.orphan_markers,
                    );
                }
                lemma_split_longer(text, more, at);
                let rest = text.skip(at);
                lemma_found_stays(rest, more, grammar.invoke_end);
                let close = first_index(rest, grammar.invoke_end).unwrap();
                lemma_split_longer(rest, more, close + grammar.invoke_end.len());
            },
            _ => {},
        }
    }
}

/// Where none of several markers stands before `from`, the first is found in the
/// rest.
proof fn lemma_earliest_in_rest(text: Seq<char>, from: int, markers: Seq<Seq<char>>)
    requires
        0 <= from <= text.len(),
        forall|k: int, at: int|
            0 <= k < markers.len() && 0 <= at < from ==> !#[trigger] occurs_at(
                text,
                markers[k],
                at,
            ),
    ensures
        earliest(text, markers) == (match earliest(text.skip(from), markers) {
            Some((at, which)) => Some((from + at, which)),
            None => None,
        }),
    decreases markers.len(),
{
    if markers.len() > 0 {
        let start = markers.drop_last();
        assert forall|k: int, at: int|
            0 <= k < start.len() && 0 <= at < from implies !#[trigger] occurs_at(
            text,
            start[k],
            at,
        ) by {
            assert(start[k] == markers[k]);
        }
        lemma_earliest_in_rest(text, from, start);
        assert(markers.last() == markers[markers.len() - 1]);
        lemma_found_in_rest(text, from, markers.last());
    }
}

/// Where no marker is begun before `from`, what is held back is held back of the
/// rest.
proof fn lemma_held_back_in_rest(text: Seq<char>, from: int, markers: Seq<Seq<char>>)
    requires
        0 <= from <= text.len(),
        forall|k: int, n: int|
            0 <= k < markers.len() && text.len() - from < n < markers[k].len() ==> !ends_with(
                text,
                #[trigger] markers[k].take(n),
            ),
    ensures
        held_back(text, markers) == held_back(text.skip(from), markers),
    decreases markers.len(),
{
    if markers.len() > 0 {
        let start = markers.drop_last();
        let marker = markers.last();
        assert(marker == markers[markers.len() - 1]);
        assert forall|k: int, n: int|
            0 <= k < start.len() && text.len() - from < n < start[k].len() implies !ends_with(
            text,
            #[trigger] start[k].take(n),
        ) by {
            assert(start[k] == markers[k]);
        }
        lemma_held_back_in_rest(text, from, start);
        if marker.len() > 0 {
            lemma_ending_prefix_in_rest(text, from, marker, (marker.len() - 1) as nat);
        }
    }
}

proof fn lemma_ending_prefix_in_rest(text: Seq<char>, from: int, marker: Seq<char>, limit: nat)
    requires
        0 <= from <= text.len(),
        limit <= marker.len(),
        forall|n: int|
            text.len() - from < n <= limit ==> !ends_with(text, #[trigger] marker.take(n)),
    ensures
        ending_prefix(text, marker, limit) == ending_prefix(text.skip(from), marker, limit),
    decreases limit,
{
    if limit > 0 {
        let start = marker.take(limit as int);
        if limit <= text.len() - from {
            assert(text.skip(from).skip(text.skip(from).len() - limit) =~= text.skip(
                text.len() - limit,
            ));
        }
        assert(ends_with(text, start) == ends_with(text.skip(from), start));
        lemma_ending_prefix_in_rest(text, from, marker, (limit - 1) as nat);
    }
}

/// Where a marker was not found and is held back, it does not begin in what is let
/// through, whatever text follows.
pub proof fn lemma_nothing_let_through(
    text: Seq<char>,
    more: Seq<char>,
    markers: Seq<Seq<char>>,
    marker: Seq<char>,
    at: int,
)
    requires
        markers.contains(marker),
        first_index(text, marker) is None,
        0 <= at < text.len() - held_back(text, markers),
        marker.len() > 0,
    ensures
        !occurs_at(text + more, marker, at),
{
    let longer = text + more;
    lemma_first_index(text, marker);
    lemma_held_back(text, markers);
    if occurs_at(longer, marker, at) {
        lemma_occurs_in_longer(text, more, marker, at);
        let count = text.len() - at;
        assert(0 < count < marker.len());
        assert(text.skip(at) =~= marker.take(count)) by {
            assert forall|i: int| 0 <= i < count implies text.skip(at)[i] == marker.take(
                count,
            )[i] by {
                assert(longer.subrange(at, at + marker.len())[i] == marker[i]);
            }
        }
        let k = choose|k: int| 0 <= k < markers.len() && markers[k] == marker;
        assert(ends_with(text, markers[k].take(count)));
    }
}

/// The move after text was let through outside of a block is the move that would
/// have come without letting it through, but for that text.
proof fn lemma_text_wait(grammar: Grammar, opening: char, state: ScanState, more: Seq<char>)
    requires
        grammar.is_separable(opening),
        !state.in_block,
        next_opener(grammar, state.buffer) is None,
        earliest(state.buffer, grammar.orphan_markers) is None,
    ensures
        ({
            let from = state.buffer.len() - held_back(state.buffer, grammar.holdback_markers);
            state.with_more(more).step(grammar, false) == state.with_buffer(
                state.buffer.skip(from),
            ).with_more(more).step(grammar, false).with_text_before(
                state.visible(state.buffer.take(from)),
            )
        }),
{
    let text = state.buffer;
    let markers = grammar.holdback_markers;
    lemma_held_back(text, markers);
    let from = text.len() - held_back(text, markers);
    let longer = text + more;
    let rest = longer.skip(from);
    lemma_lists(grammar);
    lemma_split_longer(text, more, from);
    lemma_earliest(text, grammar.block_starts);
    lemma_earliest(text, grammar.orphan_markers);
    assert forall|k: int, at: int|
        0 <= k < grammar.block_starts.len() && 0 <= at < from implies !#[trigger] occurs_at(
        longer,
        grammar.block_starts[k],
        at,
    ) by {
        lemma_nothing_let_through(text, more, markers, grammar.block_starts[k], at);
    }
    assert forall|k: int, at: int|
        0 <= k < grammar.orphan_markers.len() && 0 <= at < from implies !#[trigger] occurs_at(
        longer,
        grammar.orphan_markers[k],
        at,
    ) by {
        lemma_nothing_let_through(text, more, markers, grammar.orphan_markers[k], at);
    }
    assert forall|at: int| 0 <= at < from implies !occurs_at(longer, grammar.invoke_start, at) by {
        lemma_nothing_let_through(text, more, markers, grammar.invoke_start, at);
    }
    lemma_earliest_in_rest(longer, from, grammar.block_starts);
    lemma_earliest_in_rest(longer, from, grammar.orphan_markers);
    lemma_found_in_rest(longer, from, grammar.invoke_start);
    assert forall|k: int, n: int|
        0 <= k < markers.len() && longer.len() - from < n < markers[k].len() implies !ends_with(
        longer,
        #[trigger] markers[k].take(n),
    ) by {
        let start = markers[k].take(n);
        if ends_with(longer, start) {
            let at = longer.len() - n;
            let count = text.len() - at;
            assert(text.skip(at) =~= markers[k].take(count)) by {
                assert forall|i: int| 0 <= i < count implies text.skip(at)[i] == markers[k].take(
                    count,
                )[i] by {
                    assert(longer.skip(at)[i] == start[i]);
                }
            }
            assert(ends_with(text, markers[k].take(count)));
        }
    }
    lemma_held_back_in_rest(longer, from, markers);
    lemma_shifted_step(grammar, state.with_more(more), from);
}

/// A move outside of a block whose markers all stand behind `from` is the move on
/// the rest, but for the text before.
proof fn lemma_shifted_step(grammar: Grammar, state: ScanState, from: int)
    requires
        !state.in_block,
        0 <= from <= state.buffer.len(),
        earliest(state.buffer, grammar.block_starts) == (match earliest(
            state.buffer.skip(from),
            grammar.block_starts,
        ) {
            Some((at, which)) => Some((from + at, which)),
            None => None,
        }),
        earliest(state.buffer, grammar.orphan_markers) == (match earliest(
            state.buffer.skip(from),
            grammar.orphan_markers,
        ) {
            Some((at, which)) => Some((from + at, which)),
            None => None,
        }),
        first_index(state.buffer, grammar.invoke_start) == (match first_index(
            state.buffer.skip(from),
            grammar.invoke_start,
        ) {
            Some(at) => Some(from + at),
            None => None,
        }),
        held_back(state.buffer, grammar.holdback_markers) == held_back(
            state.buffer.skip(from),
            grammar.holdback_markers,
        ),
    ensures
        state.step(grammar, false) == state.with_buffer(state.buffer.skip(from)).step(
            grammar,
            false,
        ).with_text_before(state.visible(state.buffer.take(from))),
{
    let text = state.buffer;
    let rest = text.skip(from);
    lemma_held_back(rest, grammar.holdback_markers);
    assert forall|at: int|
        0 <= at <= rest.len() implies text.skip(from + at) == #[trigger] rest.skip(
        at,
    ) && text.take(from + at) == text.take(from) + rest.take(at) by {
        assert(text.skip(from + at) =~= rest.skip(at));
        assert(text.take(from + at) =~= text.take(from) + rest.take(at));
    }
    assert forall|at: int| 0 <= at <= rest.len() implies state.visible(text.take(from + at))
        == state.visible(text.take(from)) + #[trigger] state.visible(rest.take(at)) by {
        assert(rest.skip(at) == rest.skip(at));
        assert(Seq::<char>::empty() =~= Seq::<char>::empty() + Seq::<char>::empty());
    }
    let shorter = state.with_buffer(rest);
    match (earliest(rest, grammar.orphan_markers), next_opener(grammar, rest)) {
        (Some((at, which)), opener) if is_stray(at, opener) => {
            assert(state.visible(rest.take(at)) == shorter.visible(rest.take(at)));
            assert(text.skip(from + (at + grammar.orphan_markers[which].len())) == rest.skip(
                at + grammar.orphan_markers[which].len(),
            ));
        },
        (_, None) => {
            let count = rest.len() - held_back(rest, grammar.holdback_markers);
            assert(state.visible(rest.take(count)) == shorter.visible(rest.take(count)));
            assert(text.skip(from + count) == rest.skip(count));
            assert(text.len() - held_back(text, grammar.holdback_markers) == from + count);
        },
        (_, Some((at, Opener::Block(which)))) => {
            assert(state.visible(rest.take(at)) == shorter.visible(rest.take(at)));
            assert(text.skip(from + (at + grammar.block_starts[which].len())) == rest.skip(
                at + grammar.block_starts[which].len(),
            ));
        },
        (_, Some((at, Opener::BareInvoke))) => {
            assert(state.visible(rest.take(at)) == shorter.visible(rest.take(at)));
            assert(text.skip(from + at) == rest.skip(at));
        },
    }
}

/// A marker that begins a text is what is found there first.
proof fn lemma_found_at_start(text: Seq<char>, at: int, marker: Seq<char>)
    requires
        first_index(text, marker) == Some(at),
    ensures
        first_index(text.skip(at), marker) == Some(0int),
        occurs_at(text.skip(at), marker, 0),
{
    lemma_first_index(text, marker);
    assert(text.skip(at).subrange(0, marker.len() as int) =~= text.subrange(
        at,
        at + marker.len(),
    ));
    lemma_first_index_is(text.skip(at), marker, 0);
}

/// Where an invoke opens and none of `markers` stands at or before its opener,
/// none of them begins the rest, whatever follows.
proof fn lemma_not_at_start(
    grammar: Grammar,
    opening: char,
    text: Seq<char>,
    more: Seq<char>,
    markers: Seq<Seq<char>>,
    open: int,
)
    requires
        grammar.is_separable(opening),
        first_index(text, grammar.invoke_start) == Some(open),
        forall|k: int| 0 <= k < markers.len() ==> grammar.is_marker(#[trigger] markers[k]),
        match earliest(text, markers) {
            Some((at, _)) => open < at,
            None => true,
        },
    ensures
        match earliest(text.skip(open) + more, markers) {
            Some((at, _)) => 0 < at,
            None => true,
        },
{
    let rest = text.skip(open);
    lemma_lists(grammar);
    lemma_found_at_start(text, open, grammar.invoke_start);
    lemma_earliest(rest + more, markers);
    if let Some((at, which)) = earliest(rest + more, markers) {
        if at == 0 {
            lemma_first_index(rest + more, markers[which]);
            lemma_completed_later(
                grammar,
                opening,
                rest,
                more,
                grammar.invoke_start,
                0,
                markers[which],
                0,
            );
            lemma_same_marker(grammar, opening, rest, grammar.invoke_start, markers[which], 0);
            lemma_earliest(text, markers);
            assert(first_index(text, markers[which]) == Some(open));
        }
    }
}

/// The move after waiting is the move that would have come without waiting, but
/// for the text that was let through.
proof fn lemma_wait_resumes(grammar: Grammar, opening: char, state: ScanState, more: Seq<char>)
    requires
        grammar.is_separable(opening),
        state.step(grammar, false) is Wait,
    ensures
        state.step(grammar, false) matches ScanStep::Wait { state: next, text } && state.with_more(
            more,
        ).step(grammar, false) == next.with_more(more).step(grammar, false).with_text_before(text),
{
    let text = state.buffer;
    let open = first_index(text, grammar.invoke_start);
    lemma_lists(grammar);
    lemma_unchanged_before(state.with_more(more).step(grammar, false));
    if state.in_block {
        if let Some(at) = open {
            let next = state.with_buffer(text.skip(at));
            lemma_block_decision_stays(grammar, opening, text, more);
            lemma_split_longer(text, more, at);
            lemma_found_at_start(text, at, grammar.invoke_start);
            lemma_found_stays(next.buffer, more, grammar.invoke_start);
            lemma_not_at_start(grammar, opening, text, more, grammar.block_ends, at);
            assert((next.buffer + more).skip(0) =~= next.buffer + more);
            assert(next.with_more(more).step(grammar, false) == next.with_more(
                more,
            ).step_invoke_in_block(grammar, false));
        }
    } else {
        match next_opener(grammar, text) {
            None => {
                lemma_text_wait(grammar, opening, state, more);
            },
            Some((at, _)) => {
                let next = state.with_buffer(text.skip(at));
                let longer = next.buffer + more;
                lemma_earliest(text, grammar.orphan_markers);
                lemma_earliest_stays(grammar, opening, text, more, grammar.orphan_markers);
                lemma_opener_stays(grammar, opening, text, more);
                if earliest(text, grammar.orphan_markers) is None {
                    lemma_earliest_later(
                        grammar,
                        opening,
                        text,
                        more,
                        grammar.invoke_start,
                        at,
                        grammar.orphan_markers,
                    );
                }
                lemma_split_longer(text, more, at);
                lemma_found_at_start(text, at, grammar.invoke_start);
                lemma_found_stays(next.buffer, more, grammar.invoke_start);
                lemma_not_at_start(grammar, opening, text, more, grammar.block_starts, at);
                assert(longer.skip(0) =~= longer);
                assert(longer.take(0) =~= Seq::empty());
                let before = state.visible(text.take(at));
                assert(before + next.visible(longer.take(0)) =~= before);
            },
        }
    }
}

proof fn lemma_unchanged_before(step: ScanStep)
    ensures
        step.with_text_before(Seq::empty()) == step,
{
    match step {
        ScanStep::Wait { state, text } => {
            assert(Seq::empty() + text =~= text);
        },
        ScanStep::Advance { state, text } => {
            assert(Seq::empty() + text =~= text);
        },
        ScanStep::Invoke { state, text, invoke, bare } => {
            assert(Seq::empty() + text =~= text);
        },
    }
}

proof fn lemma_step_run<E: InvokeEmitter>(
    grammar: Grammar,
    emitter: E,
    state: ScanState,
    resumed: ScanState,
    text: Seq<char>,
)
    requires
        grammar.advances(),
        state.step(grammar, false) == resumed.step(grammar, false).with_text_before(text),
    ensures
        state.run(grammar, emitter, false) == after_output(
            only_text(text),
            resumed.run(grammar, emitter, false),
        ),
{
    match resumed.step(grammar, false) {
        ScanStep::Wait { state: next, text: given } => {
            assert(only_text(text).followed_by(only_text(given)) =~= only_text(text + given));
        },
        ScanStep::Advance { state: next, text: given } => {
            assert(only_text(text).followed_by(only_text(given)) =~= only_text(text + given));
            lemma_output_associates(
                only_text(text),
                only_text(given),
                next.run(grammar, emitter, false),
            );
        },
        ScanStep::Invoke { state: next, text: given, invoke, bare } => {
            match emitter.emits(invoke, next.next_index) {
                Ok(Some(delta)) => {
                    let output = ParseModel { normal_text: given, calls: seq![delta] };
                    assert(only_text(text).followed_by(output) =~= ParseModel {
                        normal_text: text + given,
                        calls: seq![delta],
                    });
                    lemma_output_associates(
                        only_text(text),
                        output,
                        next.after_invoke(grammar, bare, true).run(grammar, emitter, false),
                    );
                },
                Ok(None) => {
                    assert(only_text(text).followed_by(only_text(given)) =~= only_text(
                        text + given,
                    ));
                    lemma_output_associates(
                        only_text(text),
                        only_text(given),
                        next.after_invoke(grammar, bare, false).run(grammar, emitter, false),
                    );
                },
                Err(error) => {},
            }
        },
    }
}

/// Scanning a text and then more of it is scanning both at once: the same state
/// is reached, and the outputs are put together.
pub proof fn lemma_more_text<E: InvokeEmitter>(
    grammar: Grammar,
    opening: char,
    emitter: E,
    state: ScanState,
    more: Seq<char>,
)
    requires
        grammar.is_separable(opening),
        state.run(grammar, emitter, false).1 is Ok,
    ensures
        state.with_more(more).run(grammar, emitter, false) == after_output(
            state.run(grammar, emitter, false).1->Ok_0,
            state.run(grammar, emitter, false).0.with_more(more).run(grammar, emitter, false),
        ),
    decreases state.buffer.len(),
{
    lemma_separable_advances(grammar, opening);
    match state.step(grammar, false) {
        ScanStep::Wait { state: next, text } => {
            lemma_wait_resumes(grammar, opening, state, more);
            lemma_step_run(
                grammar,
                emitter,
                state.with_more(more),
                next.with_more(more),
                text,
            );
        },
        ScanStep::Advance { state: next, text } => {
            lemma_step_stays(grammar, opening, state, more);
            lemma_more_text(grammar, opening, emitter, next, more);
            let (last, output) = next.run(grammar, emitter, false);
            lemma_output_associates(
                only_text(text),
                output->Ok_0,
                last.with_more(more).run(grammar, emitter, false),
            );
        },
        ScanStep::Invoke { state: next, text, invoke, bare } => {
            lemma_step_stays(grammar, opening, state, more);
            let (emitted, output) = match emitter.emits(invoke, next.next_index) {
                Ok(Some(delta)) => (true, ParseModel { normal_text: text, calls: seq![delta] }),
                _ => (false, only_text(text)),
            };
            let after = next.after_invoke(grammar, bare, emitted);
            assert(next.with_more(more).after_invoke(grammar, bare, emitted) == after.with_more(
                more,
            ));
            lemma_more_text(grammar, opening, emitter, after, more);
            let (last, later) = after.run(grammar, emitter, false);
            lemma_output_associates(
                output,
                later->Ok_0,
                last.with_more(more).run(grammar, emitter, false),
            );
        },
    }
}

/// The chunks in a row.
pub open spec fn joined(chunks: Seq<Seq<char>>) -> Seq<char>
    decreases chunks.len(),
{
    if chunks.len() == 0 {
        Seq::empty()
    } else {
        joined(chunks.drop_last()) + chunks.last()
    }
}

impl ScanState {
    /// The state that pushing the chunks one by one leads to, and the outputs put
    /// together.
    pub open spec fn pushed<E: InvokeEmitter>(
        self,
        grammar: Grammar,
        emitter: E,
        chunks: Seq<Seq<char>>,
    ) -> (ScanState, Result<ParseModel, ToolCallError>)
        decreases chunks.len(),
    {
        if chunks.len() == 0 {
            (self, Ok(nothing()))
        } else {
            let before = self.pushed(grammar, emitter, chunks.drop_last());
            match before.1 {
                Ok(output) => after_output(
                    output,
                    before.0.with_more(chunks.last()).run(grammar, emitter, false),
                ),
                Err(error) => before,
            }
        }
    }

    /// Nothing more can be decided, and nothing is left to give.
    pub open spec fn is_settled(self, grammar: Grammar) -> bool {
        self.step(grammar, false) == (ScanStep::Wait { state: self, text: Seq::empty() })
    }
}

/// With nothing left outside of a block, nothing is to be decided.
pub proof fn lemma_empty_settled(grammar: Grammar, opening: char, state: ScanState)
    requires
        grammar.is_separable(opening),
        state.buffer.len() == 0,
        !state.in_block,
    ensures
        state.is_settled(grammar),
{
    lemma_lists(grammar);
    lemma_earliest(state.buffer, grammar.block_starts);
    lemma_earliest(state.buffer, grammar.orphan_markers);
    lemma_first_index(state.buffer, grammar.invoke_start);
    lemma_held_back(state.buffer, grammar.holdback_markers);
    assert(state.buffer.skip(0) =~= state.buffer);
    assert(state.visible(state.buffer.take(0)) =~= Seq::empty());
}

/// What a stream gives does not depend on how it is cut: pushing chunks one by one
/// leads where pushing them as one chunk leads, and gives the same output.
pub proof fn lemma_chunks<E: InvokeEmitter>(
    grammar: Grammar,
    opening: char,
    emitter: E,
    state: ScanState,
    chunks: Seq<Seq<char>>,
)
    requires
        grammar.is_separable(opening),
        state.is_settled(grammar),
        state.pushed(grammar, emitter, chunks).1 is Ok,
    ensures
        state.pushed(grammar, emitter, chunks) == state.with_more(joined(chunks)).run(
            grammar,
            emitter,
            false,
        ),
    decreases chunks.len(),
{
    lemma_separable_advances(grammar, opening);
    if chunks.len() == 0 {
        assert(state.with_more(joined(chunks)) =~= state);
        assert(nothing() =~= only_text(Seq::empty()));
    } else {
        let start = chunks.drop_last();
        let last = chunks.last();
        lemma_chunks(grammar, opening, emitter, state, start);
        lemma_more_text(grammar, opening, emitter, state.with_more(joined(start)), last);
        assert(state.with_more(joined(start)).with_more(last) =~= state.with_more(joined(chunks)));
    }
}

/// Two ways of cutting one stream reach the same state and give the same output,
/// so that ending the stream gives the same as well.
pub proof fn lemma_same_stream<E: InvokeEmitter>(
    grammar: Grammar,
    opening: char,
    emitter: E,
    one: Seq<Seq<char>>,
    other: Seq<Seq<char>>,
)
    requires
        grammar.is_separable(opening),
        joined(one) == joined(other),
        ScanState::start().pushed(grammar, emitter, one).1 is Ok,
        ScanState::start().pushed(grammar, emitter, other).1 is Ok,
    ensures
        ScanState::start().pushed(grammar, emitter, one) == ScanState::start().pushed(
            grammar,
            emitter,
            other,
        ),
        ScanState::start().pushed(grammar, emitter, one).0.run(grammar, emitter, true)
            == ScanState::start().pushed(grammar, emitter, other).0.run(grammar, emitter, true),
{
    lemma_empty_settled(grammar, opening, ScanState::start());
    lemma_chunks(grammar, opening, emitter, ScanState::start(), one);
    lemma_chunks(grammar, opening, emitter, ScanState::start(), other);
}

} // verus!
