//! What scanning hands to the reader of invokes: whole invokes, in order, each under
//! the index of the next call.
use crate::chunking::{lemma_lists, lemma_same_marker};
use crate::error::ToolCallError;
use crate::response::DeltaModel;
use crate::scan::{Grammar, InvokeEmitter, ScanState, ScanStep};
use crate::scan_laws::is_complete_invoke;
use crate::text::{
    first_index, lemma_earliest_bounds, lemma_first_index, lemma_first_index_bounds,
    lemma_found_in_start, lemma_occurs_in_longer, occurs_at,
};
use vstd::prelude::*;

verus! {

broadcast use {lemma_first_index_bounds, lemma_earliest_bounds};

impl Grammar {
    /// In a text that begins with the opener of an invoke, no closer ends within
    /// the opener.
    pub open spec fn closes_behind_opener(self) -> bool {
        forall|text: Seq<char>, at: int|
            #![trigger occurs_at(text, self.invoke_start, 0), occurs_at(text, self.invoke_end, at)]
            occurs_at(text, self.invoke_start, 0) && occurs_at(text, self.invoke_end, at)
                ==> self.invoke_start.len() <= at + self.invoke_end.len()
    }
}

/// Where the markers can be told apart, no closer ends within an opener.
pub proof fn lemma_separable_closes(grammar: Grammar, opening: char)
    requires
        grammar.is_separable(opening),
    ensures
        grammar.closes_behind_opener(),
{
    lemma_lists(grammar);
    let opener = grammar.invoke_start;
    let closer = grammar.invoke_end;
    assert forall|text: Seq<char>, at: int|
        #![trigger occurs_at(text, opener, 0), occurs_at(text, closer, at)]
        occurs_at(text, opener, 0) && occurs_at(text, closer, at) implies opener.len() <= at
        + closer.len() by {
        if at == 0 {
            lemma_same_marker(grammar, opening, text, opener, closer, 0);
        } else if at < opener.len() {
            assert(text.subrange(at, at + closer.len())[0] == text[at]);
            assert(text.subrange(0, opener.len() as int)[at] == text[at]);
        }
    }
}

proof fn lemma_complete(grammar: Grammar, text: Seq<char>, close: int)
    requires
        grammar.closes_behind_opener(),
        occurs_at(text, grammar.invoke_start, 0),
        first_index(text, grammar.invoke_end) == Some(close),
    ensures
        is_complete_invoke(grammar, text.take(close + grammar.invoke_end.len())),
{
    let end = close + grammar.invoke_end.len();
    let invoke = text.take(end);
    let rest = text.skip(end);
    lemma_first_index(text, grammar.invoke_end);
    assert(text =~= invoke + rest);
    lemma_occurs_in_longer(invoke, rest, grammar.invoke_start, 0);
    lemma_found_in_start(text, end, grammar.invoke_end);
}

/// What a move hands over is an invoke from its opener to its first closer, under
/// the index of the next call.
pub proof fn lemma_invoke_handed_over(grammar: Grammar, state: ScanState, flush: bool)
    requires
        grammar.closes_behind_opener(),
    ensures
        state.step(grammar, flush) matches ScanStep::Invoke { state: next, invoke, .. } ==> {
            &&& is_complete_invoke(grammar, invoke)
            &&& next.next_index == state.next_index
        },
{
    if let Some(open) = first_index(state.buffer, grammar.invoke_start) {
        let rest = state.buffer.skip(open);
        lemma_first_index(state.buffer, grammar.invoke_start);
        assert(rest.subrange(0, grammar.invoke_start.len() as int) =~= state.buffer.subrange(
            open,
            open + grammar.invoke_start.len(),
        ));
        if let Some(close) = first_index(rest, grammar.invoke_end) {
            lemma_complete(grammar, rest, close);
        }
    }
}

impl ScanState {
    /// The invokes that scanning hands over, each with its index. An invoke that
    /// cannot be read is the last.
    pub open spec fn handed_over<E: InvokeEmitter>(
        self,
        grammar: Grammar,
        emitter: E,
        flush: bool,
    ) -> Seq<(Seq<char>, usize)>
        decreases self.buffer.len(),
        when grammar.advances()
    {
        match self.step(grammar, flush) {
            ScanStep::Wait { .. } => Seq::empty(),
            ScanStep::Advance { state, .. } => state.handed_over(grammar, emitter, flush),
            ScanStep::Invoke { state, invoke, bare, .. } => seq![(invoke, state.next_index)] + (
            match emitter.emits(invoke, state.next_index) {
                Ok(delta) => state.after_invoke(grammar, bare, delta is Some).handed_over(
                    grammar,
                    emitter,
                    flush,
                ),
                Err(_) => Seq::empty(),
            }),
        }
    }
}

/// The calls that the emitter makes of the invokes, in order. A malformed invoke
/// gives none.
pub open spec fn calls_made<E: InvokeEmitter>(
    emitter: E,
    invokes: Seq<(Seq<char>, usize)>,
) -> Seq<DeltaModel>
    decreases invokes.len(),
{
    if invokes.len() == 0 {
        Seq::empty()
    } else {
        let later = calls_made(emitter, invokes.drop_first());
        match emitter.emits(invokes[0].0, invokes[0].1) {
            Ok(Some(delta)) => seq![delta] + later,
            _ => later,
        }
    }
}

/// The calls that scanning gives are those that the emitter makes of what is handed
/// over, in order. Each invoke that is handed over runs from an opener to its first
/// closer, and its index is the number of calls made before it: a malformed invoke
/// uses up no index. Scanning fails where, and only where, the last invoke that was
/// handed over cannot be read.
pub proof fn lemma_handed_over<E: InvokeEmitter>(
    grammar: Grammar,
    emitter: E,
    state: ScanState,
    flush: bool,
)
    requires
        grammar.advances(),
        grammar.closes_behind_opener(),
        state.next_index + calls_made(emitter, state.handed_over(grammar, emitter, flush)).len()
            <= usize::MAX,
    ensures
        ({
            let invokes = state.handed_over(grammar, emitter, flush);
            let calls = calls_made(emitter, invokes);
            &&& forall|k: int|
                0 <= k < invokes.len() ==> {
                    &&& is_complete_invoke(grammar, (#[trigger] invokes[k]).0)
                    &&& invokes[k].1 == state.next_index + calls_made(
                        emitter,
                        invokes.take(k),
                    ).len()
                }
            &&& state.run(grammar, emitter, flush).0.next_index == state.next_index + calls.len()
            &&& match state.run(grammar, emitter, flush).1 {
                Ok(output) => {
                    &&& output.calls == calls
                    &&& forall|k: int|
                        0 <= k < invokes.len() ==> emitter.emits(
                            (#[trigger] invokes[k]).0,
                            invokes[k].1,
                        ) is Ok
                },
                Err(error) => {
                    &&& invokes.len() > 0
                    &&& emitter.emits(invokes.last().0, invokes.last().1) == Err::<
                        Option<DeltaModel>,
                        ToolCallError,
                    >(error)
                },
            }
        }),
    decreases state.buffer.len(),
{
    let invokes = state.handed_over(grammar, emitter, flush);
    match state.step(grammar, flush) {
        ScanStep::Wait { state: next, text } => {},
        ScanStep::Advance { state: next, text } => {
            lemma_handed_over(grammar, emitter, next, flush);
            if let Ok(output) = state.run(grammar, emitter, flush).1 {
                let later = next.run(grammar, emitter, flush).1->Ok_0;
                assert(output.calls =~= later.calls);
            }
        },
        ScanStep::Invoke { state: next, text, invoke, bare } => {
            lemma_invoke_handed_over(grammar, state, flush);
            match emitter.emits(invoke, next.next_index) {
                Ok(delta) => {
                    let after = next.after_invoke(grammar, bare, delta is Some);
                    let later = after.handed_over(grammar, emitter, flush);
                    assert(invokes.drop_first() =~= later);
                    lemma_handed_over(grammar, emitter, after, flush);
                    assert forall|k: int| 0 <= k < invokes.len() implies {
                        &&& is_complete_invoke(grammar, (#[trigger] invokes[k]).0)
                        &&& invokes[k].1 == state.next_index + calls_made(
                            emitter,
                            invokes.take(k),
                        ).len()
                    } by {
                        if k > 0 {
                            assert(invokes[k] == later[k - 1]);
                            assert(invokes.take(k).drop_first() =~= later.take(k - 1));
                        }
                    }
                    assert forall|k: int|
                        0 <= k < invokes.len() && after.run(grammar, emitter, flush).1
                            is Ok implies emitter.emits(
                        (#[trigger] invokes[k]).0,
                        invokes[k].1,
                    ) is Ok by {
                        if k > 0 {
                            assert(invokes[k] == later[k - 1]);
                        }
                    }
                    if let Ok(output) = state.run(grammar, emitter, flush).1 {
                        assert(output.calls =~= calls_made(emitter, invokes));
                    } else {
                        assert(invokes.last() == later.last());
                    }
                },
                Err(_) => {
                    assert(invokes =~= seq![(invoke, next.next_index)]);
                    assert(calls_made(emitter, invokes.drop_first()).len() == 0);
                },
            }
        },
    }
}

impl ScanState {
    /// The invokes that are handed over while one text after another arrives, each
    /// text with whether it is the end of a stream.
    pub open spec fn handed_over_by<E: InvokeEmitter>(
        self,
        grammar: Grammar,
        emitter: E,
        texts: Seq<(Seq<char>, bool)>,
    ) -> Seq<(Seq<char>, usize)>
        decreases texts.len(),
    {
        if texts.len() == 0 {
            Seq::empty()
        } else {
            let arrived = self.with_more(texts[0].0);
            arrived.handed_over(grammar, emitter, texts[0].1) + arrived.run(
                grammar,
                emitter,
                texts[0].1,
            ).0.handed_over_by(grammar, emitter, texts.drop_first())
        }
    }
}

proof fn lemma_calls_made_of_both<E: InvokeEmitter>(
    emitter: E,
    one: Seq<(Seq<char>, usize)>,
    other: Seq<(Seq<char>, usize)>,
)
    ensures
        calls_made(emitter, one + other) == calls_made(emitter, one) + calls_made(emitter, other),
    decreases one.len(),
{
    let both = one + other;
    if one.len() == 0 {
        assert(both =~= other);
        assert(calls_made(emitter, one) + calls_made(emitter, other) =~= calls_made(
            emitter,
            other,
        ));
    } else {
        assert(both.drop_first() =~= one.drop_first() + other);
        lemma_calls_made_of_both(emitter, one.drop_first(), other);
        assert(calls_made(emitter, both) =~= calls_made(emitter, one) + calls_made(emitter, other));
    }
}

/// Over the life of a scanner, each invoke that is handed over runs from an opener to
/// its first closer, and its index is the number of calls made before it, however
/// many texts have arrived and whether or not an invoke could be read.
pub proof fn lemma_handed_over_by<E: InvokeEmitter>(
    grammar: Grammar,
    emitter: E,
    state: ScanState,
    texts: Seq<(Seq<char>, bool)>,
)
    requires
        grammar.advances(),
        grammar.closes_behind_opener(),
        state.next_index + calls_made(
            emitter,
            state.handed_over_by(grammar, emitter, texts),
        ).len() <= usize::MAX,
    ensures
        ({
            let invokes = state.handed_over_by(grammar, emitter, texts);
            forall|k: int|
                0 <= k < invokes.len() ==> {
                    &&& is_complete_invoke(grammar, (#[trigger] invokes[k]).0)
                    &&& invokes[k].1 == state.next_index + calls_made(
                        emitter,
                        invokes.take(k),
                    ).len()
                }
        }),
    decreases texts.len(),
{
    if texts.len() > 0 {
        let invokes = state.handed_over_by(grammar, emitter, texts);
        let (text, flush) = texts[0];
        let arrived = state.with_more(text);
        let first = arrived.handed_over(grammar, emitter, flush);
        let next = arrived.run(grammar, emitter, flush).0;
        let later = next.handed_over_by(grammar, emitter, texts.drop_first());
        lemma_calls_made_of_both(emitter, first, later);
        lemma_handed_over(grammar, emitter, arrived, flush);
        lemma_handed_over_by(grammar, emitter, next, texts.drop_first());
        assert forall|k: int| 0 <= k < invokes.len() implies {
            &&& is_complete_invoke(grammar, (#[trigger] invokes[k]).0)
            &&& invokes[k].1 == state.next_index + calls_made(emitter, invokes.take(k)).len()
        } by {
            if k < first.len() {
                assert(invokes[k] == first[k]);
                assert(invokes.take(k) =~= first.take(k));
            } else {
                let behind = k - first.len();
                assert(invokes[k] == later[behind]);
                assert(invokes.take(k) =~= first + later.take(behind));
                lemma_calls_made_of_both(emitter, first, later.take(behind));
            }
        }
    }
}

} // verus!
