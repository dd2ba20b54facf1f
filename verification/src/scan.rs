//! Scanning streamed text for calls between markers.
//!
//! A call family writes `BLOCK_START (INVOKE .. INVOKE_END)* BLOCK_END`, and its
//! models sometimes leave out the block around an invoke. Text arrives in chunks
//! that may split a marker anywhere. [`WrappedBlockScanner`] takes the chunks and
//! gives the text around the calls, verbatim, and one delta for each complete
//! invoke. What it gives does not depend on how the text was cut into chunks.
use crate::error::ToolCallError;
use crate::response::{deltas_view, DeltaModel, ParseModel, ToolCallDelta, ToolParseResult};
use crate::text::{
    append_chars, chars_of, earliest, ends_with, ends_with_chars, find, find_str, first_index,
    first_of, lemma_earliest_bounds, lemma_first_index_bounds, string_of, string_texts,
};
use vstd::prelude::*;

verus! {

broadcast use {lemma_first_index_bounds, lemma_earliest_bounds};

/// The length of the longest prefix of `marker`, of at most `limit` characters,
/// that `text` ends with.
pub open spec fn ending_prefix(text: Seq<char>, marker: Seq<char>, limit: nat) -> nat
    decreases limit,
{
    if limit == 0 || ends_with(text, marker.take(limit as int)) {
        limit
    } else {
        ending_prefix(text, marker, (limit - 1) as nat)
    }
}

/// The length of the longest proper prefix of `marker` that `text` ends with.
pub open spec fn split_marker_len(text: Seq<char>, marker: Seq<char>) -> nat {
    if marker.len() == 0 {
        0
    } else {
        ending_prefix(text, marker, (marker.len() - 1) as nat)
    }
}

/// The length of the longest proper prefix of one of `markers` that `text` ends
/// with.
pub open spec fn held_back(text: Seq<char>, markers: Seq<Seq<char>>) -> nat
    decreases markers.len(),
{
    if markers.len() == 0 {
        0
    } else {
        let before = held_back(text, markers.drop_last());
        let here = split_marker_len(text, markers.last());
        if before < here {
            here
        } else {
            before
        }
    }
}

proof fn lemma_ending_prefix(text: Seq<char>, marker: Seq<char>, limit: nat)
    requires
        limit <= marker.len(),
    ensures
        ending_prefix(text, marker, limit) <= limit,
        ends_with(text, marker.take(ending_prefix(text, marker, limit) as int)),
        forall|n: int|
            ending_prefix(text, marker, limit) < n <= limit ==> !ends_with(
                text,
                #[trigger] marker.take(n),
            ),
    decreases limit,
{
    if limit == 0 {
        assert(text.skip(text.len() as int) =~= marker.take(0));
    } else if !ends_with(text, marker.take(limit as int)) {
        lemma_ending_prefix(text, marker, (limit - 1) as nat);
    }
}

/// What is held back is part of the text, and no marker that the text ends in the
/// middle of begins before it.
pub proof fn lemma_held_back(text: Seq<char>, markers: Seq<Seq<char>>)
    ensures
        held_back(text, markers) <= text.len(),
        forall|k: int, n: int|
            0 <= k < markers.len() && 0 < n < markers[k].len() && ends_with(
                text,
                #[trigger] markers[k].take(n),
            ) ==> n <= held_back(text, markers),
    decreases markers.len(),
{
    if markers.len() > 0 {
        let start = markers.drop_last();
        let marker = markers.last();
        lemma_held_back(text, start);
        if marker.len() > 0 {
            lemma_ending_prefix(text, marker, (marker.len() - 1) as nat);
        }
        assert forall|k: int, n: int|
            0 <= k < markers.len() && 0 < n < markers[k].len() && ends_with(
                text,
                #[trigger] markers[k].take(n),
            ) implies n <= held_back(text, markers) by {
            if k < start.len() {
                assert(start[k].take(n) == markers[k].take(n));
            } else {
                assert(markers[k] == marker);
            }
        }
    }
}

/// The length of the longest proper prefix of one of `markers` that `text` ends
/// with, so that a marker split between two chunks is held back whole.
pub fn marker_prefix_suffix_len(text: &[char], markers: &Vec<String>) -> (count: usize)
    ensures
        count == held_back(text@, string_texts(markers@)),
        count <= text@.len(),
{
    let ghost all = string_texts(markers@);
    let mut count: usize = 0;
    let mut which: usize = 0;
    assert(all.take(0) =~= Seq::empty());
    while which < markers.len()
        invariant
            which <= markers@.len(),
            all == string_texts(markers@),
            count == held_back(text@, all.take(which as int)),
        decreases markers.len() - which,
    {
        let marker = chars_of(markers[which].as_str());
        assert(all.take(which + 1).drop_last() =~= all.take(which as int));
        assert(all.take(which + 1).last() == marker@);
        if marker.len() > 0 {
            let mut limit: usize = marker.len() - 1;
            while limit > 0 && !ends_with_chars(text, first_of(marker.as_slice(), limit))
                invariant
                    limit < marker@.len(),
                    split_marker_len(text@, marker@) == ending_prefix(text@, marker@, limit as nat),
                decreases limit,
            {
                limit -= 1;
            }
            if count < limit {
                count = limit;
            }
        }
        which += 1;
    }
    assert(all.take(which as int) =~= all);
    proof {
        lemma_held_back(text@, all);
    }
    count
}

/// What becomes of the suppression of text after a bare invoke gave a call.
#[derive(Debug, Clone, Copy, PartialEq, Eq, Structural)]
pub enum BareRecoveryLatch {
    /// It ends: later narration reaches the reader.
    Clear,
    /// It is on until a stray closing marker ends the markup.
    Suppress,
}

/// When the suppression of text is switched on after an invoke within a block.
#[derive(Debug, Clone, Copy, PartialEq, Eq, Structural)]
pub enum InvokeLatch {
    /// Where the invoke gave a call.
    IfEmitted,
    /// Always.
    Always,
}

/// The markers and the rules of one call family.
pub struct WrappedBlockSpec {
    /// Block openers.
    pub block_starts: Vec<String>,
    /// Block closers.
    pub block_ends: Vec<String>,
    /// Invoke opener.
    pub invoke_start: String,
    /// Invoke closer: an invoke is read once this has arrived.
    pub invoke_end: String,
    /// Markers that are stray markup where they stand outside a block before any
    /// opener.
    pub orphan_markers: Vec<String>,
    /// Markers that are held back where a chunk ends in the middle of one.
    pub holdback_markers: Vec<String>,
    pub bare_recovery_latch: BareRecoveryLatch,
    pub invoke_latch: InvokeLatch,
    /// A block closer before the invoke closer, or where no invoke closer has
    /// arrived yet, means that the invoke is malformed: it is dropped and the block
    /// is closed.
    pub drop_invoke_crossing_block_end: bool,
}

/// What a [`WrappedBlockSpec`] holds.
pub struct Grammar {
    pub block_starts: Seq<Seq<char>>,
    pub block_ends: Seq<Seq<char>>,
    pub invoke_start: Seq<char>,
    pub invoke_end: Seq<char>,
    pub orphan_markers: Seq<Seq<char>>,
    pub holdback_markers: Seq<Seq<char>>,
    pub bare_recovery_latch: BareRecoveryLatch,
    pub invoke_latch: InvokeLatch,
    pub drop_invoke_crossing_block_end: bool,
}

impl View for WrappedBlockSpec {
    type V = Grammar;

    open spec fn view(&self) -> Grammar {
        Grammar {
            block_starts: string_texts(self.block_starts@),
            block_ends: string_texts(self.block_ends@),
            invoke_start: self.invoke_start@,
            invoke_end: self.invoke_end@,
            orphan_markers: string_texts(self.orphan_markers@),
            holdback_markers: string_texts(self.holdback_markers@),
            bare_recovery_latch: self.bare_recovery_latch,
            invoke_latch: self.invoke_latch,
            drop_invoke_crossing_block_end: self.drop_invoke_crossing_block_end,
        }
    }
}

/// No marker is empty.
pub open spec fn none_empty(markers: Seq<Seq<char>>) -> bool {
    forall|k: int| 0 <= k < markers.len() ==> (#[trigger] markers[k]).len() > 0
}

impl Grammar {
    /// No marker that scanning removes is empty, so that scanning advances.
    pub open spec fn advances(self) -> bool {
        &&& none_empty(self.block_starts)
        &&& none_empty(self.block_ends)
        &&& none_empty(self.orphan_markers)
        &&& self.invoke_start.len() > 0
        &&& self.invoke_end.len() > 0
    }
}

/// Reads one complete invoke, from its opener to its closer.
pub trait InvokeEmitter {
    /// The delta that the invoke stands for; none where it is malformed.
    spec fn emits(&self, invoke: Seq<char>, tool_index: usize) -> Result<
        Option<DeltaModel>,
        ToolCallError,
    >;

    fn parse_invoke(&self, invoke: &str, tool_index: usize) -> (delta: Result<
        Option<ToolCallDelta>,
        ToolCallError,
    >)
        ensures
            match delta {
                Ok(Some(delta)) => self.emits(invoke@, tool_index) == Ok::<
                    Option<DeltaModel>,
                    ToolCallError,
                >(Some(delta@)),
                Ok(None) => self.emits(invoke@, tool_index) == Ok::<
                    Option<DeltaModel>,
                    ToolCallError,
                >(None),
                Err(error) => self.emits(invoke@, tool_index) == Err::<
                    Option<DeltaModel>,
                    ToolCallError,
                >(error),
            },
    ;
}

/// Where scanning stands.
#[verifier::ext_equal]
pub struct ScanState {
    /// What has arrived and has not been used up.
    pub buffer: Seq<char>,
    /// A block is open.
    pub in_block: bool,
    /// Text outside blocks is markup and is dropped.
    pub suppress_normal_text: bool,
    /// The index of the next call.
    pub next_index: usize,
}

/// One move of the scanner.
pub enum ScanStep {
    /// Nothing more can be decided before more text arrives.
    Wait { state: ScanState, text: Seq<char> },
    /// A marker has been used up.
    Advance { state: ScanState, text: Seq<char> },
    /// A complete invoke has been taken out of the buffer.
    Invoke { state: ScanState, text: Seq<char>, invoke: Seq<char>, bare: bool },
}

/// What opens next outside of blocks.
pub enum Opener {
    /// A block, with the place of its opener among the block openers.
    Block(int),
    /// An invoke without a block around it.
    BareInvoke,
}

/// The first opener, with its position; a block opener is preferred at the same
/// position.
pub open spec fn next_opener(grammar: Grammar, text: Seq<char>) -> Option<(int, Opener)> {
    match (earliest(text, grammar.block_starts), first_index(text, grammar.invoke_start)) {
        (Some((block, which)), Some(bare)) => if block <= bare {
            Some((block, Opener::Block(which)))
        } else {
            Some((bare, Opener::BareInvoke))
        },
        (Some((block, which)), None) => Some((block, Opener::Block(which))),
        (None, Some(bare)) => Some((bare, Opener::BareInvoke)),
        (None, None) => None,
    }
}

/// A marker at `at` stands before any opener.
pub open spec fn is_stray(at: int, opener: Option<(int, Opener)>) -> bool {
    match opener {
        Some((open, _)) => at < open,
        None => true,
    }
}

/// `position`, where there is one, lies before `bound`.
pub open spec fn lies_before(position: Option<int>, bound: int) -> bool {
    match position {
        Some(position) => position < bound,
        None => false,
    }
}

/// `at` lies before `other`, or there is no `other`.
pub open spec fn comes_first(at: int, other: Option<int>) -> bool {
    match other {
        Some(other) => at < other,
        None => true,
    }
}

impl ScanState {
    /// The start of a stream.
    pub open spec fn start() -> ScanState {
        ScanState {
            buffer: Seq::empty(),
            in_block: false,
            suppress_normal_text: false,
            next_index: 0,
        }
    }

    /// The state after more text has arrived.
    pub open spec fn with_more(self, text: Seq<char>) -> ScanState {
        ScanState { buffer: self.buffer + text, ..self }
    }

    /// The state with another buffer.
    pub open spec fn with_buffer(self, buffer: Seq<char>) -> ScanState {
        ScanState { buffer, ..self }
    }

    /// The state outside of any block, with text reaching the reader.
    pub open spec fn outside(self, buffer: Seq<char>) -> ScanState {
        ScanState { buffer, in_block: false, suppress_normal_text: false, ..self }
    }

    /// `text`, unless text is being dropped.
    pub open spec fn visible(self, text: Seq<char>) -> Seq<char> {
        if self.suppress_normal_text {
            Seq::empty()
        } else {
            text
        }
    }

    /// The move within a block. The block closes at its first closer, unless an
    /// invoke opens before it; an invoke is taken out once its closer has
    /// arrived.
    pub open spec fn step_in_block(self, grammar: Grammar, flush: bool) -> ScanStep {
        let open = first_index(self.buffer, grammar.invoke_start);
        let end = earliest(self.buffer, grammar.block_ends);
        match (end, open) {
            (Some((at, which)), _) if !lies_before(open, at) => ScanStep::Advance {
                state: self.outside(self.buffer.skip(at + grammar.block_ends[which].len())),
                text: Seq::empty(),
            },
            (_, None) => ScanStep::Wait {
                state: if flush {
                    ScanState { buffer: Seq::empty(), in_block: false, ..self }
                } else {
                    self
                },
                text: Seq::empty(),
            },
            (_, Some(open)) => self.with_buffer(self.buffer.skip(open)).step_invoke_in_block(
                grammar,
                flush,
            ),
        }
    }

    /// The move within a block whose buffer begins with an invoke. Where the family
    /// says so, an invoke that the end of its block cuts off is dropped with the
    /// block; the text behind the block is the reader's.
    pub open spec fn step_invoke_in_block(self, grammar: Grammar, flush: bool) -> ScanStep {
        let close = first_index(self.buffer, grammar.invoke_end);
        let end = earliest(self.buffer, grammar.block_ends);
        match (close, end) {
            (_, Some((at, which))) if grammar.drop_invoke_crossing_block_end && comes_first(
                at,
                close,
            ) => ScanStep::Advance {
                state: self.outside(self.buffer.skip(at + grammar.block_ends[which].len())),
                text: Seq::empty(),
            },
            (None, _) => ScanStep::Wait {
                state: if flush {
                    ScanState { buffer: Seq::empty(), in_block: false, ..self }
                } else {
                    self
                },
                text: Seq::empty(),
            },
            (Some(close), _) => ScanStep::Invoke {
                state: self.with_buffer(self.buffer.skip(close + grammar.invoke_end.len())),
                text: Seq::empty(),
                invoke: self.buffer.take(close + grammar.invoke_end.len()),
                bare: false,
            },
        }
    }

    /// The move outside of blocks. A stray marker before any opener is removed
    /// and ends the markup; the text before a marker goes to the reader.
    pub open spec fn step_outside(self, grammar: Grammar, flush: bool) -> ScanStep {
        match (earliest(self.buffer, grammar.orphan_markers), next_opener(grammar, self.buffer)) {
            (Some((at, which)), opener) if is_stray(at, opener) =>
                ScanStep::Advance {
                state: self.outside(self.buffer.skip(at + grammar.orphan_markers[which].len())),
                text: self.visible(self.buffer.take(at)),
            },
            (_, None) => {
                let keep = if flush {
                    0
                } else {
                    held_back(self.buffer, grammar.holdback_markers)
                };
                ScanStep::Wait {
                    state: self.with_buffer(self.buffer.skip(self.buffer.len() - keep)),
                    text: self.visible(self.buffer.take(self.buffer.len() - keep)),
                }
            },
            (_, Some((at, Opener::Block(which)))) => ScanStep::Advance {
                state: ScanState {
                    buffer: self.buffer.skip(at + grammar.block_starts[which].len()),
                    in_block: true,
                    suppress_normal_text: true,
                    next_index: self.next_index,
                },
                text: self.visible(self.buffer.take(at)),
            },
            (_, Some((at, Opener::BareInvoke))) => {
                let text = self.visible(self.buffer.take(at));
                let rest = self.buffer.skip(at);
                match first_index(rest, grammar.invoke_end) {
                    None => ScanStep::Wait {
                        state: self.with_buffer(
                            if flush {
                                Seq::empty()
                            } else {
                                rest
                            },
                        ),
                        text,
                    },
                    Some(close) => ScanStep::Invoke {
                        state: self.with_buffer(rest.skip(close + grammar.invoke_end.len())),
                        text,
                        invoke: rest.take(close + grammar.invoke_end.len()),
                        bare: true,
                    },
                }
            },
        }
    }

    /// The next move. `flush` says that no more text will arrive.
    pub open spec fn step(self, grammar: Grammar, flush: bool) -> ScanStep {
        if self.in_block {
            self.step_in_block(grammar, flush)
        } else {
            self.step_outside(grammar, flush)
        }
    }

    /// The state after an invoke has been read.
    pub open spec fn after_invoke(self, grammar: Grammar, bare: bool, emitted: bool) -> ScanState {
        ScanState {
            suppress_normal_text: if bare {
                if emitted {
                    grammar.bare_recovery_latch == BareRecoveryLatch::Suppress
                } else {
                    self.suppress_normal_text
                }
            } else {
                self.suppress_normal_text || emitted || grammar.invoke_latch == InvokeLatch::Always
            },
            next_index: if emitted {
                next_of(self.next_index)
            } else {
                self.next_index
            },
            ..self
        }
    }
}

/// The index after `index`; counting starts again where it reaches the end.
pub open spec fn next_of(index: usize) -> usize {
    if index == usize::MAX {
        0
    } else {
        (index + 1) as usize
    }
}

/// Nothing.
pub open spec fn nothing() -> ParseModel {
    ParseModel { normal_text: Seq::empty(), calls: Seq::empty() }
}

/// Text alone.
pub open spec fn only_text(text: Seq<char>) -> ParseModel {
    ParseModel { normal_text: text, calls: Seq::empty() }
}

/// The state and the output after more scanning, where `before` came first.
pub open spec fn after_output(
    before: ParseModel,
    later: (ScanState, Result<ParseModel, ToolCallError>),
) -> (ScanState, Result<ParseModel, ToolCallError>) {
    match later.1 {
        Ok(output) => (later.0, Ok(before.followed_by(output))),
        Err(error) => (later.0, Err(error)),
    }
}

/// Scanning led to `state` and gave `output`, as `run` says.
pub open spec fn same_run(
    run: (ScanState, Result<ParseModel, ToolCallError>),
    state: ScanState,
    output: Result<ToolParseResult, ToolCallError>,
) -> bool {
    &&& run.0 == state
    &&& match (run.1, output) {
        (Ok(model), Ok(output)) => output@ == model,
        (Err(expected), Err(error)) => error == expected,
        _ => false,
    }
}

/// Outputs can be put together in any grouping.
pub proof fn lemma_output_associates(
    first: ParseModel,
    second: ParseModel,
    later: (ScanState, Result<ParseModel, ToolCallError>),
)
    ensures
        after_output(first, after_output(second, later)) == after_output(
            first.followed_by(second),
            later,
        ),
{
    if let Ok(output) = later.1 {
        assert(first.followed_by(second.followed_by(output)) =~= first.followed_by(
            second,
        ).followed_by(output));
    }
}

impl ScanState {
    /// The state that all the moves lead to, and what they give. Where an invoke
    /// cannot be read, scanning stops behind it with the error.
    pub open spec fn run<E: InvokeEmitter>(
        self,
        grammar: Grammar,
        emitter: E,
        flush: bool,
    ) -> (ScanState, Result<ParseModel, ToolCallError>)
        decreases self.buffer.len(),
        when grammar.advances()
    {
        match self.step(grammar, flush) {
            ScanStep::Wait { state, text } => (state, Ok(only_text(text))),
            ScanStep::Advance { state, text } => after_output(
                only_text(text),
                state.run(grammar, emitter, flush),
            ),
            ScanStep::Invoke { state, text, invoke, bare } => match emitter.emits(
                invoke,
                state.next_index,
            ) {
                Ok(Some(delta)) => after_output(
                    ParseModel { normal_text: text, calls: seq![delta] },
                    state.after_invoke(grammar, bare, true).run(grammar, emitter, flush),
                ),
                Ok(None) => after_output(
                    only_text(text),
                    state.after_invoke(grammar, bare, false).run(grammar, emitter, flush),
                ),
                Err(error) => (state, Err(error)),
            },
        }
    }
}

/// The first of `markers` in `text`: its position and its length.
fn find_first(text: &[char], markers: &Vec<String>) -> (found: Option<(usize, usize)>)
    ensures
        match (found, earliest(text@, string_texts(markers@))) {
            (Some((at, length)), Some((first, which))) => at == first && length == string_texts(
                markers@,
            )[which].len() && at + length <= text@.len(),
            (None, None) => true,
            _ => false,
        },
{
    let ghost all = string_texts(markers@);
    let mut found: Option<(usize, usize)> = None;
    let mut which: usize = 0;
    assert(all.take(0) =~= Seq::empty());
    while which < markers.len()
        invariant
            which <= markers@.len(),
            all == string_texts(markers@),
            match (found, earliest(text@, all.take(which as int))) {
                (Some((at, length)), Some((first, index))) => at == first && length
                    == all[index].len() && at + length <= text@.len() && 0 <= index < which,
                (None, None) => true,
                _ => false,
            },
        decreases markers.len() - which,
    {
        assert(all.take(which + 1).drop_last() =~= all.take(which as int));
        assert(all.take(which + 1).last() == all[which as int]);
        let marker = chars_of(markers[which].as_str());
        match (found, find(text, marker.as_slice())) {
            (Some((at, _)), Some(here)) => {
                if here < at {
                    found = Some((here, marker.len()));
                }
            },
            (None, Some(here)) => {
                found = Some((here, marker.len()));
            },
            (_, None) => {},
        }
        which += 1;
    }
    assert(all.take(which as int) =~= all);
    found
}

/// Removes the first `count` characters, and gives them.
fn take_front(buffer: &mut Vec<char>, count: usize) -> (front: Vec<char>)
    requires
        count <= old(buffer)@.len(),
    ensures
        front@ == old(buffer)@.take(count as int),
        final(buffer)@ == old(buffer)@.skip(count as int),
{
    let mut rest = buffer.split_off(count);
    assert(rest@ =~= old(buffer)@.skip(count as int));
    assert(buffer@ =~= old(buffer)@.take(count as int));
    std::mem::swap(&mut rest, buffer);
    rest
}

/// One move of the scanner, as it was made.
enum Taken {
    Wait { text: Vec<char> },
    Advance { text: Vec<char> },
    Invoke { text: Vec<char>, invoke: String, bare: bool },
}

impl Taken {
    /// The move is `step`, and led to `state`.
    spec fn is(self, step: ScanStep, state: ScanState) -> bool {
        match (self, step) {
            (Taken::Wait { text }, ScanStep::Wait { state: next, text: given }) => state == next
                && text@ == given,
            (Taken::Advance { text }, ScanStep::Advance { state: next, text: given }) => state
                == next && text@ == given,
            (
                Taken::Invoke { text, invoke, bare },
                ScanStep::Invoke { state: next, text: given, invoke: taken, bare: alone },
            ) => state == next && text@ == given && invoke@ == taken && bare == alone,
            _ => false,
        }
    }
}

/// Scans streamed text for one call family.
///
/// The text around complete blocks is given verbatim, and the markup of complete
/// blocks is dropped. An invoke without a block around it gives a call once it is
/// complete. A stray closing marker never reaches the reader. At the end of the
/// stream, incomplete blocks and invokes are dropped.
pub struct WrappedBlockScanner<E: InvokeEmitter> {
    spec: WrappedBlockSpec,
    emitter: E,
    buffer: Vec<char>,
    in_block: bool,
    suppress_normal_text: bool,
    next_index: usize,
}

impl<E: InvokeEmitter> WrappedBlockScanner<E> {
    /// The markers and rules that the scanner goes by.
    pub closed spec fn grammar(self) -> Grammar {
        self.spec@
    }

    /// What reads the invokes.
    pub closed spec fn reader(self) -> E {
        self.emitter
    }

    /// Where scanning stands.
    pub closed spec fn state(self) -> ScanState {
        ScanState {
            buffer: self.buffer@,
            in_block: self.in_block,
            suppress_normal_text: self.suppress_normal_text,
            next_index: self.next_index,
        }
    }

    /// A scanner at the start of a stream.
    pub fn new(spec: WrappedBlockSpec, emitter: E) -> (scanner: Self)
        ensures
            scanner.grammar() == spec@,
            scanner.reader() == emitter,
            scanner.state() == ScanState::start(),
    {
        WrappedBlockScanner {
            spec,
            emitter,
            buffer: Vec::new(),
            in_block: false,
            suppress_normal_text: false,
            next_index: 0,
        }
    }

    /// Takes one more chunk of the stream.
    pub fn push(&mut self, chunk: &str) -> (output: Result<ToolParseResult, ToolCallError>)
        requires
            old(self).grammar().advances(),
        ensures
            final(self).grammar() == old(self).grammar(),
            final(self).reader() == old(self).reader(),
            same_run(
                old(self).state().with_more(chunk@).run(
                    old(self).grammar(),
                    old(self).reader(),
                    false,
                ),
                final(self).state(),
                output,
            ),
    {
        append_chars(&mut self.buffer, chars_of(chunk).as_slice());
        self.drain(false)
    }

    /// Ends the stream.
    pub fn finish(&mut self) -> (output: Result<ToolParseResult, ToolCallError>)
        requires
            old(self).grammar().advances(),
        ensures
            final(self).grammar() == old(self).grammar(),
            final(self).reader() == old(self).reader(),
            same_run(
                old(self).state().run(old(self).grammar(), old(self).reader(), true),
                final(self).state(),
                output,
            ),
    {
        self.drain(true)
    }

    /// Makes moves until more text is needed.
    fn drain(&mut self, flush: bool) -> (output: Result<ToolParseResult, ToolCallError>)
        requires
            old(self).grammar().advances(),
        ensures
            final(self).grammar() == old(self).grammar(),
            final(self).reader() == old(self).reader(),
            same_run(
                old(self).state().run(old(self).grammar(), old(self).reader(), flush),
                final(self).state(),
                output,
            ),
    {
        let ghost whole = self.state().run(self.grammar(), self.reader(), flush);
        let mut normal_text: Vec<char> = Vec::new();
        let mut calls: Vec<ToolCallDelta> = Vec::new();
        assert(deltas_view(calls@) =~= Seq::empty());
        assert(after_output(nothing(), whole) == whole) by {
            if whole.1 is Ok {
                assert(nothing().followed_by(whole.1->Ok_0) =~= whole.1->Ok_0);
            }
        }
        loop
            invariant
                self.grammar() == old(self).grammar(),
                self.reader() == old(self).reader(),
                self.grammar().advances(),
                whole == after_output(
                    ParseModel { normal_text: normal_text@, calls: deltas_view(calls@) },
                    self.state().run(self.grammar(), self.reader(), flush),
                ),
                whole == old(self).state().run(old(self).grammar(), old(self).reader(), flush),
            decreases self.state().buffer.len(),
        {
            let ghost before = ParseModel {
                normal_text: normal_text@,
                calls: deltas_view(calls@),
            };
            let ghost here = self.state();
            match self.take_step(flush) {
                Taken::Wait { text } => {
                    append_chars(&mut normal_text, text.as_slice());
                    let output = ToolParseResult {
                        normal_text: string_of(normal_text.as_slice()),
                        calls,
                    };
                    assert(output@ =~= before.followed_by(only_text(text@)));
                    return Ok(output);
                },
                Taken::Advance { text } => {
                    append_chars(&mut normal_text, text.as_slice());
                    proof {
                        lemma_output_associates(
                            before,
                            only_text(text@),
                            self.state().run(self.grammar(), self.reader(), flush),
                        );
                        assert(before.followed_by(only_text(text@)) =~= ParseModel {
                            normal_text: normal_text@,
                            calls: deltas_view(calls@),
                        });
                    }
                },
                Taken::Invoke { text, invoke, bare } => {
                    append_chars(&mut normal_text, text.as_slice());
                    let ghost after = self.state();
                    match self.emitter.parse_invoke(invoke.as_str(), self.next_index) {
                        Err(error) => {
                            return Err(error);
                        },
                        Ok(None) => {
                            if !bare {
                                match self.spec.invoke_latch {
                                    InvokeLatch::Always => {
                                        self.suppress_normal_text = true;
                                    },
                                    InvokeLatch::IfEmitted => {},
                                }
                            }
                            proof {
                                assert(self.state() == after.after_invoke(
                                    self.grammar(),
                                    bare,
                                    false,
                                ));
                                lemma_output_associates(
                                    before,
                                    only_text(text@),
                                    self.state().run(self.grammar(), self.reader(), flush),
                                );
                                assert(before.followed_by(only_text(text@)) =~= ParseModel {
                                    normal_text: normal_text@,
                                    calls: deltas_view(calls@),
                                });
                            }
                        },
                        Ok(Some(delta)) => {
                            let ghost earlier = calls@;
                            let ghost given = ParseModel {
                                normal_text: text@,
                                calls: seq![delta@],
                            };
                            calls.push(delta);
                            self.next_index = if self.next_index == usize::MAX {
                                0
                            } else {
                                self.next_index + 1
                            };
                            self.suppress_normal_text = if bare {
                                match self.spec.bare_recovery_latch {
                                    BareRecoveryLatch::Suppress => true,
                                    BareRecoveryLatch::Clear => false,
                                }
                            } else {
                                true
                            };
                            proof {
                                assert(self.state() == after.after_invoke(
                                    self.grammar(),
                                    bare,
                                    true,
                                ));
                                lemma_output_associates(
                                    before,
                                    given,
                                    self.state().run(self.grammar(), self.reader(), flush),
                                );
                                assert(deltas_view(calls@) =~= deltas_view(earlier) + seq![
                                    calls@.last()@,
                                ]);
                                assert(before.followed_by(given) =~= ParseModel {
                                    normal_text: normal_text@,
                                    calls: deltas_view(calls@),
                                });
                            }
                        },
                    }
                },
            }
        }
    }

    /// Makes one move.
    fn take_step(&mut self, flush: bool) -> (taken: Taken)
        ensures
            final(self).grammar() == old(self).grammar(),
            final(self).reader() == old(self).reader(),
            taken.is(old(self).state().step(old(self).grammar(), flush), final(self).state()),
    {
        if self.in_block {
            self.take_step_in_block(flush)
        } else {
            self.take_step_outside(flush)
        }
    }

    /// Drops the first `count` characters and the block with them.
    fn leave_block(&mut self, count: usize)
        requires
            count <= old(self).state().buffer.len(),
        ensures
            final(self).grammar() == old(self).grammar(),
            final(self).reader() == old(self).reader(),
            final(self).state() == old(self).state().outside(
                old(self).state().buffer.skip(count as int),
            ),
    {
        let _ = take_front(&mut self.buffer, count);
        self.in_block = false;
        self.suppress_normal_text = false;
    }

    /// The text, unless text is being dropped.
    fn visible_text(&self, text: Vec<char>) -> (visible: Vec<char>)
        ensures
            visible@ == self.state().visible(text@),
    {
        if self.suppress_normal_text {
            Vec::new()
        } else {
            text
        }
    }

    /// Waits within a block; at the end of the stream the block is dropped.
    fn wait_in_block(&mut self, flush: bool)
        ensures
            final(self).grammar() == old(self).grammar(),
            final(self).reader() == old(self).reader(),
            final(self).state() == (if flush {
                ScanState { buffer: Seq::empty(), in_block: false, ..old(self).state() }
            } else {
                old(self).state()
            }),
    {
        if flush {
            self.buffer.clear();
            self.in_block = false;
        }
    }

    fn take_step_in_block(&mut self, flush: bool) -> (taken: Taken)
        ensures
            final(self).grammar() == old(self).grammar(),
            final(self).reader() == old(self).reader(),
            taken.is(
                old(self).state().step_in_block(old(self).grammar(), flush),
                final(self).state(),
            ),
    {
        let open = find_str(self.buffer.as_slice(), self.spec.invoke_start.as_str());
        if let Some((at, length)) = find_first(self.buffer.as_slice(), &self.spec.block_ends) {
            let open_before = match open {
                Some(open) => open < at,
                None => false,
            };
            if !open_before {
                assert(at + length <= self.buffer.len());
                self.leave_block(at + length);
                return Taken::Advance { text: Vec::new() };
            }
        }
        match open {
            None => {
                self.wait_in_block(flush);
                Taken::Wait { text: Vec::new() }
            },
            Some(open) => {
                let _ = take_front(&mut self.buffer, open);
                self.take_invoke_in_block(flush)
            },
        }
    }

    fn take_invoke_in_block(&mut self, flush: bool) -> (taken: Taken)
        ensures
            final(self).grammar() == old(self).grammar(),
            final(self).reader() == old(self).reader(),
            taken.is(
                old(self).state().step_invoke_in_block(old(self).grammar(), flush),
                final(self).state(),
            ),
    {
        let close = find_str(self.buffer.as_slice(), self.spec.invoke_end.as_str());
        if self.spec.drop_invoke_crossing_block_end {
            if let Some((at, length)) = find_first(self.buffer.as_slice(), &self.spec.block_ends) {
                let cut_off = match close {
                    Some(close) => at < close,
                    None => true,
                };
                if cut_off {
                    assert(at + length <= self.buffer.len());
                    self.leave_block(at + length);
                    return Taken::Advance { text: Vec::new() };
                }
            }
        }
        match close {
            None => {
                self.wait_in_block(flush);
                Taken::Wait { text: Vec::new() }
            },
            Some(close) => {
                let invoke = self.take_invoke(close);
                Taken::Invoke { text: Vec::new(), invoke, bare: false }
            },
        }
    }

    /// Takes the invoke whose closer stands at `close` out of the buffer.
    fn take_invoke(&mut self, close: usize) -> (invoke: String)
        requires
            close + old(self).grammar().invoke_end.len() <= old(self).state().buffer.len(),
        ensures
            final(self).grammar() == old(self).grammar(),
            final(self).reader() == old(self).reader(),
            invoke@ == old(self).state().buffer.take(
                close + old(self).grammar().invoke_end.len(),
            ),
            final(self).state() == old(self).state().with_buffer(
                old(self).state().buffer.skip(close + old(self).grammar().invoke_end.len()),
            ),
    {
        let length: usize = chars_of(self.spec.invoke_end.as_str()).len();
        assert(close + length <= self.buffer.len());
        let invoke = take_front(&mut self.buffer, close + length);
        string_of(invoke.as_slice())
    }

    fn take_step_outside(&mut self, flush: bool) -> (taken: Taken)
        ensures
            final(self).grammar() == old(self).grammar(),
            final(self).reader() == old(self).reader(),
            taken.is(
                old(self).state().step_outside(old(self).grammar(), flush),
                final(self).state(),
            ),
    {
        let block = find_first(self.buffer.as_slice(), &self.spec.block_starts);
        let bare = find_str(self.buffer.as_slice(), self.spec.invoke_start.as_str());
        let opener: Option<(usize, Option<usize>)> = match (block, bare) {
            (Some((block, length)), Some(bare)) => if block <= bare {
                Some((block, Some(length)))
            } else {
                Some((bare, None))
            },
            (Some((block, length)), None) => Some((block, Some(length))),
            (None, Some(bare)) => Some((bare, None)),
            (None, None) => None,
        };
        if let Some((at, length)) = find_first(self.buffer.as_slice(), &self.spec.orphan_markers) {
            let stray = match opener {
                Some((open, _)) => at < open,
                None => true,
            };
            if stray {
                let front = take_front(&mut self.buffer, at);
                let text = self.visible_text(front);
                let ghost rest = self.buffer@;
                self.leave_block(length);
                assert(rest.skip(length as int) =~= old(self).buffer@.skip(at + length));
                return Taken::Advance { text };
            }
        }
        match opener {
            None => {
                let keep = if flush {
                    0
                } else {
                    marker_prefix_suffix_len(self.buffer.as_slice(), &self.spec.holdback_markers)
                };
                let count: usize = self.buffer.len() - keep;
                let front = take_front(&mut self.buffer, count);
                let text = self.visible_text(front);
                Taken::Wait { text }
            },
            Some((at, Some(length))) => {
                let front = take_front(&mut self.buffer, at);
                let text = self.visible_text(front);
                let ghost rest = self.buffer@;
                let _ = take_front(&mut self.buffer, length);
                assert(rest.skip(length as int) =~= old(self).buffer@.skip(at + length));
                self.in_block = true;
                self.suppress_normal_text = true;
                Taken::Advance { text }
            },
            Some((at, None)) => {
                let front = take_front(&mut self.buffer, at);
                let text = self.visible_text(front);
                match find_str(self.buffer.as_slice(), self.spec.invoke_end.as_str()) {
                    None => {
                        if flush {
                            self.buffer.clear();
                        }
                        Taken::Wait { text }
                    },
                    Some(close) => {
                        let invoke = self.take_invoke(close);
                        Taken::Invoke { text, invoke, bare: true }
                    },
                }
            },
        }
    }
}

} // verus!
