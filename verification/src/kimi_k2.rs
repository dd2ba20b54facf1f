//! Streamed tool calls of Kimi K2.
//!
//! The model writes a section of calls:
//!
//! ```text
//! <|tool_calls_section_begin|>
//!   <|tool_call_begin|>functions.NAME:IDX<|tool_call_argument_begin|>{JSON}<|tool_call_end|>
//! <|tool_calls_section_end|>
//! ```
//!
//! It may write the section markers in the singular, and it may leave out the
//! closing one where the output is cut off. A call whose end has not arrived when
//! its section closes is dropped.
use crate::chunking::{
    is_beginning, is_fenced, is_tag, joined, lemma_same_stream, lemma_separable_advances,
    lemma_tags_differ,
};
use crate::compact::{compact_json_lexically, compacted};
use crate::decimal::is_digit;
use crate::error::ToolCallError;
use crate::json::{json_parsed, parse_json};
use crate::response::{DeltaModel, ParseModel, ToolCallDelta, ToolParseResult};
use crate::scan_laws::{
    is_whole_invoke, lemma_call_cut_off_by_block, lemma_complete_block, lemma_pushes_succeed,
    lemma_run_succeeds,
};
use crate::scan::{
    only_text, same_run, BareRecoveryLatch, Grammar, InvokeEmitter, InvokeLatch, ScanState,
    WrappedBlockScanner, WrappedBlockSpec,
};
use crate::text::{
    begins_with, begins_with_str, chars_of, earliest, ends_with, ends_with_chars, find_str,
    first_index, first_of, leading_space, lemma_first_index_bounds, lemma_found_stays, occurs,
    rest_of, string_of, string_texts, trailing_space, trim, trim_start, trimmed,
};
use crate::tools::Tool;
use vstd::prelude::*;

verus! {

broadcast use lemma_first_index_bounds;

/// The markers of Kimi K2.
pub struct KimiK2ParserConfig {
    pub section_start_variants: Vec<String>,
    pub section_end_variants: Vec<String>,
    pub call_start: String,
    pub call_end: String,
    pub argument_begin: String,
}

/// What a [`KimiK2ParserConfig`] holds.
pub struct KimiK2Markers {
    pub section_starts: Seq<Seq<char>>,
    pub section_ends: Seq<Seq<char>>,
    pub call_start: Seq<char>,
    pub call_end: Seq<char>,
    pub argument_begin: Seq<char>,
}

impl View for KimiK2ParserConfig {
    type V = KimiK2Markers;

    open spec fn view(&self) -> KimiK2Markers {
        KimiK2Markers {
            section_starts: string_texts(self.section_start_variants@),
            section_ends: string_texts(self.section_end_variants@),
            call_start: self.call_start@,
            call_end: self.call_end@,
            argument_begin: self.argument_begin@,
        }
    }
}

/// The markers that the model writes.
pub open spec fn kimi_k2_markers() -> KimiK2Markers {
    KimiK2Markers {
        section_starts: seq!["<|tool_calls_section_begin|>"@, "<|tool_call_section_begin|>"@],
        section_ends: seq!["<|tool_calls_section_end|>"@, "<|tool_call_section_end|>"@],
        call_start: "<|tool_call_begin|>"@,
        call_end: "<|tool_call_end|>"@,
        argument_begin: "<|tool_call_argument_begin|>"@,
    }
}

impl Default for KimiK2ParserConfig {
    fn default() -> (config: KimiK2ParserConfig)
        ensures
            config@ == kimi_k2_markers(),
    {
        let mut starts: Vec<String> = Vec::new();
        starts.push("<|tool_calls_section_begin|>".to_owned());
        starts.push("<|tool_call_section_begin|>".to_owned());
        let mut ends: Vec<String> = Vec::new();
        ends.push("<|tool_calls_section_end|>".to_owned());
        ends.push("<|tool_call_section_end|>".to_owned());
        let config = KimiK2ParserConfig {
            section_start_variants: starts,
            section_end_variants: ends,
            call_start: "<|tool_call_begin|>".to_owned(),
            call_end: "<|tool_call_end|>".to_owned(),
            argument_begin: "<|tool_call_argument_begin|>".to_owned(),
        };
        assert(config@.section_starts =~= kimi_k2_markers().section_starts);
        assert(config@.section_ends =~= kimi_k2_markers().section_ends);
        config
    }
}

impl KimiK2Markers {
    /// How a stream is scanned. The markers within a call, and those that end a
    /// section, are stray where no section is open. Behind every call in a section
    /// text is dropped, also where the call could not be read; a call that the end
    /// of its section cuts off is dropped, and the text behind the section is the
    /// reader's.
    pub open spec fn grammar(self) -> Grammar {
        Grammar {
            block_starts: self.section_starts,
            block_ends: self.section_ends,
            invoke_start: self.call_start,
            invoke_end: self.call_end,
            orphan_markers: seq![self.call_end, self.argument_begin] + self.section_ends,
            holdback_markers: self.section_starts + self.section_ends + seq![
                self.call_start,
                self.call_end,
                self.argument_begin,
            ],
            bare_recovery_latch: BareRecoveryLatch::Suppress,
            invoke_latch: InvokeLatch::Always,
            drop_invoke_crossing_block_end: true,
        }
    }
}

/// Appends copies of `texts`.
fn append_copies(target: &mut Vec<String>, texts: &Vec<String>)
    ensures
        string_texts(final(target)@) == string_texts(old(target)@) + string_texts(texts@),
{
    let ghost first = string_texts(target@);
    let ghost all = string_texts(texts@);
    let mut at: usize = 0;
    assert(first + all.take(0) =~= first);
    while at < texts.len()
        invariant
            at <= texts@.len(),
            all == string_texts(texts@),
            string_texts(target@) == first + all.take(at as int),
        decreases texts.len() - at,
    {
        let ghost before = target@;
        target.push(texts[at].clone());
        assert(string_texts(target@) =~= string_texts(before).push(all[at as int]));
        assert(first + all.take(at + 1) =~= (first + all.take(at as int)).push(all[at as int]));
        at += 1;
    }
    assert(all.take(at as int) =~= all);
}

/// How a stream is scanned.
pub fn spec(config: &KimiK2ParserConfig) -> (spec: WrappedBlockSpec)
    ensures
        spec@ == config@.grammar(),
{
    let mut orphan_markers: Vec<String> = Vec::new();
    orphan_markers.push(config.call_end.clone());
    orphan_markers.push(config.argument_begin.clone());
    assert(string_texts(orphan_markers@) =~= seq![config.call_end@, config.argument_begin@]);
    append_copies(&mut orphan_markers, &config.section_end_variants);

    let mut block_starts: Vec<String> = Vec::new();
    append_copies(&mut block_starts, &config.section_start_variants);
    let mut block_ends: Vec<String> = Vec::new();
    append_copies(&mut block_ends, &config.section_end_variants);

    let mut holdback_markers: Vec<String> = Vec::new();
    append_copies(&mut holdback_markers, &config.section_start_variants);
    append_copies(&mut holdback_markers, &config.section_end_variants);
    let ghost sections = string_texts(holdback_markers@);
    holdback_markers.push(config.call_start.clone());
    holdback_markers.push(config.call_end.clone());
    holdback_markers.push(config.argument_begin.clone());
    assert(sections =~= config@.section_starts + config@.section_ends);
    assert(string_texts(holdback_markers@) =~= config@.grammar().holdback_markers);
    assert(string_texts(block_starts@) =~= config@.section_starts);
    assert(string_texts(block_ends@) =~= config@.section_ends);

    WrappedBlockSpec {
        block_starts,
        block_ends,
        invoke_start: config.call_start.clone(),
        invoke_end: config.call_end.clone(),
        orphan_markers,
        holdback_markers,
        bare_recovery_latch: BareRecoveryLatch::Suppress,
        invoke_latch: InvokeLatch::Always,
        drop_invoke_crossing_block_end: true,
    }
}

/// How many digits `text` ends with.
pub open spec fn trailing_digits(text: Seq<char>) -> nat
    decreases text.len(),
{
    if text.len() > 0 && is_digit(text.last()) {
        1 + trailing_digits(text.drop_last())
    } else {
        0
    }
}

/// The function that an identifier `functions.NAME:IDX` names.
pub open spec fn function_name(id: Seq<char>) -> Option<Seq<char>> {
    let digits = trailing_digits(id) as int;
    let colon = id.len() - digits - 1;
    let name = id.subrange("functions."@.len() as int, colon);
    if begins_with(id, "functions."@) && digits > 0 && "functions."@.len() < colon && id[colon]
        == ':' {
        Some(name)
    } else {
        None
    }
}

/// The arguments of a call: JSON in compact form, and anything else as it is.
pub open spec fn kimi_k2_arguments(payload: Seq<char>) -> Seq<char> {
    if json_parsed(payload) is Some {
        compacted(payload)
    } else {
        payload
    }
}

impl KimiK2Markers {
    /// The name and the arguments of a call, where its identifier can be read.
    pub open spec fn call(self, invoke: Seq<char>) -> Option<(Seq<char>, Seq<char>)> {
        let inner = invoke.subrange(
            self.call_start.len() as int,
            invoke.len() - self.call_end.len(),
        );
        if !(begins_with(invoke, self.call_start) && ends_with(invoke, self.call_end)
            && self.call_start.len() + self.call_end.len() <= invoke.len()) {
            None
        } else {
            match first_index(inner, self.argument_begin) {
                None => None,
                Some(at) => match function_name(trim(inner.take(at))) {
                    None => None,
                    Some(name) => Some(
                        (
                            name,
                            kimi_k2_arguments(trim(inner.skip(at + self.argument_begin.len()))),
                        ),
                    ),
                },
            }
        }
    }
}

/// Reads the calls of Kimi K2.
pub struct K2Emitter {
    pub config: KimiK2ParserConfig,
}

/// The function that an identifier `functions.NAME:IDX` names.
fn parse_function_name(id: &[char]) -> (name: Option<String>)
    ensures
        match (name, function_name(id@)) {
            (Some(name), Some(model)) => name@ == model,
            (None, None) => true,
            _ => false,
        },
{
    let prefix: usize = chars_of("functions.").len();
    let mut end: usize = id.len();
    assert(id@.take(end as int) =~= id@);
    while end > 0 && id[end - 1] >= '0' && id[end - 1] <= '9'
        invariant
            end <= id@.len() == id.len(),
            trailing_digits(id@) == id@.len() - end + trailing_digits(id@.take(end as int)),
        decreases end,
    {
        assert(id@.take(end as int).drop_last() =~= id@.take(end - 1));
        end -= 1;
    }
    assert(trailing_digits(id@) == id@.len() - end) by {
        if end > 0 {
            assert(id@.take(end as int).last() == id@[end - 1]);
        }
    }
    if begins_with_str(id, "functions.") && end < id.len() && end > 0 && prefix < end - 1 && id[end
        - 1] == ':' {
        let name = rest_of(first_of(id, end - 1), prefix);
        assert(name@ =~= id@.subrange(prefix as int, end - 1));
        Some(string_of(name))
    } else {
        None
    }
}

/// The arguments of a call, where the parse of the payload came to `is_json`.
pub fn checked_arguments(payload: &[char], is_json: bool) -> (text: String)
    ensures
        text@ == (if is_json {
            compacted(payload@)
        } else {
            payload@
        }),
{
    if is_json {
        string_of(compact_json_lexically(payload).as_slice())
    } else {
        string_of(payload)
    }
}

impl InvokeEmitter for K2Emitter {
    open spec fn emits(&self, invoke: Seq<char>, tool_index: usize) -> Result<
        Option<DeltaModel>,
        ToolCallError,
    > {
        Ok(
            match self.config@.call(invoke) {
                Some((name, arguments)) => Some(
                    DeltaModel { tool_index, name: Some(name), arguments },
                ),
                None => None,
            },
        )
    }

    fn parse_invoke(&self, invoke: &str, tool_index: usize) -> (delta: Result<
        Option<ToolCallDelta>,
        ToolCallError,
    >) {
        let text = chars_of(invoke);
        let start = chars_of(self.config.call_start.as_str());
        let end = chars_of(self.config.call_end.as_str());
        if !begins_with_str(text.as_slice(), self.config.call_start.as_str()) || !ends_with_chars(
            text.as_slice(),
            end.as_slice(),
        ) || text.len() - start.len() < end.len() {
            return Ok(None);
        }
        let inner = rest_of(first_of(text.as_slice(), text.len() - end.len()), start.len());
        assert(inner@ =~= invoke@.subrange(start@.len() as int, invoke@.len() - end@.len()));
        let at = match find_str(inner, self.config.argument_begin.as_str()) {
            Some(at) => at,
            None => {
                return Ok(None);
            },
        };
        let name = match parse_function_name(trimmed(first_of(inner, at))) {
            Some(name) => name,
            None => {
                return Ok(None);
            },
        };
        let separator: usize = chars_of(self.config.argument_begin.as_str()).len();
        assert(at + separator <= inner.len());
        let payload = trimmed(rest_of(inner, at + separator));
        let is_json = parse_json(string_of(payload).as_str()).is_some();
        let arguments = checked_arguments(payload, is_json);
        Ok(Some(ToolCallDelta { tool_index, name: Some(name), arguments }))
    }
}

/// Parses the streamed output of Kimi K2.
pub struct KimiK2ToolStreamParser {
    scanner: WrappedBlockScanner<K2Emitter>,
}

impl KimiK2ToolStreamParser {
    /// The parser scans by the markers of Kimi K2.
    pub closed spec fn is_ready(self) -> bool {
        &&& self.scanner.grammar() == kimi_k2_markers().grammar()
        &&& self.scanner.reader().config@ == kimi_k2_markers()
    }

    /// What reads the calls.
    pub closed spec fn reader(self) -> K2Emitter {
        self.scanner.reader()
    }

    /// Where scanning stands.
    pub closed spec fn state(self) -> ScanState {
        self.scanner.state()
    }

    /// A parser at the start of a stream. A call gives its types itself, so it does
    /// not matter which tools are offered.
    pub fn new(_tools: &[Tool]) -> (parser: KimiK2ToolStreamParser)
        ensures
            parser.is_ready(),
            parser.reader().config@ == kimi_k2_markers(),
            parser.state() == ScanState::start(),
    {
        let config = KimiK2ParserConfig::default();
        KimiK2ToolStreamParser {
            scanner: WrappedBlockScanner::new(spec(&config), K2Emitter { config }),
        }
    }

    /// A parser at the start of a stream.
    pub fn create(tools: &[Tool]) -> (parser: Result<KimiK2ToolStreamParser, ToolCallError>)
        ensures
            parser matches Ok(parser) && parser.is_ready() && parser.reader().config@
                == kimi_k2_markers() && parser.state() == ScanState::start(),
    {
        Ok(KimiK2ToolStreamParser::new(tools))
    }

    /// Whether the stream must hold the special tokens of the model: the markers
    /// are such tokens.
    pub fn preserve_special_tokens(&self) -> (preserve: bool)
        ensures
            preserve,
    {
        true
    }

    /// Takes one more chunk of the stream.
    pub fn push(&mut self, chunk: &str) -> (output: Result<ToolParseResult, ToolCallError>)
        requires
            old(self).is_ready(),
        ensures
            final(self).is_ready(),
            final(self).reader() == old(self).reader(),
            output is Ok,
            same_run(
                old(self).state().with_more(chunk@).run(
                    kimi_k2_markers().grammar(),
                    old(self).reader(),
                    false,
                ),
                final(self).state(),
                output,
            ),
    {
        proof {
            lemma_kimi_k2_separable();
            lemma_separable_advances(kimi_k2_markers().grammar(), '<');
            lemma_run_succeeds(
                kimi_k2_markers().grammar(),
                self.reader(),
                self.state().with_more(chunk@),
                false,
            );
        }
        self.scanner.push(chunk)
    }

    /// Ends the stream.
    pub fn finish(&mut self) -> (output: Result<ToolParseResult, ToolCallError>)
        requires
            old(self).is_ready(),
        ensures
            final(self).is_ready(),
            final(self).reader() == old(self).reader(),
            output is Ok,
            same_run(
                old(self).state().run(kimi_k2_markers().grammar(), old(self).reader(), true),
                final(self).state(),
                output,
            ),
    {
        proof {
            lemma_kimi_k2_separable();
            lemma_separable_advances(kimi_k2_markers().grammar(), '<');
            lemma_run_succeeds(
                kimi_k2_markers().grammar(),
                self.reader(),
                self.state(),
                true,
            );
        }
        self.scanner.finish()
    }
}

/// The markers of Kimi K2 can be told apart as they arrive.
pub proof fn lemma_kimi_k2_separable()
    ensures
        kimi_k2_markers().grammar().is_separable('<'),
        kimi_k2_markers().grammar().holds_fenced('<'),
{
    reveal_strlit("<|tool_calls_section_begin|>");
    reveal_strlit("<|tool_call_section_begin|>");
    reveal_strlit("<|tool_calls_section_end|>");
    reveal_strlit("<|tool_call_section_end|>");
    reveal_strlit("<|tool_call_begin|>");
    reveal_strlit("<|tool_call_end|>");
    reveal_strlit("<|tool_call_argument_begin|>");
    let grammar = kimi_k2_markers().grammar();
    assert forall|marker: Seq<char>| #[trigger] grammar.is_marker(marker) implies is_tag(
        marker,
    ) by {
        assert(is_tag("<|tool_calls_section_begin|>"@));
        assert(is_tag("<|tool_call_section_begin|>"@));
        assert(is_tag("<|tool_calls_section_end|>"@));
        assert(is_tag("<|tool_call_section_end|>"@));
        assert(is_tag("<|tool_call_begin|>"@));
        assert(is_tag("<|tool_call_end|>"@));
        assert(is_tag("<|tool_call_argument_begin|>"@));
    }
    assert forall|one: Seq<char>, other: Seq<char>|
        #![trigger grammar.is_marker(one), grammar.is_marker(other)]
        grammar.is_marker(one) && grammar.is_marker(other) && is_beginning(one, other) implies one
        == other by {
        lemma_tags_differ(one, other);
    }
    let held = grammar.holdback_markers;
    assert forall|k: int| 0 <= k < grammar.block_starts.len() implies held.contains(
        #[trigger] grammar.block_starts[k],
    ) by {
        assert(held[k] == grammar.block_starts[k]);
    }
    assert forall|k: int| 0 <= k < grammar.orphan_markers.len() implies held.contains(
        #[trigger] grammar.orphan_markers[k],
    ) by {
        let place = if k < 2 {
            k + 5
        } else {
            k
        };
        assert(held[place] == grammar.orphan_markers[k]);
    }
    assert(held[4] == grammar.invoke_start);
    assert forall|k: int| 0 <= k < held.len() implies is_fenced(#[trigger] held[k], '<') by {
        if k == 6 {
            assert(grammar.orphan_markers[1] == held[k]);
            assert(grammar.is_marker(grammar.orphan_markers[1]));
        } else if k == 5 {
            assert(grammar.is_marker(grammar.invoke_end));
        } else if k == 4 {
            assert(grammar.is_marker(grammar.invoke_start));
        } else if k < 2 {
            assert(grammar.is_marker(grammar.block_starts[k]));
        } else {
            assert(grammar.is_marker(grammar.block_ends[k - 2]));
        }
    }
}

/// How a stream of Kimi K2 is cut into chunks does not matter: the outputs put
/// together are the same, and so is what ending the stream gives.
pub proof fn lemma_kimi_k2_chunks(
    emitter: K2Emitter,
    one: Seq<Seq<char>>,
    other: Seq<Seq<char>>,
)
    requires
        joined(one) == joined(other),
    ensures
        ({
            let grammar = kimi_k2_markers().grammar();
            let start = ScanState::start();
            &&& start.pushed(grammar, emitter, one) == start.pushed(grammar, emitter, other)
            &&& start.pushed(grammar, emitter, one).1 is Ok
            &&& start.pushed(grammar, emitter, one).0.run(grammar, emitter, true) == start.pushed(
                grammar,
                emitter,
                other,
            ).0.run(grammar, emitter, true)
        }),
{
    let grammar = kimi_k2_markers().grammar();
    lemma_kimi_k2_separable();
    lemma_separable_advances(grammar, '<');
    lemma_pushes_succeed(grammar, emitter, ScanState::start(), one);
    lemma_pushes_succeed(grammar, emitter, ScanState::start(), other);
    lemma_same_stream(grammar, '<', emitter, one, other);
}

/// A call as the model writes it.
pub open spec fn written_kimi_k2_call(
    name: Seq<char>,
    index: Seq<char>,
    payload: Seq<char>,
) -> Seq<char> {
    let markers = kimi_k2_markers();
    markers.call_start + (function_id(name, index) + markers.argument_begin + payload)
        + markers.call_end
}

/// The identifier of a call.
pub open spec fn function_id(name: Seq<char>, index: Seq<char>) -> Seq<char> {
    "functions."@ + name + seq![':'] + index
}

proof fn lemma_trailing_digits(start: Seq<char>, index: Seq<char>)
    requires
        forall|at: int| 0 <= at < index.len() ==> is_digit(#[trigger] index[at]),
        start.len() > 0,
        !is_digit(start.last()),
    ensures
        trailing_digits(start + index) == index.len(),
    decreases index.len(),
{
    let whole = start + index;
    if index.len() > 0 {
        assert(whole.last() == index.last());
        assert(whole.drop_last() =~= start + index.drop_last());
        assert forall|at: int| 0 <= at < index.drop_last().len() implies is_digit(
            #[trigger] index.drop_last()[at],
        ) by {
            assert(index.drop_last()[at] == index[at]);
        }
        lemma_trailing_digits(start, index.drop_last());
    } else {
        assert(whole =~= start);
    }
}

/// An identifier that was written names the function.
pub(crate) proof fn lemma_function_id_reads_back(name: Seq<char>, index: Seq<char>)
    requires
        name.len() > 0,
        index.len() > 0,
        forall|at: int| 0 <= at < index.len() ==> is_digit(#[trigger] index[at]),
    ensures
        trim(function_id(name, index)) == function_id(name, index),
        function_name(function_id(name, index)) == Some(name),
{
    reveal_strlit("functions.");
    let id = function_id(name, index);
    assert(id[0] == 'f');
    assert(leading_space(id) == 0);
    assert(trim_start(id) =~= id);
    assert(id.last() == index.last());
    assert(is_digit(index[index.len() - 1]));
    assert(trailing_space(id) == 0);
    assert(trim(id) =~= id);
    let start = "functions."@ + name + seq![':'];
    assert(start.last() == ':');
    lemma_trailing_digits(start, index);
    assert(id =~= start + index);
    assert(id.take("functions."@.len() as int) =~= "functions."@);
    assert(id.subrange("functions."@.len() as int, start.len() - 1) =~= name);
}

/// A call that was written is read back: its name, and its arguments. The name must
/// not hold the marker before the arguments, and no white space stands around
/// these.
pub proof fn lemma_kimi_k2_call_reads_back(name: Seq<char>, index: Seq<char>, payload: Seq<char>)
    requires
        name.len() > 0,
        index.len() > 0,
        forall|at: int| 0 <= at < index.len() ==> is_digit(#[trigger] index[at]),
        first_index(
            function_id(name, index) + kimi_k2_markers().argument_begin,
            kimi_k2_markers().argument_begin,
        ) == Some(function_id(name, index).len() as int),
        trim(payload) == payload,
    ensures
        kimi_k2_markers().call(written_kimi_k2_call(name, index, payload)) == Some(
            (name, kimi_k2_arguments(payload)),
        ),
{
    let markers = kimi_k2_markers();
    let id = function_id(name, index);
    let inner = id + markers.argument_begin + payload;
    let invoke = written_kimi_k2_call(name, index, payload);
    assert(invoke.take(markers.call_start.len() as int) =~= markers.call_start);
    assert(invoke.skip(invoke.len() - markers.call_end.len()) =~= markers.call_end);
    assert(invoke.subrange(
        markers.call_start.len() as int,
        invoke.len() - markers.call_end.len(),
    ) =~= inner);
    lemma_found_stays(id + markers.argument_begin, payload, markers.argument_begin);
    assert(inner.take(id.len() as int) =~= id);
    assert(inner.skip(id.len() + markers.argument_begin.len() as int) =~= payload);
    lemma_function_id_reads_back(name, index);
}

/// A section with one call in it, behind plain text: the text reaches the reader
/// as it is, and the call is given with its name and its arguments.
pub proof fn lemma_kimi_k2_section_reads_back(
    emitter: K2Emitter,
    text: Seq<char>,
    name: Seq<char>,
    index: Seq<char>,
    payload: Seq<char>,
    start: int,
    end: int,
)
    requires
        emitter.config@ == kimi_k2_markers(),
        kimi_k2_markers().grammar().is_plain(text),
        name.len() > 0,
        index.len() > 0,
        forall|at: int| 0 <= at < index.len() ==> is_digit(#[trigger] index[at]),
        first_index(
            function_id(name, index) + kimi_k2_markers().argument_begin,
            kimi_k2_markers().argument_begin,
        ) == Some(function_id(name, index).len() as int),
        trim(payload) == payload,
        is_whole_invoke(
            kimi_k2_markers().grammar(),
            written_kimi_k2_call(name, index, payload),
        ),
        0 <= start < kimi_k2_markers().section_starts.len(),
        0 <= end < kimi_k2_markers().section_ends.len(),
    ensures
        ScanState::start().with_more(
            text + (kimi_k2_markers().section_starts[start] + (written_kimi_k2_call(
                name,
                index,
                payload,
            ) + kimi_k2_markers().section_ends[end])),
        ).run(kimi_k2_markers().grammar(), emitter, false) == (
            ScanState { next_index: 1, ..ScanState::start() },
            Ok::<ParseModel, ToolCallError>(
                ParseModel {
                    normal_text: text,
                    calls: seq![
                        DeltaModel {
                            tool_index: 0,
                            name: Some(name),
                            arguments: kimi_k2_arguments(payload),
                        },
                    ],
                },
            ),
        ),
{
    let grammar = kimi_k2_markers().grammar();
    let invoke = written_kimi_k2_call(name, index, payload);
    lemma_kimi_k2_separable();
    lemma_kimi_k2_call_reads_back(name, index, payload);
    assert(!grammar.block_ends.contains(grammar.invoke_start)) by {
        reveal_strlit("<|tool_calls_section_end|>");
        reveal_strlit("<|tool_call_section_end|>");
        reveal_strlit("<|tool_call_begin|>");
        assert(grammar.block_ends[0].len() != grammar.invoke_start.len());
        assert(grammar.block_ends[1].len() != grammar.invoke_start.len());
    }
    lemma_complete_block(grammar, '<', emitter, ScanState::start(), text, invoke, start, end);
}

/// A section that ends while a call in it has not ended: the call is dropped, and
/// plain text before and behind the section reaches the reader as it is, but for an
/// ending that a marker may begin with, which is held back.
pub proof fn lemma_kimi_k2_call_cut_off(
    emitter: K2Emitter,
    text: Seq<char>,
    call: Seq<char>,
    tail: Seq<char>,
    start: int,
    end: int,
)
    requires
        kimi_k2_markers().grammar().is_plain(text),
        kimi_k2_markers().grammar().is_plain(tail),
        begins_with(call, kimi_k2_markers().call_start),
        !occurs(call, kimi_k2_markers().call_end),
        earliest(call, kimi_k2_markers().section_ends) is None,
        0 <= start < kimi_k2_markers().section_starts.len(),
        0 <= end < kimi_k2_markers().section_ends.len(),
    ensures
        ScanState::start().with_more(
            text + (kimi_k2_markers().section_starts[start] + (call
                + kimi_k2_markers().section_ends[end])) + tail,
        ).run(kimi_k2_markers().grammar(), emitter, false) == (
            ScanState::start().with_buffer(kimi_k2_markers().grammar().kept(tail)),
            Ok::<ParseModel, ToolCallError>(
                only_text(text + kimi_k2_markers().grammar().shown(tail)),
            ),
        ),
{
    let grammar = kimi_k2_markers().grammar();
    lemma_kimi_k2_separable();
    assert(!grammar.block_ends.contains(grammar.invoke_end)) by {
        reveal_strlit("<|tool_calls_section_end|>");
        reveal_strlit("<|tool_call_section_end|>");
        reveal_strlit("<|tool_call_end|>");
        assert(grammar.block_ends[0].len() != grammar.invoke_end.len());
        assert(grammar.block_ends[1].len() != grammar.invoke_end.len());
    }
    assert(call.subrange(0, grammar.invoke_start.len() as int) =~= call.take(
        grammar.invoke_start.len() as int,
    ));
    lemma_call_cut_off_by_block(
        grammar,
        '<',
        emitter,
        ScanState::start(),
        text,
        call,
        tail,
        start,
        end,
    );
}

} // verus!
