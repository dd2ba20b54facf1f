//! What holds of the calls of Kimi K2, in terms of what the model writes.
use crate::block_laws::{lemma_bare_invoke_taken, lemma_stray_removed};
use crate::compact::compacted;
use crate::decimal::is_digit;
use crate::error::ToolCallError;
use crate::json::json_parsed;
use crate::kimi_k2::{
    function_name, kimi_k2_markers, lemma_function_id_reads_back, lemma_kimi_k2_separable,
    trailing_digits, K2Emitter,
};
use crate::response::{DeltaModel, ParseModel};
use crate::scan::{after_output, only_text, InvokeEmitter, ScanState};
use crate::scan_laws::{is_complete_invoke, is_whole_invoke, lemma_complete_block};
use crate::text::{
    begins_with, ends_with, first_index, lemma_first_index, lemma_first_index_bounds,
    lemma_found_stays, occurs,
};
use crate::text_laws::{ends_solid, is_blank, lemma_trim_of, starts_solid};
use vstd::prelude::*;

verus! {

broadcast use lemma_first_index_bounds;

/// A run of digits, at least one.
pub open spec fn is_number(text: Seq<char>) -> bool {
    &&& text.len() > 0
    &&& forall|at: int| 0 <= at < text.len() ==> is_digit(#[trigger] text[at])
}

/// An identifier `functions.NAME:IDX` names its function.
pub proof fn lemma_identifier(name: Seq<char>, index: Seq<char>)
    requires
        name.len() > 0,
        is_number(index),
    ensures
        function_name("functions."@ + name + seq![':'] + index) == Some(name),
{
    lemma_function_id_reads_back(name, index);
}

/// Only an identifier `functions.NAME:IDX` names a function.
pub proof fn lemma_only_identifiers(id: Seq<char>) -> (index: Seq<char>)
    requires
        function_name(id) is Some,
    ensures
        is_number(index),
        function_name(id)->0.len() > 0,
        id == "functions."@ + function_name(id)->0 + seq![':'] + index,
{
    let count = trailing_digits(id) as int;
    let colon = id.len() - count - 1;
    let name = function_name(id)->0;
    let index = id.skip(colon + 1);
    lemma_trailing(id);
    assert(id.take("functions."@.len() as int) == "functions."@);
    assert(id =~= "functions."@ + name + seq![':'] + index) by {
        let whole = "functions."@ + name + seq![':'] + index;
        assert forall|k: int| 0 <= k < id.len() implies id[k] == whole[k] by {
            if k < "functions."@.len() {
                assert(id.take("functions."@.len() as int)[k] == id[k]);
            }
        }
    }
    index
}

proof fn lemma_trailing(text: Seq<char>)
    ensures
        trailing_digits(text) <= text.len(),
        forall|at: int|
            0 <= at < trailing_digits(text) ==> is_digit(
                #[trigger] text.skip(text.len() - trailing_digits(text))[at],
            ),
    decreases text.len(),
{
    if text.len() > 0 && is_digit(text.last()) {
        let rest = text.drop_last();
        let count = trailing_digits(text) as int;
        lemma_trailing(rest);
        assert forall|at: int| 0 <= at < count implies is_digit(
            #[trigger] text.skip(text.len() - count)[at],
        ) by {
            if at < count - 1 {
                assert(text.skip(text.len() - count)[at] == rest.skip(
                    rest.len() - trailing_digits(rest),
                )[at]);
            }
        }
    }
}

/// A call as the model writes it, with white space around its identifier and its arguments.
pub open spec fn spaced_call(
    space: Seq<char>,
    name: Seq<char>,
    index: Seq<char>,
    payload: Seq<char>,
) -> Seq<char> {
    "<|tool_call_begin|>"@ + (space + ("functions."@ + name + seq![':'] + index) + space
        + "<|tool_call_argument_begin|>"@ + (space + payload + space)) + "<|tool_call_end|>"@
}

/// A call is read as its name and its arguments, without the white space around them:
/// arguments that are JSON in compact form, and any others as they are.
pub proof fn lemma_call_read(
    space: Seq<char>,
    name: Seq<char>,
    index: Seq<char>,
    payload: Seq<char>,
)
    requires
        is_blank(space),
        name.len() > 0,
        is_number(index),
        starts_solid(payload),
        ends_solid(payload),
        first_index(
            space + ("functions."@ + name + seq![':'] + index) + space
                + "<|tool_call_argument_begin|>"@,
            "<|tool_call_argument_begin|>"@,
        ) == Some(
            (space + ("functions."@ + name + seq![':'] + index) + space).len() as int,
        ),
    ensures
        kimi_k2_markers().call(spaced_call(space, name, index, payload)) == Some(
            (
                name,
                if json_parsed(payload) is Some {
                    compacted(payload)
                } else {
                    payload
                },
            ),
        ),
{
    let id = "functions."@ + name + seq![':'] + index;
    let spaced = space + id + space;
    lemma_inner(spaced, space + payload + space);
    lemma_identifier(name, index);
    lemma_solid_identifier(name, index);
    lemma_trim_of(space, id, space);
    lemma_trim_of(space, payload, space);
}

proof fn lemma_solid_identifier(name: Seq<char>, index: Seq<char>)
    requires
        is_number(index),
    ensures
        starts_solid("functions."@ + name + seq![':'] + index),
        ends_solid("functions."@ + name + seq![':'] + index),
{
    reveal_strlit("functions.");
    let id = "functions."@ + name + seq![':'] + index;
    assert(id[0] == 'f');
    assert(id.last() == index[index.len() - 1]);
    assert(is_digit(index[index.len() - 1]));
}

proof fn lemma_inner(id: Seq<char>, payload: Seq<char>)
    requires
        first_index(id + "<|tool_call_argument_begin|>"@, "<|tool_call_argument_begin|>"@) == Some(
            id.len() as int,
        ),
    ensures
        ({
            let markers = kimi_k2_markers();
            let invoke = "<|tool_call_begin|>"@ + (id + "<|tool_call_argument_begin|>"@ + payload)
                + "<|tool_call_end|>"@;
            let inner = invoke.subrange(
                markers.call_start.len() as int,
                invoke.len() - markers.call_end.len(),
            );
            &&& begins_with(invoke, markers.call_start)
            &&& ends_with(invoke, markers.call_end)
            &&& markers.call_start.len() + markers.call_end.len() <= invoke.len()
            &&& first_index(inner, markers.argument_begin) == Some(id.len() as int)
            &&& inner.take(id.len() as int) == id
            &&& inner.skip((id.len() + markers.argument_begin.len()) as int) == payload
        }),
{
    let markers = kimi_k2_markers();
    let content = id + "<|tool_call_argument_begin|>"@ + payload;
    let invoke = "<|tool_call_begin|>"@ + content + "<|tool_call_end|>"@;
    assert(invoke.take(markers.call_start.len() as int) =~= markers.call_start);
    assert(invoke.skip(invoke.len() - markers.call_end.len()) =~= markers.call_end);
    assert(invoke.subrange(
        markers.call_start.len() as int,
        invoke.len() - markers.call_end.len(),
    ) =~= content);
    lemma_found_stays(
        id + "<|tool_call_argument_begin|>"@,
        payload,
        "<|tool_call_argument_begin|>"@,
    );
    assert(content.take(id.len() as int) =~= id);
    assert(content.skip((id.len() + markers.argument_begin.len()) as int) =~= payload);
}

/// A call without the marker before its arguments, or whose identifier names no function, is
/// malformed.
pub proof fn lemma_call_refused(content: Seq<char>, space: Seq<char>, id: Seq<char>)
    requires
        !occurs(content, "<|tool_call_argument_begin|>"@),
        is_blank(space),
        starts_solid(id),
        ends_solid(id),
        function_name(id) is None,
    ensures
        kimi_k2_markers().call("<|tool_call_begin|>"@ + content + "<|tool_call_end|>"@) is None,
        first_index(
            space + id + space + "<|tool_call_argument_begin|>"@,
            "<|tool_call_argument_begin|>"@,
        ) == Some((space + id + space).len() as int) ==> kimi_k2_markers().call(
            "<|tool_call_begin|>"@ + (space + id + space + "<|tool_call_argument_begin|>"@
                + content) + "<|tool_call_end|>"@,
        ) is None,
{
    let markers = kimi_k2_markers();
    let invoke = "<|tool_call_begin|>"@ + content + "<|tool_call_end|>"@;
    assert(invoke.subrange(
        markers.call_start.len() as int,
        invoke.len() - markers.call_end.len(),
    ) =~= content);
    lemma_first_index(content, "<|tool_call_argument_begin|>"@);
    if first_index(
        space + id + space + "<|tool_call_argument_begin|>"@,
        "<|tool_call_argument_begin|>"@,
    ) == Some((space + id + space).len() as int) {
        lemma_inner(space + id + space, content);
        lemma_trim_of(space, id, space);
    }
}

/// A section, in either spelling of its markers, with one call in it behind plain text: the
/// text reaches the reader as it is, and the call is given.
pub proof fn lemma_section_call(
    emitter: K2Emitter,
    state: ScanState,
    text: Seq<char>,
    start: Seq<char>,
    call: Seq<char>,
    end: Seq<char>,
    name: Seq<char>,
    arguments: Seq<char>,
)
    requires
        emitter.config@ == kimi_k2_markers(),
        state.is_idle(),
        state.next_index < usize::MAX,
        kimi_k2_markers().grammar().is_plain(text),
        start == "<|tool_calls_section_begin|>"@ || start == "<|tool_call_section_begin|>"@,
        end == "<|tool_calls_section_end|>"@ || end == "<|tool_call_section_end|>"@,
        is_whole_invoke(kimi_k2_markers().grammar(), call),
        kimi_k2_markers().call(call) == Some((name, arguments)),
    ensures
        state.with_more(text + (start + (call + end))).run(
            kimi_k2_markers().grammar(),
            emitter,
            false,
        ) == (
            ScanState { next_index: (state.next_index + 1) as usize, ..state },
            Ok::<ParseModel, ToolCallError>(
                ParseModel {
                    normal_text: text,
                    calls: seq![
                        DeltaModel { tool_index: state.next_index, name: Some(name), arguments },
                    ],
                },
            ),
        ),
{
    let grammar = kimi_k2_markers().grammar();
    lemma_kimi_k2_separable();
    lemma_section_markers();
    let starts: int = if start == "<|tool_calls_section_begin|>"@ {
        0
    } else {
        1
    };
    let ends: int = if end == "<|tool_calls_section_end|>"@ {
        0
    } else {
        1
    };
    assert(emitter.emits(call, state.next_index) == Ok::<Option<DeltaModel>, ToolCallError>(
        Some(DeltaModel { tool_index: state.next_index, name: Some(name), arguments }),
    ));
    lemma_complete_block(grammar, '<', emitter, state, text, call, starts, ends);
}

proof fn lemma_section_markers()
    ensures
        ({
            let grammar = kimi_k2_markers().grammar();
            &&& grammar.block_starts.len() == 2
            &&& grammar.block_starts[0] == "<|tool_calls_section_begin|>"@
            &&& grammar.block_starts[1] == "<|tool_call_section_begin|>"@
            &&& grammar.block_ends.len() == 2
            &&& grammar.block_ends[0] == "<|tool_calls_section_end|>"@
            &&& grammar.block_ends[1] == "<|tool_call_section_end|>"@
            &&& !grammar.block_ends.contains(grammar.invoke_start)
            &&& !grammar.block_starts.contains(grammar.invoke_start)
        }),
{
    reveal_strlit("<|tool_calls_section_begin|>");
    reveal_strlit("<|tool_call_section_begin|>");
    reveal_strlit("<|tool_calls_section_end|>");
    reveal_strlit("<|tool_call_section_end|>");
    reveal_strlit("<|tool_call_begin|>");
    let grammar = kimi_k2_markers().grammar();
    assert(grammar.block_ends[0].len() != grammar.invoke_start.len());
    assert(grammar.block_ends[1].len() != grammar.invoke_start.len());
    assert(grammar.block_starts[0].len() != grammar.invoke_start.len());
    assert(grammar.block_starts[1].len() != grammar.invoke_start.len());
}

/// A marker that ends a call, stands before arguments or ends a section is removed where it
/// stands alone behind plain text.
pub proof fn lemma_stray_markers(
    emitter: K2Emitter,
    state: ScanState,
    text: Seq<char>,
    marker: Seq<char>,
    rest: Seq<char>,
    flush: bool,
)
    requires
        state.is_idle(),
        kimi_k2_markers().grammar().is_plain(text),
        marker == "<|tool_call_end|>"@ || marker == "<|tool_call_argument_begin|>"@ || marker
            == "<|tool_calls_section_end|>"@ || marker == "<|tool_call_section_end|>"@,
    ensures
        state.with_more(text + (marker + rest)).run(kimi_k2_markers().grammar(), emitter, flush)
            == after_output(
            only_text(text),
            state.with_buffer(rest).run(kimi_k2_markers().grammar(), emitter, flush),
        ),
{
    reveal_strlit("<|tool_calls_section_begin|>");
    reveal_strlit("<|tool_call_section_begin|>");
    reveal_strlit("<|tool_calls_section_end|>");
    reveal_strlit("<|tool_call_section_end|>");
    reveal_strlit("<|tool_call_begin|>");
    reveal_strlit("<|tool_call_end|>");
    reveal_strlit("<|tool_call_argument_begin|>");
    let grammar = kimi_k2_markers().grammar();
    let strays = grammar.orphan_markers;
    lemma_kimi_k2_separable();
    lemma_section_markers();
    assert(strays[0] == "<|tool_call_end|>"@);
    assert(strays[1] == "<|tool_call_argument_begin|>"@);
    assert(strays[2] == "<|tool_calls_section_end|>"@);
    assert(strays[3] == "<|tool_call_section_end|>"@);
    let stray: int = if marker == strays[0] {
        0
    } else if marker == strays[1] {
        1
    } else if marker == strays[2] {
        2
    } else {
        3
    };
    assert(marker != grammar.invoke_start) by {
        assert(marker.len() != grammar.invoke_start.len());
    }
    assert(!grammar.block_starts.contains(marker)) by {
        assert(marker != grammar.block_starts[0]) by {
            assert(marker[13] != "<|tool_calls_section_begin|>"@[13] || marker[21]
                != "<|tool_calls_section_begin|>"@[21]);
        }
        assert(marker != grammar.block_starts[1]) by {
            assert(marker[13] != "<|tool_call_section_begin|>"@[13] || marker[20]
                != "<|tool_call_section_begin|>"@[20]);
        }
    }
    lemma_stray_removed(grammar, '<', emitter, state, text, stray, rest, flush);
}

/// A call without a section around it is given, and the text behind it is dropped until a
/// stray marker ends the markup; a malformed one gives nothing, and the text behind it
/// reaches the reader.
pub proof fn lemma_call_alone(
    emitter: K2Emitter,
    state: ScanState,
    text: Seq<char>,
    call: Seq<char>,
    rest: Seq<char>,
    flush: bool,
)
    requires
        emitter.config@ == kimi_k2_markers(),
        state.is_idle(),
        state.next_index < usize::MAX,
        kimi_k2_markers().grammar().is_plain(text),
        is_complete_invoke(kimi_k2_markers().grammar(), call),
    ensures
        state.with_more(text + (call + rest)).run(kimi_k2_markers().grammar(), emitter, flush) == (
        match kimi_k2_markers().call(call) {
            Some((name, arguments)) => after_output(
                ParseModel {
                    normal_text: text,
                    calls: seq![
                        DeltaModel { tool_index: state.next_index, name: Some(name), arguments },
                    ],
                },
                ScanState {
                    buffer: rest,
                    in_block: false,
                    suppress_normal_text: true,
                    next_index: (state.next_index + 1) as usize,
                }.run(kimi_k2_markers().grammar(), emitter, flush),
            ),
            None => after_output(
                only_text(text),
                state.with_buffer(rest).run(kimi_k2_markers().grammar(), emitter, flush),
            ),
        }),
{
    lemma_kimi_k2_separable();
    lemma_section_markers();
    lemma_bare_invoke_taken(
        kimi_k2_markers().grammar(),
        '<',
        emitter,
        state,
        text,
        call,
        rest,
        flush,
    );
}

} // verus!
