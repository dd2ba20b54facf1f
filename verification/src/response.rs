//! What parsing produces: calls, streamed call deltas, and the text around them.
use vstd::prelude::*;

verus! {

/// The kind of a tool call.
#[derive(Debug, Clone, Copy, PartialEq, Eq)]
pub enum ToolCallType {
    Function,
}

/// The function that a call names, and its arguments as a JSON text.
#[derive(Debug, Clone, PartialEq, Eq)]
pub struct CalledFunction {
    pub name: String,
    pub arguments: String,
}

/// One complete tool call.
#[derive(Debug, Clone, PartialEq, Eq)]
pub struct ToolCallResponse {
    pub id: String,
    pub tp: ToolCallType,
    pub function: CalledFunction,
}

/// What a [`ToolCallResponse`] holds.
pub struct CallModel {
    pub id: Seq<char>,
    pub name: Seq<char>,
    pub arguments: Seq<char>,
}

impl View for ToolCallResponse {
    type V = CallModel;

    open spec fn view(&self) -> CallModel {
        CallModel { id: self.id@, name: self.function.name@, arguments: self.function.arguments@ }
    }
}

/// What a run of calls holds.
pub open spec fn calls_view(calls: Seq<ToolCallResponse>) -> Seq<CallModel> {
    calls.map_values(|call: ToolCallResponse| call@)
}

/// A piece of a tool call, as it is streamed.
#[derive(Debug, Clone, PartialEq, Eq)]
pub struct ToolCallDelta {
    pub tool_index: usize,
    pub name: Option<String>,
    pub arguments: String,
}

/// What a [`ToolCallDelta`] holds.
#[verifier::ext_equal]
pub struct DeltaModel {
    pub tool_index: usize,
    pub name: Option<Seq<char>>,
    pub arguments: Seq<char>,
}

impl View for ToolCallDelta {
    type V = DeltaModel;

    open spec fn view(&self) -> DeltaModel {
        DeltaModel {
            tool_index: self.tool_index,
            name: match self.name {
                Some(name) => Some(name@),
                None => None,
            },
            arguments: self.arguments@,
        }
    }
}

/// What a run of deltas holds.
pub open spec fn deltas_view(deltas: Seq<ToolCallDelta>) -> Seq<DeltaModel> {
    deltas.map_values(|delta: ToolCallDelta| delta@)
}

/// What one step of streaming gives: text for the reader, and call deltas.
#[derive(Debug, Clone, PartialEq, Eq)]
pub struct ToolParseResult {
    pub normal_text: String,
    pub calls: Vec<ToolCallDelta>,
}

/// What a [`ToolParseResult`] holds.
#[verifier::ext_equal]
pub struct ParseModel {
    pub normal_text: Seq<char>,
    pub calls: Seq<DeltaModel>,
}

impl ParseModel {
    /// The text and the calls of `self`, then those of `later`.
    pub open spec fn followed_by(self, later: ParseModel) -> ParseModel {
        ParseModel {
            normal_text: self.normal_text + later.normal_text,
            calls: self.calls + later.calls,
        }
    }
}

impl View for ToolParseResult {
    type V = ParseModel;

    open spec fn view(&self) -> ParseModel {
        ParseModel { normal_text: self.normal_text@, calls: deltas_view(self.calls@) }
    }
}

impl Default for ToolParseResult {
    fn default() -> (result: ToolParseResult)
        ensures
            result@ == (ParseModel { normal_text: Seq::empty(), calls: Seq::empty() }),
    {
        let result = ToolParseResult { normal_text: String::new(), calls: Vec::new() };
        assert(deltas_view(result.calls@) =~= Seq::empty());
        result
    }
}

/// The position of the first delta for the given call.
pub open spec fn delta_place(deltas: Seq<DeltaModel>, tool_index: usize) -> nat
    decreases deltas.len(),
{
    if deltas.len() > 0 && deltas[0].tool_index != tool_index {
        1 + delta_place(deltas.drop_first(), tool_index)
    } else {
        0
    }
}

/// `deltas` with one more taken in: it continues the call that has its index, or
/// starts a new one.
pub open spec fn absorbed(deltas: Seq<DeltaModel>, delta: DeltaModel) -> Seq<DeltaModel> {
    let place = delta_place(deltas, delta.tool_index) as int;
    if place < deltas.len() {
        deltas.update(
            place,
            DeltaModel {
                tool_index: delta.tool_index,
                name: if deltas[place].name is Some {
                    deltas[place].name
                } else {
                    delta.name
                },
                arguments: deltas[place].arguments + delta.arguments,
            },
        )
    } else {
        deltas.push(delta)
    }
}

/// One delta for each call, in the order in which the calls began.
pub open spec fn coalesced(deltas: Seq<DeltaModel>) -> Seq<DeltaModel>
    decreases deltas.len(),
{
    if deltas.len() == 0 {
        Seq::empty()
    } else {
        absorbed(coalesced(deltas.drop_last()), deltas.last())
    }
}

proof fn lemma_delta_place(deltas: Seq<DeltaModel>, tool_index: usize)
    ensures
        delta_place(deltas, tool_index) <= deltas.len(),
        delta_place(deltas, tool_index) < deltas.len() ==> deltas[delta_place(
            deltas,
            tool_index,
        ) as int].tool_index == tool_index,
        forall|k: int|
            0 <= k < delta_place(deltas, tool_index) ==> (#[trigger] deltas[k]).tool_index
                != tool_index,
    decreases deltas.len(),
{
    if deltas.len() > 0 && deltas[0].tool_index != tool_index {
        let rest = deltas.drop_first();
        lemma_delta_place(rest, tool_index);
        assert forall|k: int|
            0 <= k < delta_place(deltas, tool_index) implies (#[trigger] deltas[k]).tool_index
            != tool_index by {
            if k > 0 {
                assert(deltas[k] == rest[k - 1]);
            }
        }
    }
}

/// Each call has one delta after coalescing.
pub proof fn lemma_coalesced_once(deltas: Seq<DeltaModel>)
    ensures
        forall|i: int, j: int|
            0 <= i < j < coalesced(deltas).len() ==> (#[trigger] coalesced(deltas)[i]).tool_index
                != (#[trigger] coalesced(deltas)[j]).tool_index,
    decreases deltas.len(),
{
    if deltas.len() > 0 {
        let before = coalesced(deltas.drop_last());
        lemma_coalesced_once(deltas.drop_last());
        lemma_delta_place(before, deltas.last().tool_index);
        let after = coalesced(deltas);
        assert forall|i: int, j: int| 0 <= i < j < after.len() implies (
        #[trigger] after[i]).tool_index != (#[trigger] after[j]).tool_index by {
            if j < before.len() {
                assert(after[i].tool_index == before[i].tool_index);
                assert(after[j].tool_index == before[j].tool_index);
            } else {
                assert(after[i] == before[i]);
            }
        }
    }
}

impl ToolParseResult {
    /// Takes in what came later.
    pub fn append(&mut self, later: ToolParseResult)
        ensures
            final(self)@ == old(self)@.followed_by(later@),
    {
        let ghost before = self@;
        let ghost before_calls = self.calls@;
        let mut later = later;
        let ghost later_calls = later.calls@;
        self.normal_text = append_text(&self.normal_text, &later.normal_text);
        self.calls.append(&mut later.calls);
        assert(deltas_view(before_calls + later_calls) =~= deltas_view(before_calls)
            + deltas_view(later_calls));
    }

    /// The same text, with the deltas of each call put together.
    pub fn coalesce_calls(self) -> (result: ToolParseResult)
        ensures
            result@ == (ParseModel {
                normal_text: self@.normal_text,
                calls: coalesced(self@.calls),
            }),
    {
        let ghost all = deltas_view(self.calls@);
        let mut merged: Vec<ToolCallDelta> = Vec::new();
        let mut at: usize = 0;
        assert(deltas_view(merged@) =~= Seq::empty());
        assert(all.take(0) =~= Seq::empty());
        while at < self.calls.len()
            invariant
                at <= self.calls@.len(),
                all == deltas_view(self.calls@),
                deltas_view(merged@) == coalesced(all.take(at as int)),
            decreases self.calls.len() - at,
        {
            absorb(&mut merged, &self.calls[at]);
            at += 1;
            assert(all.take(at as int).drop_last() =~= all.take(at - 1));
        }
        assert(all.take(at as int) =~= all);
        ToolParseResult { normal_text: self.normal_text, calls: merged }
    }
}

fn append_text(start: &String, rest: &String) -> (text: String)
    ensures
        text@ == start@ + rest@,
{
    start.clone().concat(rest.as_str())
}

fn absorb(merged: &mut Vec<ToolCallDelta>, delta: &ToolCallDelta)
    ensures
        deltas_view(final(merged)@) == absorbed(deltas_view(old(merged)@), delta@),
{
    let ghost before = deltas_view(merged@);
    let mut place: usize = 0;
    assert(before.skip(0) =~= before);
    while place < merged.len() && merged[place].tool_index != delta.tool_index
        invariant
            place <= merged@.len(),
            merged@ == old(merged)@,
            before == deltas_view(merged@),
            delta_place(before, delta.tool_index) == place + delta_place(
                before.skip(place as int),
                delta.tool_index,
            ),
        decreases merged.len() - place,
    {
        assert(before.skip(place as int)[0] == before[place as int]);
        assert(before.skip(place as int).drop_first() =~= before.skip(place + 1));
        place += 1;
    }
    assert(place < merged@.len() ==> before.skip(place as int)[0] == before[place as int]);
    if place < merged.len() {
        let name = match &merged[place].name {
            Some(name) => Some(name.clone()),
            None => match &delta.name {
                Some(name) => Some(name.clone()),
                None => None,
            },
        };
        let arguments = append_text(&merged[place].arguments, &delta.arguments);
        merged.set(place, ToolCallDelta { tool_index: delta.tool_index, name, arguments });
    } else {
        let name = match &delta.name {
            Some(name) => Some(name.clone()),
            None => None,
        };
        merged.push(
            ToolCallDelta {
                tool_index: delta.tool_index,
                name,
                arguments: delta.arguments.clone(),
            },
        );
    }
    assert(deltas_view(merged@) =~= absorbed(before, delta@));
}

} // verus!
