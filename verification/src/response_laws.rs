//! What holds of streamed calls that are put together.
use crate::response::{absorbed, coalesced, delta_place, lemma_coalesced_once, DeltaModel};
use vstd::prelude::*;

verus! {

/// The deltas of one call, in order.
pub open spec fn deltas_of(deltas: Seq<DeltaModel>, tool_index: usize) -> Seq<DeltaModel> {
    deltas.filter(|delta: DeltaModel| delta.tool_index == tool_index)
}

/// The arguments of a run of deltas, one behind another.
pub open spec fn joined_arguments(deltas: Seq<DeltaModel>) -> Seq<char>
    decreases deltas.len(),
{
    if deltas.len() == 0 {
        Seq::empty()
    } else {
        joined_arguments(deltas.drop_last()) + deltas.last().arguments
    }
}

/// The first name in a run of deltas.
pub open spec fn first_name(deltas: Seq<DeltaModel>) -> Option<Seq<char>>
    decreases deltas.len(),
{
    if deltas.len() == 0 {
        None
    } else if deltas[0].name is Some {
        deltas[0].name
    } else {
        first_name(deltas.drop_first())
    }
}

/// Delta `k` is the first of its call.
pub open spec fn begins_call(deltas: Seq<DeltaModel>, k: int) -> bool {
    &&& 0 <= k < deltas.len()
    &&& forall|j: int| 0 <= j < k ==> (#[trigger] deltas[j]).tool_index != deltas[k].tool_index
}

proof fn lemma_place(deltas: Seq<DeltaModel>, tool_index: usize)
    ensures
        delta_place(deltas, tool_index) <= deltas.len(),
        delta_place(deltas, tool_index) < deltas.len() ==> deltas[delta_place(
            deltas,
            tool_index,
        ) as int].tool_index == tool_index,
        forall|k: int|
            0 <= k < delta_place(deltas, tool_index) ==> (#[trigger] deltas[k]).tool_index
                != tool_index,
    decreases deltas.len(),
{
    if deltas.len() > 0 && deltas[0].tool_index != tool_index {
        let rest = deltas.drop_first();
        lemma_place(rest, tool_index);
        assert forall|k: int|
            0 <= k < delta_place(deltas, tool_index) implies (#[trigger] deltas[k]).tool_index
            != tool_index by {
            if k > 0 {
                assert(deltas[k] == rest[k - 1]);
            }
        }
    }
}

proof fn lemma_first_name_pushed(deltas: Seq<DeltaModel>, delta: DeltaModel)
    ensures
        first_name(deltas.push(delta)) == (if first_name(deltas) is Some {
            first_name(deltas)
        } else {
            delta.name
        }),
    decreases deltas.len(),
{
    let more = deltas.push(delta);
    if deltas.len() > 0 {
        assert(more.drop_first() =~= deltas.drop_first().push(delta));
        assert(more[0] == deltas[0]);
        lemma_first_name_pushed(deltas.drop_first(), delta);
    } else {
        assert(more.drop_first() =~= Seq::empty());
        assert(first_name(more.drop_first()) is None);
    }
}

proof fn lemma_deltas_of_pushed(deltas: Seq<DeltaModel>, delta: DeltaModel, tool_index: usize)
    ensures
        deltas_of(deltas.push(delta), tool_index) == (if delta.tool_index == tool_index {
            deltas_of(deltas, tool_index).push(delta)
        } else {
            deltas_of(deltas, tool_index)
        }),
{
    reveal(Seq::filter);
    assert(deltas.push(delta).drop_last() =~= deltas);
}

/// The deltas of each call are put together into one: its arguments are theirs in order, and
/// its name is the first that any of them gives.
pub proof fn lemma_coalesced_parts(deltas: Seq<DeltaModel>)
    ensures
        forall|k: int|
            0 <= k < coalesced(deltas).len() ==> {
                let one = #[trigger] coalesced(deltas)[k];
                let parts = deltas_of(deltas, one.tool_index);
                &&& parts.len() > 0
                &&& one.arguments == joined_arguments(parts)
                &&& one.name == first_name(parts)
            },
    decreases deltas.len(),
{
    if deltas.len() > 0 {
        let start = deltas.drop_last();
        let last = deltas.last();
        let before = coalesced(start);
        let after = coalesced(deltas);
        let place = delta_place(before, last.tool_index) as int;
        lemma_coalesced_parts(start);
        lemma_coalesced_once(start);
        lemma_place(before, last.tool_index);
        assert(deltas =~= start.push(last));
        assert(after == absorbed(before, last));
        assert forall|k: int| 0 <= k < after.len() implies {
            let one = #[trigger] after[k];
            let parts = deltas_of(deltas, one.tool_index);
            &&& parts.len() > 0
            &&& one.arguments == joined_arguments(parts)
            &&& one.name == first_name(parts)
        } by {
            let index = after[k].tool_index;
            let parts = deltas_of(start, index);
            lemma_deltas_of_pushed(start, last, index);
            lemma_first_name_pushed(parts, last);
            assert(parts.push(last).drop_last() =~= parts);
            if k < before.len() {
                assert(before[k].tool_index == index);
                assert(before[k].arguments == joined_arguments(parts));
                if k != place {
                    assert(after[k] == before[k]);
                    if index == last.tool_index {
                        if place < before.len() {
                            assert(before[place].tool_index == before[k].tool_index);
                        } else {
                            assert(before[k].tool_index != last.tool_index);
                        }
                    }
                }
            } else {
                lemma_no_parts(start, index);
                assert(parts =~= Seq::empty());
                assert(joined_arguments(parts) =~= Seq::empty());
                assert(joined_arguments(parts.push(last)) =~= last.arguments);
            }
        }
    }
}

/// A call that has no delta after putting together had none before.
proof fn lemma_no_parts(deltas: Seq<DeltaModel>, tool_index: usize)
    requires
        forall|k: int|
            0 <= k < coalesced(deltas).len() ==> (#[trigger] coalesced(deltas)[k]).tool_index
                != tool_index,
    ensures
        deltas_of(deltas, tool_index).len() == 0,
{
    reveal(Seq::filter);
    lemma_coalesced_complete(deltas);
    lemma_none_of(deltas, tool_index);
}

proof fn lemma_none_of(deltas: Seq<DeltaModel>, tool_index: usize)
    requires
        forall|k: int| 0 <= k < deltas.len() ==> (#[trigger] deltas[k]).tool_index != tool_index,
    ensures
        deltas_of(deltas, tool_index).len() == 0,
    decreases deltas.len(),
{
    reveal(Seq::filter);
    if deltas.len() > 0 {
        let start = deltas.drop_last();
        assert forall|k: int| 0 <= k < start.len() implies (#[trigger] start[k]).tool_index
            != tool_index by {
            assert(start[k] == deltas[k]);
        }
        assert(deltas[deltas.len() - 1].tool_index != tool_index);
        lemma_none_of(start, tool_index);
    }
}

/// Every call that has a delta is among the calls that are put together.
pub proof fn lemma_coalesced_complete(deltas: Seq<DeltaModel>)
    ensures
        forall|k: int|
            0 <= k < deltas.len() ==> exists|i: int|
                0 <= i < coalesced(deltas).len() && (#[trigger] coalesced(deltas)[i]).tool_index
                    == (#[trigger] deltas[k]).tool_index,
    decreases deltas.len(),
{
    if deltas.len() > 0 {
        let start = deltas.drop_last();
        let last = deltas.last();
        let before = coalesced(start);
        let after = coalesced(deltas);
        lemma_coalesced_complete(start);
        lemma_place(before, last.tool_index);
        assert forall|k: int| 0 <= k < deltas.len() implies exists|i: int|
            0 <= i < after.len() && (#[trigger] after[i]).tool_index == (
            #[trigger] deltas[k]).tool_index by {
            if k < start.len() {
                assert(start[k] == deltas[k]);
                let i = choose|i: int|
                    0 <= i < before.len() && (#[trigger] before[i]).tool_index
                        == start[k].tool_index;
                assert(after[i].tool_index == before[i].tool_index);
            } else {
                let place = delta_place(before, last.tool_index) as int;
                assert(after[place].tool_index == last.tool_index);
            }
        }
    }
}

/// The calls that are put together stand in the order in which they began: delta `starts[k]`
/// is the first of call `k`, and these places ascend.
pub proof fn lemma_coalesced_order(deltas: Seq<DeltaModel>) -> (starts: Seq<int>)
    ensures
        starts.len() == coalesced(deltas).len(),
        forall|k: int|
            0 <= k < starts.len() ==> {
                &&& begins_call(deltas, #[trigger] starts[k])
                &&& deltas[starts[k]].tool_index == coalesced(deltas)[k].tool_index
            },
        forall|i: int, j: int|
            0 <= i < j < starts.len() ==> (#[trigger] starts[i]) < (#[trigger] starts[j]),
    decreases deltas.len(),
{
    if deltas.len() == 0 {
        Seq::empty()
    } else {
        let start = deltas.drop_last();
        let last = deltas.last();
        let before = coalesced(start);
        let after = coalesced(deltas);
        let earlier = lemma_coalesced_order(start);
        lemma_place(before, last.tool_index);
        assert forall|k: int| 0 <= k < earlier.len() implies begins_call(
            deltas,
            #[trigger] earlier[k],
        ) && deltas[earlier[k]].tool_index == before[k].tool_index by {
            let at = earlier[k];
            assert(begins_call(start, at));
            assert(deltas[at] == start[at]);
            assert forall|j: int| 0 <= j < at implies (#[trigger] deltas[j]).tool_index
                != deltas[at].tool_index by {
                assert(deltas[j] == start[j]);
            }
        }
        if delta_place(before, last.tool_index) < before.len() {
            earlier
        } else {
            let end = deltas.len() - 1;
            let starts = earlier.push(end);
            lemma_coalesced_complete(start);
            assert(begins_call(deltas, end)) by {
                assert forall|j: int| 0 <= j < end implies (#[trigger] deltas[j]).tool_index
                    != deltas[end].tool_index by {
                    assert(deltas[j] == start[j]);
                    let i = choose|i: int|
                        0 <= i < before.len() && (#[trigger] before[i]).tool_index
                            == start[j].tool_index;
                    assert(before[i].tool_index != last.tool_index);
                }
            }
            assert forall|k: int| 0 <= k < starts.len() implies {
                &&& begins_call(deltas, #[trigger] starts[k])
                &&& deltas[starts[k]].tool_index == after[k].tool_index
            } by {
                if k < earlier.len() {
                    assert(starts[k] == earlier[k]);
                    assert(after[k] == before[k]);
                }
            }
            assert forall|i: int, j: int| 0 <= i < j < starts.len() implies (#[trigger] starts[i])
                < (#[trigger] starts[j]) by {
                assert(starts[i] == earlier[i]);
                assert(begins_call(start, earlier[i]));
                if j < earlier.len() {
                    assert(starts[j] == earlier[j]);
                }
            }
            starts
        }
    }
}

} // verus!
