//! Call arguments in the order in which the model wrote them.
use crate::json::{
    braced, braced_text, compact_text, entries_view, find_member, json_parsed, json_text,
    keys_ascend, lemma_entries_view, lemma_member_absent, lemma_member_at, lemma_member_well_formed,
    lemma_precedes_irreflexive, member, member_string, member_texts, parse_json, precedes,
    well_formed, JsonModel, JsonValue,
};
use crate::text::{same_text, string_texts};
use vstd::prelude::*;

verus! {

broadcast use lemma_entries_view;

/// The members that `names` name, each once, in the order of `names`.
pub open spec fn named_members(
    entries: Seq<(Seq<char>, JsonModel)>,
    names: Seq<Seq<char>>,
) -> Seq<(Seq<char>, JsonModel)>
    decreases names.len(),
{
    if names.len() == 0 {
        Seq::empty()
    } else {
        let before = named_members(entries, names.drop_last());
        match member(entries, names.last()) {
            Some(value) if !names.drop_last().contains(names.last()) => before.push(
                (names.last(), value),
            ),
            _ => before,
        }
    }
}

/// The members that `names` do not name, in the order of `entries`.
pub open spec fn unnamed_members(
    entries: Seq<(Seq<char>, JsonModel)>,
    names: Seq<Seq<char>>,
) -> Seq<(Seq<char>, JsonModel)>
    decreases entries.len(),
{
    if entries.len() == 0 {
        Seq::empty()
    } else {
        let before = unnamed_members(entries.drop_last(), names);
        if names.contains(entries.last().0) {
            before
        } else {
            before.push(entries.last())
        }
    }
}

/// The members in the order of `names`, and behind them those that have no name
/// there.
pub open spec fn reordered(
    entries: Seq<(Seq<char>, JsonModel)>,
    names: Seq<Seq<char>>,
) -> Seq<(Seq<char>, JsonModel)> {
    named_members(entries, names) + unnamed_members(entries, names)
}

/// The arguments text with the members of the object in the order of `names`; a
/// text that is no JSON object stays as it is.
pub open spec fn reordered_text(arguments: Seq<char>, names: Seq<Seq<char>>) -> Seq<char> {
    match json_parsed(arguments) {
        Some(JsonModel::Object(entries)) => braced(member_texts(reordered(entries, names))),
        _ => arguments,
    }
}

proof fn lemma_named(entries: Seq<(Seq<char>, JsonModel)>, names: Seq<Seq<char>>)
    ensures
        forall|k: int|
            0 <= k < named_members(entries, names).len() ==> names.contains(
                (#[trigger] named_members(entries, names)[k]).0,
            ) && member(entries, named_members(entries, names)[k].0) == Some(
                named_members(entries, names)[k].1,
            ),
        forall|i: int, j: int|
            0 <= i < j < named_members(entries, names).len() ==> (#[trigger] named_members(
                entries,
                names,
            )[i]).0 != (#[trigger] named_members(entries, names)[j]).0,
        forall|key: Seq<char>|
            names.contains(key) && member(entries, key) is Some ==> exists|k: int|
                0 <= k < named_members(entries, names).len() && (#[trigger] named_members(
                    entries,
                    names,
                )[k]).0 == key,
    decreases names.len(),
{
    if names.len() > 0 {
        let start = names.drop_last();
        lemma_named(entries, start);
        let before = named_members(entries, start);
        let after = named_members(entries, names);
        assert forall|key: Seq<char>| start.contains(key) implies names.contains(key) by {
            let at = choose|at: int| 0 <= at < start.len() && start[at] == key;
            assert(names[at] == key);
        }
        assert(names.contains(names.last())) by {
            assert(names[names.len() - 1] == names.last());
        }
        assert forall|k: int| 0 <= k < after.len() implies names.contains((#[trigger] after[k]).0)
            && member(entries, after[k].0) == Some(after[k].1) by {
            if k < before.len() {
                assert(after[k] == before[k]);
            }
        }
        assert forall|i: int, j: int| 0 <= i < j < after.len() implies (#[trigger] after[i]).0 != (
        #[trigger] after[j]).0 by {
            assert(after[i] == before[i]);
            if j < before.len() {
                assert(after[j] == before[j]);
            }
        }
        assert forall|key: Seq<char>|
            names.contains(key) && member(entries, key) is Some implies exists|k: int|
            0 <= k < after.len() && (#[trigger] after[k]).0 == key by {
            let at = choose|at: int| 0 <= at < names.len() && names[at] == key;
            if start.contains(key) {
                let k = choose|k: int| 0 <= k < before.len() && (#[trigger] before[k]).0 == key;
                assert(after[k] == before[k]);
            } else {
                if at < start.len() {
                    assert(start[at] == key);
                }
                assert(after[before.len() as int].0 == key);
            }
        }
    }
}

proof fn lemma_unnamed(entries: Seq<(Seq<char>, JsonModel)>, names: Seq<Seq<char>>)
    requires
        keys_ascend(entries),
    ensures
        forall|k: int|
            0 <= k < unnamed_members(entries, names).len() ==> !names.contains(
                (#[trigger] unnamed_members(entries, names)[k]).0,
            ) && entries.contains(unnamed_members(entries, names)[k]),
        keys_ascend(unnamed_members(entries, names)),
        forall|at: int|
            0 <= at < entries.len() && !names.contains((#[trigger] entries[at]).0)
                ==> unnamed_members(entries, names).contains(entries[at]),
    decreases entries.len(),
{
    if entries.len() > 0 {
        let start = entries.drop_last();
        lemma_unnamed(start, names);
        let before = unnamed_members(start, names);
        let after = unnamed_members(entries, names);
        assert forall|k: int| 0 <= k < after.len() implies !names.contains((#[trigger] after[k]).0)
            && entries.contains(after[k]) by {
            if k < before.len() {
                assert(after[k] == before[k]);
                let at = choose|at: int| 0 <= at < start.len() && start[at] == before[k];
                assert(entries[at] == before[k]);
            } else {
                assert(entries[entries.len() - 1] == after[k]);
            }
        }
        assert forall|i: int, j: int| 0 <= i < j < after.len() implies precedes(
            #[trigger] after[i].0,
            #[trigger] after[j].0,
        ) by {
            assert(after[i] == before[i]);
            if j < before.len() {
                assert(after[j] == before[j]);
            } else {
                let at = choose|at: int| 0 <= at < start.len() && start[at] == before[i];
                assert(entries[at] == before[i]);
                assert(precedes(entries[at].0, entries[entries.len() - 1].0));
            }
        }
        assert forall|at: int|
            0 <= at < entries.len() && !names.contains(
                (#[trigger] entries[at]).0,
            ) implies after.contains(entries[at]) by {
            if at < start.len() {
                assert(start[at] == entries[at]);
                let k = choose|k: int| 0 <= k < before.len() && before[k] == entries[at];
                assert(after[k] == entries[at]);
            } else {
                assert(after[before.len() as int] == entries[at]);
            }
        }
    }
}

/// Reordering loses no argument and adds none: each key stands once, and has the
/// value that it had.
pub proof fn lemma_reordered_keeps_members(
    entries: Seq<(Seq<char>, JsonModel)>,
    names: Seq<Seq<char>>,
)
    requires
        keys_ascend(entries),
    ensures
        forall|i: int, j: int|
            0 <= i < j < reordered(entries, names).len() ==> (#[trigger] reordered(
                entries,
                names,
            )[i]).0 != (#[trigger] reordered(entries, names)[j]).0,
        forall|key: Seq<char>| #[trigger]
            member(reordered(entries, names), key) == member(entries, key),
{
    let named = named_members(entries, names);
    let unnamed = unnamed_members(entries, names);
    let all = reordered(entries, names);
    lemma_named(entries, names);
    lemma_unnamed(entries, names);
    assert forall|i: int, j: int| 0 <= i < j < all.len() implies (#[trigger] all[i]).0 != (
    #[trigger] all[j]).0 by {
        if j < named.len() {
            assert(all[i] == named[i] && all[j] == named[j]);
        } else {
            assert(all[j] == unnamed[j - named.len()]);
            if i < named.len() {
                assert(all[i] == named[i]);
            } else {
                assert(all[i] == unnamed[i - named.len()]);
                lemma_precedes_irreflexive(all[i].0);
            }
        }
    }
    assert forall|key: Seq<char>| #[trigger] member(all, key) == member(entries, key) by {
        if exists|at: int| 0 <= at < all.len() && (#[trigger] all[at]).0 == key {
            let at = choose|at: int| 0 <= at < all.len() && (#[trigger] all[at]).0 == key;
            lemma_member_at(all, key, at);
            if at < named.len() {
                assert(all[at] == named[at]);
            } else {
                assert(all[at] == unnamed[at - named.len()]);
                let k = choose|k: int| 0 <= k < entries.len() && entries[k] == all[at];
                lemma_member_of_ascending(entries, k);
            }
        } else {
            lemma_member_absent(all, key);
            if exists|k: int| 0 <= k < entries.len() && (#[trigger] entries[k]).0 == key {
                let k = choose|k: int| 0 <= k < entries.len() && (#[trigger] entries[k]).0 == key;
                lemma_member_of_ascending(entries, k);
                if names.contains(key) {
                    let place = choose|place: int|
                        0 <= place < named.len() && (#[trigger] named[place]).0 == key;
                    assert(all[place] == named[place]);
                } else {
                    let place = choose|place: int|
                        0 <= place < unnamed.len() && unnamed[place] == entries[k];
                    assert(all[named.len() + place] == unnamed[place]);
                }
            } else {
                lemma_member_absent(entries, key);
            }
        }
    }
}

/// `key` is mentioned before any mention of `other`.
pub open spec fn mentioned_first(names: Seq<Seq<char>>, key: Seq<char>, other: Seq<char>) -> bool {
    exists|at: int|
        {
            &&& 0 <= at < names.len()
            &&& #[trigger] names[at] == key
            &&& forall|k: int| 0 <= k <= at ==> (#[trigger] names[k]) != other
        }
}

proof fn lemma_named_order(entries: Seq<(Seq<char>, JsonModel)>, names: Seq<Seq<char>>)
    ensures
        forall|i: int, j: int|
            0 <= i < j < named_members(entries, names).len() ==> mentioned_first(
                names,
                (#[trigger] named_members(entries, names)[i]).0,
                (#[trigger] named_members(entries, names)[j]).0,
            ),
    decreases names.len(),
{
    if names.len() > 0 {
        let start = names.drop_last();
        let before = named_members(entries, start);
        let after = named_members(entries, names);
        lemma_named_order(entries, start);
        lemma_named(entries, start);
        assert forall|i: int, j: int| 0 <= i < j < after.len() implies mentioned_first(
            names,
            (#[trigger] after[i]).0,
            (#[trigger] after[j]).0,
        ) by {
            assert(after[i] == before[i]);
            if j < before.len() {
                assert(after[j] == before[j]);
                assert(mentioned_first(start, before[i].0, before[j].0));
                let at = choose|at: int|
                    {
                        &&& 0 <= at < start.len()
                        &&& #[trigger] start[at] == before[i].0
                        &&& forall|k: int| 0 <= k <= at ==> (#[trigger] start[k]) != before[j].0
                    };
                assert(names[at] == before[i].0);
                assert forall|k: int| 0 <= k <= at implies (#[trigger] names[k])
                    != before[j].0 by {
                    assert(start[k] == names[k]);
                }
            } else {
                let at = choose|at: int| 0 <= at < start.len() && start[at] == before[i].0;
                assert(names[at] == before[i].0);
                assert forall|k: int| 0 <= k <= at implies (#[trigger] names[k]) != after[j].0 by {
                    assert(start[k] == names[k]);
                    assert(start.contains(start[k]));
                }
            }
        }
    }
}

/// Members that are named come first, in the order in which they are first mentioned; the
/// others follow in the order of their keys.
pub proof fn lemma_reordered_order(entries: Seq<(Seq<char>, JsonModel)>, names: Seq<Seq<char>>)
    requires
        keys_ascend(entries),
    ensures
        forall|i: int, j: int|
            0 <= i < j < reordered(entries, names).len() ==> {
                let one = (#[trigger] reordered(entries, names)[i]).0;
                let other = (#[trigger] reordered(entries, names)[j]).0;
                if names.contains(one) {
                    names.contains(other) ==> mentioned_first(names, one, other)
                } else {
                    !names.contains(other) && precedes(one, other)
                }
            },
{
    let named = named_members(entries, names);
    let unnamed = unnamed_members(entries, names);
    let all = reordered(entries, names);
    lemma_named(entries, names);
    lemma_named_order(entries, names);
    lemma_unnamed(entries, names);
    assert forall|i: int, j: int| 0 <= i < j < all.len() implies {
        let one = (#[trigger] all[i]).0;
        let other = (#[trigger] all[j]).0;
        if names.contains(one) {
            names.contains(other) ==> mentioned_first(names, one, other)
        } else {
            !names.contains(other) && precedes(one, other)
        }
    } by {
        if j < named.len() {
            assert(all[i] == named[i] && all[j] == named[j]);
        } else {
            assert(all[j] == unnamed[j - named.len()]);
            if i < named.len() {
                assert(all[i] == named[i]);
            } else {
                assert(all[i] == unnamed[i - named.len()]);
            }
        }
    }
}

/// Where the names are all different and name all the members, the members stand in the
/// order of the names.
pub proof fn lemma_reordered_all_named(
    entries: Seq<(Seq<char>, JsonModel)>,
    names: Seq<Seq<char>>,
)
    requires
        forall|i: int, j: int|
            0 <= i < j < names.len() ==> (#[trigger] names[i]) != (#[trigger] names[j]),
        forall|k: int| 0 <= k < names.len() ==> member(entries, #[trigger] names[k]) is Some,
        forall|k: int| 0 <= k < entries.len() ==> names.contains((#[trigger] entries[k]).0),
    ensures
        reordered(entries, names) == Seq::new(
            names.len(),
            |k: int| (names[k], member(entries, names[k])->0),
        ),
{
    lemma_all_named(entries, names);
    lemma_none_unnamed(entries, names);
    assert(reordered(entries, names) =~= Seq::new(
        names.len(),
        |k: int| (names[k], member(entries, names[k])->0),
    ));
}

proof fn lemma_all_named(entries: Seq<(Seq<char>, JsonModel)>, names: Seq<Seq<char>>)
    requires
        forall|i: int, j: int|
            0 <= i < j < names.len() ==> (#[trigger] names[i]) != (#[trigger] names[j]),
        forall|k: int| 0 <= k < names.len() ==> member(entries, #[trigger] names[k]) is Some,
    ensures
        named_members(entries, names).len() == names.len(),
        forall|k: int|
            0 <= k < names.len() ==> (#[trigger] named_members(entries, names)[k]) == (
                names[k],
                member(entries, names[k])->0,
            ),
    decreases names.len(),
{
    if names.len() > 0 {
        let start = names.drop_last();
        assert forall|i: int, j: int| 0 <= i < j < start.len() implies (#[trigger] start[i]) != (
        #[trigger] start[j]) by {
            assert(start[i] == names[i] && start[j] == names[j]);
        }
        assert forall|k: int| 0 <= k < start.len() implies member(
            entries,
            #[trigger] start[k],
        ) is Some by {
            assert(start[k] == names[k]);
        }
        lemma_all_named(entries, start);
        assert(names.last() == names[names.len() - 1]);
        if start.contains(names.last()) {
            let k = choose|k: int| 0 <= k < start.len() && start[k] == names.last();
            assert(names[k] == names[names.len() - 1]);
        }
    }
}

proof fn lemma_none_unnamed(entries: Seq<(Seq<char>, JsonModel)>, names: Seq<Seq<char>>)
    requires
        forall|k: int| 0 <= k < entries.len() ==> names.contains((#[trigger] entries[k]).0),
    ensures
        unnamed_members(entries, names).len() == 0,
    decreases entries.len(),
{
    if entries.len() > 0 {
        let start = entries.drop_last();
        assert forall|k: int| 0 <= k < start.len() implies names.contains(
            (#[trigger] start[k]).0,
        ) by {
            assert(start[k] == entries[k]);
        }
        lemma_none_unnamed(start, names);
        assert(names.contains(entries[entries.len() - 1].0));
    }
}

/// Arguments that are no JSON object stay as they are; those of an object are written out
/// in their new order.
pub proof fn lemma_reordered_text(arguments: Seq<char>, names: Seq<Seq<char>>)
    ensures
        match json_parsed(arguments) {
            Some(JsonModel::Object(entries)) => reordered_text(arguments, names) == compact_text(
                JsonModel::Object(reordered(entries, names)),
            ),
            _ => reordered_text(arguments, names) == arguments,
        },
{
}

proof fn lemma_member_of_ascending(entries: Seq<(Seq<char>, JsonModel)>, at: int)
    requires
        keys_ascend(entries),
        0 <= at < entries.len(),
    ensures
        member(entries, entries[at].0) == Some(entries[at].1),
{
    lemma_precedes_irreflexive(entries[at].0);
    lemma_member_at(entries, entries[at].0, at);
}

/// Whether `name` is among the first `count` of `names`.
fn named_before(names: &Vec<String>, count: usize, name: &str) -> (found: bool)
    requires
        count <= names@.len(),
    ensures
        found == string_texts(names@).take(count as int).contains(name@),
{
    let ghost all = string_texts(names@).take(count as int);
    let mut at: usize = 0;
    while at < count
        invariant
            at <= count <= names@.len(),
            all == string_texts(names@).take(count as int),
            forall|k: int| 0 <= k < at ==> (#[trigger] all[k]) != name@,
        decreases count - at,
    {
        assert(all[at as int] == names@[at as int]@);
        if same_text(names[at].as_str(), name) {
            return true;
        }
        at += 1;
    }
    false
}

/// The members of an object as a JSON text, in the order of `names` and behind them
/// those that have no name there.
pub fn reorder_object(entries: &Vec<(String, JsonValue)>, names: &Vec<String>) -> (text: String)
    requires
        well_formed(JsonModel::Object(entries_view(entries@))),
    ensures
        text@ == braced(member_texts(reordered(entries_view(entries@), string_texts(names@)))),
{
    let ghost all = entries_view(entries@);
    let ghost order = string_texts(names@);
    let mut parts: Vec<String> = Vec::new();
    let mut at: usize = 0;
    assert(order.take(0) =~= Seq::empty());
    assert(string_texts(parts@) =~= member_texts(named_members(all, order.take(0))));
    while at < names.len()
        invariant
            at <= names@.len(),
            all == entries_view(entries@),
            order == string_texts(names@),
            well_formed(JsonModel::Object(all)),
            string_texts(parts@) == member_texts(named_members(all, order.take(at as int))),
        decreases names.len() - at,
    {
        assert(order.take(at + 1).drop_last() =~= order.take(at as int));
        assert(order.take(at + 1).last() == names@[at as int]@);
        if let Some(value) = find_member(entries, names[at].as_str()) {
            proof {
                lemma_member_well_formed(all, names@[at as int]@);
            }
            if !named_before(names, at, names[at].as_str()) {
                let ghost before = parts@;
                let ghost earlier = named_members(all, order.take(at as int));
                parts.push(member_string(names[at].as_str(), json_text(value).as_str()));
                assert(string_texts(parts@) =~= string_texts(before).push(parts@.last()@));
                assert(earlier.push((names@[at as int]@, value@)).drop_last() =~= earlier);
            }
        }
        at += 1;
    }
    assert(order.take(at as int) =~= order);
    let ghost named = named_members(all, order);
    let mut next: usize = 0;
    assert(all.take(0) =~= Seq::empty());
    assert(named + unnamed_members(all.take(0), order) =~= named);
    while next < entries.len()
        invariant
            next <= entries@.len(),
            all == entries_view(entries@),
            all.len() == entries@.len(),
            order == string_texts(names@),
            named == named_members(all, order),
            well_formed(JsonModel::Object(all)),
            string_texts(parts@) == member_texts(
                named + unnamed_members(all.take(next as int), order),
            ),
        decreases entries.len() - next,
    {
        assert(all.take(next + 1).drop_last() =~= all.take(next as int));
        assert(all.take(next + 1).last() == all[next as int]);
        assert(all[next as int] == (entries@[next as int].0@, entries@[next as int].1@));
        assert(order.take(names@.len() as int) =~= order);
        if !named_before(names, names.len(), entries[next].0.as_str()) {
            let ghost before = parts@;
            let ghost earlier = named + unnamed_members(all.take(next as int), order);
            parts.push(
                member_string(entries[next].0.as_str(), json_text(&entries[next].1).as_str()),
            );
            assert(string_texts(parts@) =~= string_texts(before).push(parts@.last()@));
            assert(earlier.push(all[next as int]) =~= named + unnamed_members(
                all.take(next + 1),
                order,
            ));
            assert(earlier.push(all[next as int]).drop_last() =~= earlier);
        }
        next += 1;
    }
    assert(all.take(next as int) =~= all);
    braced_text(&parts)
}

/// The arguments of a call with the members of the object in the order of
/// `source_names`. A name that is repeated counts once; a member that has no name
/// there follows in the order of the object; a text that is no JSON object stays
/// as it is.
pub fn reorder_arguments(arguments: &str, source_names: &Vec<String>) -> (text: String)
    ensures
        text@ == reordered_text(arguments@, string_texts(source_names@)),
{
    match parse_json(arguments) {
        Some(JsonValue::Object(entries)) => reorder_object(&entries, source_names),
        _ => arguments.to_owned(),
    }
}

} // verus!
