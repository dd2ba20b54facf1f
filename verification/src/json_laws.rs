//! What holds of JSON objects and of the text of JSON values.
use crate::decimal::digits;
use crate::json::{
    braced, comma_joined, compact_text, escaped, escaped_char, item_texts, member, member_text,
    member_texts, precedes, quoted, JsonModel, NumberModel,
};
use vstd::prelude::*;

verus! {

/// `left` comes before `right` where the texts are the same up to some place, and there
/// `left` has ended or has the lesser character.
pub proof fn lemma_precedes_is(left: Seq<char>, right: Seq<char>)
    ensures
        precedes(left, right) <==> exists|at: int|
            {
                &&& 0 <= at <= left.len()
                &&& at < right.len()
                &&& #[trigger] left.take(at) == right.take(at)
                &&& at == left.len() || left[at] < right[at]
            },
    decreases left.len(),
{
    if right.len() > 0 {
        if left.len() == 0 {
            assert(left.take(0) =~= right.take(0));
        } else if left[0] == right[0] {
            let l = left.drop_first();
            let r = right.drop_first();
            lemma_precedes_is(l, r);
            if precedes(l, r) {
                let at = choose|at: int|
                    {
                        &&& 0 <= at <= l.len()
                        &&& at < r.len()
                        &&& #[trigger] l.take(at) == r.take(at)
                        &&& at == l.len() || l[at] < r[at]
                    };
                assert(left.take(at + 1) =~= seq![left[0]] + l.take(at));
                assert(right.take(at + 1) =~= seq![right[0]] + r.take(at));
                assert(left.take(at + 1) == right.take(at + 1));
            }
            if exists|at: int|
                {
                    &&& 0 <= at <= left.len()
                    &&& at < right.len()
                    &&& #[trigger] left.take(at) == right.take(at)
                    &&& at == left.len() || left[at] < right[at]
                } {
                let at = choose|at: int|
                    {
                        &&& 0 <= at <= left.len()
                        &&& at < right.len()
                        &&& #[trigger] left.take(at) == right.take(at)
                        &&& at == left.len() || left[at] < right[at]
                    };
                assert(at > 0);
                assert(l.take(at - 1) =~= left.take(at).drop_first());
                assert(r.take(at - 1) =~= right.take(at).drop_first());
                assert(l.take(at - 1) == r.take(at - 1));
            }
        } else {
            assert(left.take(0) =~= right.take(0));
            assert forall|at: int|
                0 < at <= left.len() && at < right.len() implies #[trigger] left.take(at)
                != right.take(at) by {
                assert(left.take(at)[0] == left[0]);
                assert(right.take(at)[0] == right[0]);
            }
        }
    }
}

/// A key has the value of the first member with that key.
pub proof fn lemma_member_is(entries: Seq<(Seq<char>, JsonModel)>, key: Seq<char>)
    ensures
        match member(entries, key) {
            Some(value) => exists|at: int|
                {
                    &&& 0 <= at < entries.len()
                    &&& #[trigger] entries[at] == (key, value)
                    &&& forall|k: int| 0 <= k < at ==> (#[trigger] entries[k]).0 != key
                },
            None => forall|k: int| 0 <= k < entries.len() ==> (#[trigger] entries[k]).0 != key,
        },
    decreases entries.len(),
{
    if entries.len() > 0 {
        let rest = entries.drop_first();
        if entries[0].0 == key {
            assert(entries[0] == (key, entries[0].1));
        } else {
            lemma_member_is(rest, key);
            if member(entries, key) is Some {
                let value = member(entries, key)->0;
                let at = choose|at: int|
                    {
                        &&& 0 <= at < rest.len()
                        &&& #[trigger] rest[at] == (key, value)
                        &&& forall|k: int| 0 <= k < at ==> (#[trigger] rest[k]).0 != key
                    };
                assert(entries[at + 1] == (key, value));
                assert forall|k: int| 0 <= k < at + 1 implies (#[trigger] entries[k]).0 != key by {
                    if k > 0 {
                        assert(rest[k - 1] == entries[k]);
                    }
                }
            } else {
                assert forall|k: int| 0 <= k < entries.len() implies (#[trigger] entries[k]).0
                    != key by {
                    if k > 0 {
                        assert(rest[k - 1] == entries[k]);
                    }
                }
            }
        }
    }
}

/// Parts are joined with one comma between any two neighbours, and with nothing else.
pub proof fn lemma_comma_joined(one: Seq<Seq<char>>, other: Seq<Seq<char>>, part: Seq<char>)
    ensures
        comma_joined(Seq::empty()) == Seq::<char>::empty(),
        comma_joined(seq![part]) == part,
        one.len() > 0 && other.len() > 0 ==> comma_joined(one + other) == comma_joined(one) + seq![
            ',',
        ] + comma_joined(other),
    decreases other.len(),
{
    if one.len() > 0 && other.len() > 0 {
        let whole = one + other;
        assert(whole.last() == other.last());
        assert(whole.drop_last() =~= one + other.drop_last());
        if other.len() == 1 {
            assert(one + other.drop_last() =~= one);
            assert(comma_joined(other) == other[0]);
        } else {
            lemma_comma_joined(one, other.drop_last(), part);
            assert(comma_joined(whole) =~= comma_joined(one) + seq![','] + comma_joined(other));
        }
    }
}

/// A text is escaped character by character.
pub proof fn lemma_escaped_joins(one: Seq<char>, other: Seq<char>)
    ensures
        escaped(one + other) == escaped(one) + escaped(other),
    decreases other.len(),
{
    let whole = one + other;
    if other.len() == 0 {
        assert(whole =~= one);
        assert(escaped(one) + escaped(other) =~= escaped(one));
    } else {
        assert(whole.last() == other.last());
        assert(whole.drop_last() =~= one + other.drop_last());
        lemma_escaped_joins(one, other.drop_last());
        assert(escaped(whole) =~= escaped(one) + escaped(other));
    }
}

/// A quote and a backslash are written behind a backslash, the control characters by
/// their letters or numbers, and every other character as it is.
pub proof fn lemma_escaped_each(ch: char)
    ensures
        ch >= ' ' && ch != '"' && ch != '\\' ==> escaped(seq![ch]) == seq![ch],
        escaped(seq!['"']) == seq!['\\', '"'],
        escaped(seq!['\\']) == seq!['\\', '\\'],
        escaped(seq!['\n']) == seq!['\\', 'n'],
        escaped(seq!['\t']) == seq!['\\', 't'],
        escaped(seq!['\r']) == seq!['\\', 'r'],
        escaped(seq!['\u{8}']) == seq!['\\', 'b'],
        escaped(seq!['\u{c}']) == seq!['\\', 'f'],
        ch < ' ' && ch != '\n' && ch != '\t' && ch != '\r' && ch != '\u{8}' && ch != '\u{c}' ==> {
            let text = escaped(seq![ch]);
            &&& text.len() == 6
            &&& text.take(4) == seq!['\\', 'u', '0', '0']
            &&& text[4] == "0123456789abcdef"@[ch as int / 16]
            &&& text[5] == "0123456789abcdef"@[ch as int % 16]
        },
{
    reveal_strlit("0123456789abcdef");
    lemma_escaped_one(ch);
    lemma_escaped_one('"');
    lemma_escaped_one('\\');
    lemma_escaped_one('\n');
    lemma_escaped_one('\t');
    lemma_escaped_one('\r');
    lemma_escaped_one('\u{8}');
    lemma_escaped_one('\u{c}');
    if ch < ' ' && ch != '\n' && ch != '\t' && ch != '\r' && ch != '\u{8}' && ch != '\u{c}' {
        assert(escaped(seq![ch]).take(4) =~= seq!['\\', 'u', '0', '0']);
    }
}

proof fn lemma_escaped_one(ch: char)
    ensures
        escaped(seq![ch]) == escaped_char(ch),
{
    let one = seq![ch];
    assert(one.drop_last() =~= Seq::<char>::empty());
    assert(escaped(one.drop_last()) =~= Seq::<char>::empty());
    assert(escaped(one) =~= escaped_char(ch));
}

/// A string is written between quotes, and a member as its quoted key, a colon and its
/// value.
pub proof fn lemma_written_member(key: Seq<char>, value: Seq<char>)
    ensures
        quoted(key) == seq!['"'] + escaped(key) + seq!['"'],
        member_text(key, value) == seq!['"'] + escaped(key) + seq!['"', ':'] + value,
{
    assert(member_text(key, value) =~= seq!['"'] + escaped(key) + seq!['"', ':'] + value);
}

/// The text of an array has the text of every item at its place, and that of an object
/// the text of every member at its place.
pub proof fn lemma_compact_parts(items: Seq<JsonModel>, entries: Seq<(Seq<char>, JsonModel)>)
    ensures
        compact_text(JsonModel::Array(items)) == seq!['['] + comma_joined(
            Seq::new(items.len(), |k: int| compact_text(items[k])),
        ) + seq![']'],
        compact_text(JsonModel::Object(entries)) == seq!['{'] + comma_joined(
            Seq::new(
                entries.len(),
                |k: int|
                    seq!['"'] + escaped(entries[k].0) + seq!['"', ':'] + compact_text(entries[k].1),
            ),
        ) + seq!['}'],
        braced(member_texts(entries)) == compact_text(JsonModel::Object(entries)),
{
    lemma_item_texts(items);
    lemma_member_texts(entries);
    assert(item_texts(items) =~= Seq::new(items.len(), |k: int| compact_text(items[k])));
    let parts = Seq::new(
        entries.len(),
        |k: int| seq!['"'] + escaped(entries[k].0) + seq!['"', ':'] + compact_text(entries[k].1),
    );
    assert forall|k: int| 0 <= k < entries.len() implies member_texts(entries)[k] == parts[k] by {
        lemma_written_member(entries[k].0, compact_text(entries[k].1));
    }
    assert(member_texts(entries) =~= parts);
}

/// The texts of a run of values are those of its values, one by one.
pub proof fn lemma_item_texts(items: Seq<JsonModel>)
    ensures
        item_texts(items).len() == items.len(),
        forall|k: int|
            0 <= k < items.len() ==> (#[trigger] item_texts(items)[k]) == compact_text(items[k]),
    decreases items.len(),
{
    if items.len() > 0 {
        lemma_item_texts(items.drop_last());
    }
}

/// The texts of a run of members are those of its members, one by one.
pub proof fn lemma_member_texts(entries: Seq<(Seq<char>, JsonModel)>)
    ensures
        member_texts(entries).len() == entries.len(),
        forall|k: int|
            0 <= k < entries.len() ==> (#[trigger] member_texts(entries)[k]) == member_text(
                entries[k].0,
                compact_text(entries[k].1),
            ),
    decreases entries.len(),
{
    if entries.len() > 0 {
        lemma_member_texts(entries.drop_last());
    }
}

/// The text of a literal: `null`, `true` or `false`, an integer in decimal, and a string
/// between quotes.
pub proof fn lemma_compact_literals(text: Seq<char>, number: u64, below: i64)
    requires
        below < 0,
    ensures
        compact_text(JsonModel::Null) == "null"@,
        compact_text(JsonModel::Bool(true)) == "true"@,
        compact_text(JsonModel::Bool(false)) == "false"@,
        compact_text(JsonModel::Text(text)) == seq!['"'] + escaped(text) + seq!['"'],
        compact_text(JsonModel::Number(NumberModel::PosInt(number))) == digits(number as nat),
        compact_text(JsonModel::Number(NumberModel::NegInt(below))) == seq!['-'] + digits(
            (-below) as nat,
        ),
{
}

} // verus!
