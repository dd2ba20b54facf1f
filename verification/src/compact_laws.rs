//! What holds of compact JSON texts: strings stay as they are, and between them only
//! white space goes.
use crate::compact::{compacted, is_insignificant, lexeme_behind};
use crate::json::{escaped, escaped_char, quoted};
use crate::text::is_white_space;
use vstd::prelude::*;

verus! {

/// `text` without any white space.
pub open spec fn space_removed(text: Seq<char>) -> Seq<char> {
    text.filter(|ch: char| !is_white_space(ch))
}

/// A text without strings loses its white space and nothing else.
pub proof fn lemma_compacted_between_strings(text: Seq<char>)
    requires
        !text.contains('"'),
    ensures
        compacted(text) == space_removed(text),
        lexeme_behind(text) is Outside,
    decreases text.len(),
{
    reveal(Seq::filter);
    if text.len() > 0 {
        let start = text.drop_last();
        assert(!start.contains('"')) by {
            if start.contains('"') {
                let k = choose|k: int| 0 <= k < start.len() && start[k] == '"';
                assert(text[k] == '"');
            }
        }
        assert(text[text.len() - 1] != '"');
        lemma_compacted_between_strings(start);
    }
}

proof fn lemma_compacted_behind(before: Seq<char>, rest: Seq<char>)
    requires
        lexeme_behind(before) is Outside,
    ensures
        compacted(before + rest) == compacted(before) + compacted(rest),
        lexeme_behind(before + rest) == lexeme_behind(rest),
    decreases rest.len(),
{
    let whole = before + rest;
    if rest.len() == 0 {
        assert(whole =~= before);
        assert(compacted(before) + compacted(rest) =~= compacted(before));
    } else {
        lemma_compacted_behind(before, rest.drop_last());
        assert(whole.drop_last() =~= before + rest.drop_last());
        assert(whole.last() == rest.last());
        assert(compacted(whole) =~= compacted(before) + compacted(rest));
    }
}

/// A character inside a string is kept.
proof fn lemma_kept_inside(text: Seq<char>, ch: char)
    requires
        !(lexeme_behind(text) is Outside),
    ensures
        compacted(text.push(ch)) == compacted(text).push(ch),
        lexeme_behind(text) is Escaped ==> lexeme_behind(text.push(ch)) is Inside,
        lexeme_behind(text) is Inside && ch == '\\' ==> lexeme_behind(text.push(ch)) is Escaped,
        lexeme_behind(text) is Inside && ch == '"' ==> lexeme_behind(text.push(ch)) is Outside,
        lexeme_behind(text) is Inside && ch != '\\' && ch != '"' ==> lexeme_behind(
            text.push(ch),
        ) is Inside,
{
    assert(text.push(ch).drop_last() =~= text);
    assert(!is_insignificant(lexeme_behind(text), ch));
}

proof fn lemma_escape_kept(text: Seq<char>, ch: char)
    requires
        lexeme_behind(text) is Inside,
    ensures
        compacted(text + escaped_char(ch)) == compacted(text) + escaped_char(ch),
        lexeme_behind(text + escaped_char(ch)) is Inside,
{
    let shown = escaped_char(ch);
    if shown.len() == 1 {
        lemma_kept_inside(text, shown[0]);
        assert(text + shown =~= text.push(shown[0]));
        assert(compacted(text) + shown =~= compacted(text).push(shown[0]));
    } else if shown.len() == 2 {
        let one = text.push(shown[0]);
        lemma_kept_inside(text, shown[0]);
        lemma_kept_inside(one, shown[1]);
        assert(text + shown =~= one.push(shown[1]));
        assert(compacted(text) + shown =~= compacted(text).push(shown[0]).push(shown[1]));
    } else {
        let one = text.push(shown[0]);
        let two = one.push(shown[1]);
        let three = two.push(shown[2]);
        let four = three.push(shown[3]);
        let five = four.push(shown[4]);
        lemma_kept_inside(text, shown[0]);
        lemma_kept_inside(one, shown[1]);
        lemma_kept_inside(two, shown[2]);
        lemma_kept_inside(three, shown[3]);
        lemma_kept_inside(four, shown[4]);
        lemma_kept_inside(five, shown[5]);
        assert(text + shown =~= five.push(shown[5]));
        assert(compacted(text) + shown =~= compacted(text).push(shown[0]).push(shown[1]).push(
            shown[2],
        ).push(shown[3]).push(shown[4]).push(shown[5]));
    }
}

proof fn lemma_open_string_kept(value: Seq<char>)
    ensures
        compacted(seq!['"'] + escaped(value)) == seq!['"'] + escaped(value),
        lexeme_behind(seq!['"'] + escaped(value)) is Inside,
    decreases value.len(),
{
    let text = seq!['"'] + escaped(value);
    if value.len() == 0 {
        assert(text =~= seq!['"']);
        assert(text.drop_last() =~= Seq::empty());
        assert(text.last() == '"');
        assert(compacted(text.drop_last()) =~= Seq::empty());
        assert(lexeme_behind(text.drop_last()) is Outside);
        assert(compacted(text) =~= text);
    } else {
        let start = seq!['"'] + escaped(value.drop_last());
        lemma_open_string_kept(value.drop_last());
        lemma_escape_kept(start, value.last());
        assert(text =~= start + escaped_char(value.last()));
    }
}

/// A string stays as it is, with the white space in it.
pub proof fn lemma_string_kept(value: Seq<char>)
    ensures
        compacted(quoted(value)) == quoted(value),
        lexeme_behind(quoted(value)) is Outside,
{
    let text = seq!['"'] + escaped(value);
    lemma_open_string_kept(value);
    lemma_kept_inside(text, '"');
    assert(quoted(value) =~= text.push('"'));
}

/// A text loses the white space before its first string, keeps that string as it is, and
/// is then compacted as if it began there.
pub proof fn lemma_compacted_strings(before: Seq<char>, value: Seq<char>, rest: Seq<char>)
    requires
        !before.contains('"'),
    ensures
        compacted(before + quoted(value) + rest) == space_removed(before) + quoted(value)
            + compacted(rest),
{
    lemma_compacted_between_strings(before);
    lemma_string_kept(value);
    lemma_compacted_behind(before, quoted(value));
    lemma_compacted_behind(before + quoted(value), rest);
}

} // verus!
