//! JSON texts without insignificant white space.
use crate::text::is_white_space;
use vstd::prelude::*;

verus! {

/// Where a reader of JSON text stands.
pub enum Lexeme {
    /// Outside of strings.
    Outside,
    /// Inside a string.
    Inside,
    /// Inside a string, behind a backslash.
    Escaped,
}

/// Where the reader stands behind `ch`.
pub open spec fn lexeme_after(lexeme: Lexeme, ch: char) -> Lexeme {
    match lexeme {
        Lexeme::Outside => if ch == '"' {
            Lexeme::Inside
        } else {
            Lexeme::Outside
        },
        Lexeme::Inside => if ch == '\\' {
            Lexeme::Escaped
        } else if ch == '"' {
            Lexeme::Outside
        } else {
            Lexeme::Inside
        },
        Lexeme::Escaped => Lexeme::Inside,
    }
}

/// `ch` says nothing where the reader stands: it is white space between lexemes.
pub open spec fn is_insignificant(lexeme: Lexeme, ch: char) -> bool {
    lexeme is Outside && is_white_space(ch)
}

/// Where the reader stands behind `text`.
pub open spec fn lexeme_behind(text: Seq<char>) -> Lexeme
    decreases text.len(),
{
    if text.len() == 0 {
        Lexeme::Outside
    } else {
        lexeme_after(lexeme_behind(text.drop_last()), text.last())
    }
}

/// `text` without the white space that stands outside of strings.
pub open spec fn compacted(text: Seq<char>) -> Seq<char>
    decreases text.len(),
{
    if text.len() == 0 {
        Seq::empty()
    } else if is_insignificant(lexeme_behind(text.drop_last()), text.last()) {
        compacted(text.drop_last())
    } else {
        compacted(text.drop_last()).push(text.last())
    }
}

/// Compacting does not change what stands inside of strings and what outside.
proof fn lemma_compacted_lexeme(text: Seq<char>)
    ensures
        lexeme_behind(compacted(text)) == lexeme_behind(text),
    decreases text.len(),
{
    if text.len() > 0 {
        let start = text.drop_last();
        lemma_compacted_lexeme(start);
        if !is_insignificant(lexeme_behind(start), text.last()) {
            assert(compacted(text).drop_last() =~= compacted(start));
        }
    }
}

/// A compact text stays as it is.
pub proof fn lemma_compacted_stays(text: Seq<char>)
    ensures
        compacted(compacted(text)) == compacted(text),
    decreases text.len(),
{
    if text.len() > 0 {
        let start = text.drop_last();
        lemma_compacted_stays(start);
        lemma_compacted_lexeme(start);
        if !is_insignificant(lexeme_behind(start), text.last()) {
            assert(compacted(text).drop_last() =~= compacted(start));
        }
    }
}

/// A text without white space is compact.
pub proof fn lemma_compact_without_space(text: Seq<char>)
    requires
        forall|at: int| 0 <= at < text.len() ==> !is_white_space(#[trigger] text[at]),
    ensures
        compacted(text) == text,
    decreases text.len(),
{
    if text.len() > 0 {
        let start = text.drop_last();
        assert forall|at: int| 0 <= at < start.len() implies !is_white_space(
            #[trigger] start[at],
        ) by {
            assert(start[at] == text[at]);
        }
        assert(!is_white_space(text[text.len() - 1]));
        lemma_compact_without_space(start);
        assert(compacted(text) =~= text);
    } else {
        assert(text =~= Seq::empty());
    }
}

/// `text` without any white space.
pub open spec fn without_space(text: Seq<char>) -> Seq<char>
    decreases text.len(),
{
    if text.len() == 0 {
        Seq::empty()
    } else if is_white_space(text.last()) {
        without_space(text.drop_last())
    } else {
        without_space(text.drop_last()).push(text.last())
    }
}

/// Compacting removes white space alone: everything else stays, in its order.
pub proof fn lemma_compacted_keeps(text: Seq<char>)
    ensures
        without_space(compacted(text)) == without_space(text),
    decreases text.len(),
{
    if text.len() > 0 {
        let start = text.drop_last();
        lemma_compacted_keeps(start);
        if !is_insignificant(lexeme_behind(start), text.last()) {
            assert(compacted(text).drop_last() =~= compacted(start));
        }
    }
}

/// Removes the white space that stands outside of strings. The order of object
/// keys and the spelling of numbers stay as they are.
pub fn compact_json_lexically(raw: &[char]) -> (text: Vec<char>)
    ensures
        text@ == compacted(raw@),
{
    let mut output: Vec<char> = Vec::new();
    let mut in_string = false;
    let mut escaped = false;
    let mut at: usize = 0;
    assert(raw@.take(0) =~= Seq::empty());
    while at < raw.len()
        invariant
            at <= raw@.len(),
            output@ == compacted(raw@.take(at as int)),
            match lexeme_behind(raw@.take(at as int)) {
                Lexeme::Outside => !in_string && !escaped,
                Lexeme::Inside => in_string && !escaped,
                Lexeme::Escaped => in_string && escaped,
            },
        decreases raw.len() - at,
    {
        let ch = raw[at];
        assert(raw@.take(at + 1).drop_last() =~= raw@.take(at as int));
        assert(raw@.take(at + 1).last() == ch);
        if in_string {
            output.push(ch);
            if escaped {
                escaped = false;
            } else if ch == '\\' {
                escaped = true;
            } else if ch == '"' {
                in_string = false;
            }
        } else if ch == '"' {
            in_string = true;
            output.push(ch);
        } else if !ch.is_whitespace() {
            output.push(ch);
        }
        at += 1;
    }
    assert(raw@.take(at as int) =~= raw@);
    output
}

} // verus!
