//! What holds of trimming and replacing.
use crate::text::{
    first_index, is_white_space, leading_space, lemma_first_index, lemma_first_index_bounds,
    lemma_found_stays, lemma_leading_space_bound, lemma_trailing_space_bound, occurs, replace,
    trailing_space, trim, trim_end, trim_start,
};
use vstd::prelude::*;

verus! {

broadcast use {
    lemma_first_index_bounds,
    lemma_leading_space_bound,
    lemma_trailing_space_bound,
};

/// All characters are white space.
pub open spec fn is_blank(text: Seq<char>) -> bool {
    forall|k: int| 0 <= k < text.len() ==> is_white_space(#[trigger] text[k])
}

/// A text is empty, or begins with no white space.
pub open spec fn starts_solid(text: Seq<char>) -> bool {
    text.len() > 0 ==> !is_white_space(text[0])
}

/// A text is empty, or ends with no white space.
pub open spec fn ends_solid(text: Seq<char>) -> bool {
    text.len() > 0 ==> !is_white_space(text.last())
}

/// White space before a text goes, and nothing else.
pub proof fn lemma_trim_start_of(space: Seq<char>, text: Seq<char>)
    requires
        is_blank(space),
        starts_solid(text),
    ensures
        trim_start(space + text) == text,
        leading_space(space + text) == space.len(),
    decreases space.len(),
{
    let whole = space + text;
    if space.len() == 0 {
        assert(whole =~= text);
        assert(whole.skip(0) =~= text);
    } else {
        let rest = space.drop_first();
        assert forall|k: int| 0 <= k < rest.len() implies is_white_space(#[trigger] rest[k]) by {
            assert(rest[k] == space[k + 1]);
        }
        assert(whole.drop_first() =~= rest + text);
        assert(is_white_space(space[0]));
        lemma_trim_start_of(rest, text);
        assert(whole.skip(space.len() as int) =~= text);
    }
}

/// White space behind a text goes, and nothing else.
pub proof fn lemma_trim_end_of(text: Seq<char>, space: Seq<char>)
    requires
        is_blank(space),
        ends_solid(text),
    ensures
        trim_end(text + space) == text,
        trailing_space(text + space) == space.len(),
    decreases space.len(),
{
    let whole = text + space;
    if space.len() == 0 {
        assert(whole =~= text);
        assert(whole.take(text.len() as int) =~= text);
    } else {
        let rest = space.drop_last();
        assert forall|k: int| 0 <= k < rest.len() implies is_white_space(#[trigger] rest[k]) by {
            assert(rest[k] == space[k]);
        }
        assert(whole.drop_last() =~= text + rest);
        assert(is_white_space(space[space.len() - 1]));
        assert(whole.last() == space[space.len() - 1]);
        lemma_trim_end_of(text, rest);
        assert(whole.take(text.len() as int) =~= text);
    }
}

/// White space around a text goes, and nothing else.
pub proof fn lemma_trim_of(before: Seq<char>, text: Seq<char>, behind: Seq<char>)
    requires
        is_blank(before),
        is_blank(behind),
        starts_solid(text),
        ends_solid(text),
    ensures
        trim(before + text + behind) == text,
{
    if text.len() == 0 {
        let all = before + behind;
        assert forall|k: int| 0 <= k < all.len() implies is_white_space(#[trigger] all[k]) by {
            if k < before.len() {
                assert(all[k] == before[k]);
            } else {
                assert(all[k] == behind[k - before.len()]);
            }
        }
        assert(before + text + behind =~= all + text);
        lemma_trim_start_of(all, text);
        assert(trim_end(text) =~= text);
    } else {
        assert(before + text + behind =~= before + (text + behind));
        lemma_trim_start_of(before, text + behind);
        lemma_trim_end_of(text, behind);
    }
}

/// What is left of a text by trimming is a part of it; there is only white space around
/// that part, and none at its ends.
pub proof fn lemma_trim_leaves(text: Seq<char>) -> (parts: (Seq<char>, Seq<char>))
    ensures
        text == parts.0 + trim(text) + parts.1,
        is_blank(parts.0),
        is_blank(parts.1),
        starts_solid(trim(text)),
        ends_solid(trim(text)),
{
    let from = leading_space(text) as int;
    let rest = trim_start(text);
    let to = rest.len() - trailing_space(rest);
    lemma_leading(text);
    lemma_trailing(rest);
    let before = text.take(from);
    let behind = rest.skip(to);
    assert(text =~= before + trim(text) + behind);
    (before, behind)
}

proof fn lemma_leading(text: Seq<char>)
    ensures
        is_blank(text.take(leading_space(text) as int)),
        starts_solid(text.skip(leading_space(text) as int)),
    decreases text.len(),
{
    let count = leading_space(text) as int;
    if text.len() > 0 && is_white_space(text[0]) {
        let rest = text.drop_first();
        lemma_leading(rest);
        let start = text.take(count);
        assert forall|k: int| 0 <= k < start.len() implies is_white_space(#[trigger] start[k]) by {
            if k > 0 {
                assert(start[k] == rest.take(count - 1)[k - 1]);
            }
        }
        assert(text.skip(count) =~= rest.skip(count - 1));
    }
}

proof fn lemma_trailing(text: Seq<char>)
    ensures
        is_blank(text.skip(text.len() - trailing_space(text))),
        ends_solid(text.take(text.len() - trailing_space(text))),
    decreases text.len(),
{
    let to = text.len() - trailing_space(text);
    if text.len() > 0 && is_white_space(text.last()) {
        let rest = text.drop_last();
        lemma_trailing(rest);
        let end = text.skip(to);
        assert forall|k: int| 0 <= k < end.len() implies is_white_space(#[trigger] end[k]) by {
            if k < end.len() - 1 {
                assert(end[k] == rest.skip(to)[k]);
            } else {
                assert(end[k] == text.last());
            }
        }
        assert(text.take(to) =~= rest.take(to));
    } else {
        assert(text.take(to) =~= text);
    }
}

/// A text in which the pattern does not stand stays as it is.
pub proof fn lemma_replace_nothing(text: Seq<char>, pattern: Seq<char>, substitute: Seq<char>)
    requires
        !occurs(text, pattern),
    ensures
        replace(text, pattern, substitute) == text,
{
    lemma_first_index(text, pattern);
}

/// The first place where the pattern stands gets the substitute; the text before it stays,
/// and the text behind it is treated in the same way.
pub proof fn lemma_replace_first(
    before: Seq<char>,
    pattern: Seq<char>,
    rest: Seq<char>,
    substitute: Seq<char>,
)
    requires
        pattern.len() > 0,
        first_index(before + pattern, pattern) == Some(before.len() as int),
    ensures
        replace(before + pattern + rest, pattern, substitute) == before + substitute + replace(
            rest,
            pattern,
            substitute,
        ),
{
    let whole = before + pattern + rest;
    lemma_found_stays(before + pattern, rest, pattern);
    assert(whole.take(before.len() as int) =~= before);
    assert(whole.skip((before.len() + pattern.len()) as int) =~= rest);
}

/// White space is what Unicode calls so: the control characters from tab to carriage return,
/// the space, and the separators beyond ASCII.
pub proof fn lemma_white_space(ch: char)
    ensures
        is_white_space(ch) <==> ({
            let code = ch as nat;
            ||| 9 <= code <= 13
            ||| code == 32
            ||| code == 0x85
            ||| code == 0xa0
            ||| code == 0x1680
            ||| 0x2000 <= code <= 0x200a
            ||| code == 0x2028
            ||| code == 0x2029
            ||| code == 0x202f
            ||| code == 0x205f
            ||| code == 0x3000
        }),
{
}

} // verus!
