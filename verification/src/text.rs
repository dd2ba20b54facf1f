//! Text as a sequence of characters: searching, trimming, replacing, and the
//! conversions between strings and slices of characters.
use vstd::prelude::*;
use vstd::slice::slice_subrange;
use vstd::utf8::{encode_scalar, encode_utf8};

verus! {

/// `pattern` stands in `text` at position `at`.
pub open spec fn occurs_at(text: Seq<char>, pattern: Seq<char>, at: int) -> bool {
    &&& 0 <= at
    &&& at + pattern.len() <= text.len()
    &&& text.subrange(at, at + pattern.len()) == pattern
}

/// `at` is the leftmost position at which `pattern` stands in `text`.
pub open spec fn is_first(text: Seq<char>, pattern: Seq<char>, at: int) -> bool {
    &&& occurs_at(text, pattern, at)
    &&& forall|earlier: int| 0 <= earlier < at ==> !occurs_at(text, pattern, earlier)
}

/// `pattern` stands somewhere in `text`.
pub open spec fn occurs(text: Seq<char>, pattern: Seq<char>) -> bool {
    exists|at: int| occurs_at(text, pattern, at)
}

/// The leftmost position of `pattern` in `text`, if there is one.
#[verifier::opaque]
pub open spec fn first_index(text: Seq<char>, pattern: Seq<char>) -> Option<int> {
    if occurs(text, pattern) {
        Some(choose|at: int| is_first(text, pattern, at))
    } else {
        None
    }
}

/// `text` begins with `pattern`.
pub open spec fn begins_with(text: Seq<char>, pattern: Seq<char>) -> bool {
    pattern.len() <= text.len() && text.take(pattern.len() as int) == pattern
}

/// `text` ends with `pattern`.
pub open spec fn ends_with(text: Seq<char>, pattern: Seq<char>) -> bool {
    pattern.len() <= text.len() && text.skip(text.len() - pattern.len()) == pattern
}

proof fn lemma_least_occurrence(text: Seq<char>, pattern: Seq<char>, at: int)
    requires
        occurs_at(text, pattern, at),
    ensures
        exists|first: int| is_first(text, pattern, first),
    decreases at,
{
    if is_first(text, pattern, at) {
    } else {
        let earlier = choose|earlier: int| 0 <= earlier < at && occurs_at(text, pattern, earlier);
        lemma_least_occurrence(text, pattern, earlier);
    }
}

/// What [`first_index`] says, spelled out with quantifiers.
pub proof fn lemma_first_index(text: Seq<char>, pattern: Seq<char>)
    ensures
        match first_index(text, pattern) {
            Some(at) => is_first(text, pattern, at),
            None => forall|at: int| !occurs_at(text, pattern, at),
        },
{
    reveal(first_index);
    if occurs(text, pattern) {
        let at = choose|at: int| occurs_at(text, pattern, at);
        lemma_least_occurrence(text, pattern, at);
    }
}

/// A leftmost position is what [`first_index`] gives.
pub proof fn lemma_first_index_is(text: Seq<char>, pattern: Seq<char>, at: int)
    requires
        is_first(text, pattern, at),
    ensures
        first_index(text, pattern) == Some(at),
{
    lemma_first_index(text, pattern);
    let found = first_index(text, pattern).unwrap();
    if found < at {
        assert(!occurs_at(text, pattern, found));
    } else if at < found {
        assert(!occurs_at(text, pattern, at));
    }
}

/// A position found lies within the text.
pub broadcast proof fn lemma_first_index_bounds(text: Seq<char>, pattern: Seq<char>)
    ensures
        (#[trigger] first_index(text, pattern)) matches Some(at) ==> 0 <= at && at + pattern.len()
            <= text.len(),
{
    lemma_first_index(text, pattern);
}

/// What stands in a text stands there when more text follows, and what stands
/// wholly in its beginning stood there before.
pub proof fn lemma_occurs_in_longer(text: Seq<char>, more: Seq<char>, marker: Seq<char>, at: int)
    ensures
        occurs_at(text, marker, at) ==> occurs_at(text + more, marker, at),
        occurs_at(text + more, marker, at) && at + marker.len() <= text.len() ==> occurs_at(
            text,
            marker,
            at,
        ),
{
    if 0 <= at && at + marker.len() <= text.len() {
        assert((text + more).subrange(at, at + marker.len()) =~= text.subrange(
            at,
            at + marker.len(),
        ));
    }
}

/// A marker that was found is found at the same position when more text follows.
pub proof fn lemma_found_stays(text: Seq<char>, more: Seq<char>, marker: Seq<char>)
    ensures
        first_index(text, marker) matches Some(at) ==> first_index(text + more, marker) == Some(at),
{
    lemma_first_index(text, marker);
    if let Some(at) = first_index(text, marker) {
        lemma_occurs_in_longer(text, more, marker, at);
        assert forall|earlier: int| 0 <= earlier < at implies !occurs_at(
            text + more,
            marker,
            earlier,
        ) by {
            lemma_occurs_in_longer(text, more, marker, earlier);
        }
        lemma_first_index_is(text + more, marker, at);
    }
}

/// A marker that was found is found at the same position in a beginning of the text
/// that holds it.
pub proof fn lemma_found_in_start(text: Seq<char>, keep: int, marker: Seq<char>)
    requires
        first_index(text, marker) matches Some(at) && at + marker.len() <= keep <= text.len(),
    ensures
        first_index(text.take(keep), marker) == first_index(text, marker),
{
    let at = first_index(text, marker).unwrap();
    let start = text.take(keep);
    lemma_first_index(text, marker);
    assert(text =~= start + text.skip(keep));
    lemma_occurs_in_longer(start, text.skip(keep), marker, at);
    assert forall|earlier: int| 0 <= earlier < at implies !occurs_at(start, marker, earlier) by {
        lemma_occurs_in_longer(start, text.skip(keep), marker, earlier);
    }
    lemma_first_index_is(start, marker, at);
}

/// Where a marker stands nowhere before `from`, it is found in the rest.
pub proof fn lemma_found_in_rest(text: Seq<char>, from: int, marker: Seq<char>)
    requires
        0 <= from <= text.len(),
        forall|at: int| 0 <= at < from ==> !occurs_at(text, marker, at),
    ensures
        first_index(text, marker) == (match first_index(text.skip(from), marker) {
            Some(at) => Some(from + at),
            None => None,
        }),
{
    let rest = text.skip(from);
    assert forall|at: int| 0 <= at implies occurs_at(rest, marker, at) == #[trigger] occurs_at(
        text,
        marker,
        from + at,
    ) by {
        if at + marker.len() <= rest.len() {
            assert(rest.subrange(at, at + marker.len()) =~= text.subrange(
                from + at,
                from + at + marker.len(),
            ));
        }
    }
    lemma_first_index(rest, marker);
    lemma_first_index(text, marker);
    match first_index(rest, marker) {
        Some(at) => {
            assert(occurs_at(text, marker, from + at));
            assert forall|earlier: int| 0 <= earlier < from + at implies !occurs_at(
                text,
                marker,
                earlier,
            ) by {
                if earlier >= from {
                    assert(occurs_at(rest, marker, earlier - from) == occurs_at(
                        text,
                        marker,
                        from + (earlier - from),
                    ));
                }
            }
            lemma_first_index_is(text, marker, from + at);
        },
        None => {
            if let Some(at) = first_index(text, marker) {
                assert(occurs_at(rest, marker, at - from) == occurs_at(
                    text,
                    marker,
                    from + (at - from),
                ));
            }
        },
    }
}

/// Whether `pattern` stands in `text` at position `at`.
pub fn occurs_here(text: &[char], pattern: &[char], at: usize) -> (found: bool)
    requires
        at <= text.len(),
    ensures
        found == occurs_at(text@, pattern@, at as int),
{
    if pattern.len() > text.len() - at {
        return false;
    }
    let mut offset: usize = 0;
    while offset < pattern.len()
        invariant
            offset <= pattern.len(),
            at + pattern.len() <= text.len(),
            forall|k: int| 0 <= k < offset ==> text@[at + k] == pattern@[k],
        decreases pattern.len() - offset,
    {
        if text[at + offset] != pattern[offset] {
            assert(text@.subrange(at as int, at + pattern@.len())[offset as int]
                != pattern@[offset as int]);
            return false;
        }
        offset += 1;
    }
    assert(text@.subrange(at as int, at + pattern@.len()) =~= pattern@);
    true
}

/// The leftmost position of `pattern` in `text`, counted in characters.
pub fn find(text: &[char], pattern: &[char]) -> (found: Option<usize>)
    ensures
        match found {
            Some(at) => first_index(text@, pattern@) == Some(at as int) && at + pattern@.len()
                <= text@.len(),
            None => first_index(text@, pattern@) is None,
        },
{
    let mut at: usize = 0;
    while pattern.len() <= text.len() - at
        invariant
            at <= text.len(),
            forall|k: int| 0 <= k < at ==> !occurs_at(text@, pattern@, k),
        decreases text.len() + 1 - at,
    {
        if occurs_here(text, pattern, at) {
            proof {
                lemma_first_index_is(text@, pattern@, at as int);
            }
            return Some(at);
        }
        if at == text.len() {
            proof {
                lemma_first_index(text@, pattern@);
            }
            return None;
        }
        at += 1;
    }
    proof {
        lemma_first_index(text@, pattern@);
    }
    None
}

/// The characters of a string.
pub fn chars_of(text: &str) -> (chars: Vec<char>)
    ensures
        chars@ == text@,
{
    let mut chars: Vec<char> = Vec::new();
    for ch in it: text.chars()
        invariant
            chars@ == it.seq().take(it.index()),
            it.seq() == text@,
    {
        chars.push(ch);
    }
    chars
}

/// Appends one character, as [`String::push`] does.
pub assume_specification[ std::string::String::push ](text: &mut std::string::String, ch: char)
    ensures
        final(text)@ == old(text)@.push(ch),
;

/// The string made of the given characters.
pub fn string_of(chars: &[char]) -> (text: String)
    ensures
        text@ == chars@,
{
    let mut text: String = String::new();
    let mut at: usize = 0;
    while at < chars.len()
        invariant
            at <= chars.len(),
            text@ == chars@.take(at as int),
        decreases chars.len() - at,
    {
        text.push(chars[at]);
        at += 1;
        assert(chars@.take(at as int) =~= chars@.take(at - 1).push(chars@[at - 1]));
    }
    assert(chars@.take(at as int) =~= chars@);
    text
}

/// Whether two runs of characters are the same.
pub fn same_chars(left: &[char], right: &[char]) -> (same: bool)
    ensures
        same == (left@ == right@),
{
    if left.len() != right.len() {
        return false;
    }
    let same = occurs_here(left, right, 0);
    assert(left@.subrange(0, left@.len() as int) =~= left@);
    same
}

/// Whether two strings hold the same characters.
pub fn same_text(left: &str, right: &str) -> (same: bool)
    ensures
        same == (left@ == right@),
{
    same_chars(chars_of(left).as_slice(), chars_of(right).as_slice())
}

/// The leftmost position of a string in `text`, counted in characters.
pub fn find_str(text: &[char], pattern: &str) -> (found: Option<usize>)
    ensures
        match found {
            Some(at) => first_index(text@, pattern@) == Some(at as int) && at + pattern@.len()
                <= text@.len(),
            None => first_index(text@, pattern@) is None,
        },
{
    find(text, chars_of(pattern).as_slice())
}

/// Whether a string stands somewhere in `text`.
pub fn contains_str(text: &[char], pattern: &str) -> (found: bool)
    ensures
        found == occurs(text@, pattern@),
{
    proof {
        lemma_first_index(text@, pattern@);
    }
    find_str(text, pattern).is_some()
}

/// Whether `text` begins with a string.
pub fn begins_with_str(text: &[char], pattern: &str) -> (found: bool)
    ensures
        found == begins_with(text@, pattern@),
{
    let found = occurs_here(text, chars_of(pattern).as_slice(), 0);
    assert(pattern@.len() <= text@.len() ==> text@.subrange(0, pattern@.len() as int)
        =~= text@.take(pattern@.len() as int));
    found
}

/// Whether `text` ends with a run of characters.
pub fn ends_with_chars(text: &[char], pattern: &[char]) -> (found: bool)
    ensures
        found == ends_with(text@, pattern@),
{
    if pattern.len() > text.len() {
        return false;
    }
    let found = occurs_here(text, pattern, text.len() - pattern.len());
    assert(text@.subrange(text@.len() - pattern@.len(), text@.len() as int) =~= text@.skip(
        text@.len() - pattern@.len(),
    ));
    found
}

/// The characters of `text` from position `from` on.
pub fn rest_of(text: &[char], from: usize) -> (rest: &[char])
    requires
        from <= text@.len(),
    ensures
        rest@ == text@.skip(from as int),
{
    let rest = slice_subrange(text, from, text.len());
    assert(rest@ =~= text@.skip(from as int));
    rest
}

/// The first `count` characters of `text`.
pub fn first_of(text: &[char], count: usize) -> (first: &[char])
    requires
        count <= text@.len(),
    ensures
        first@ == text@.take(count as int),
{
    let first = slice_subrange(text, 0, count);
    assert(first@ =~= text@.take(count as int));
    first
}

/// Appends a run of characters.
pub fn append_chars(target: &mut Vec<char>, chars: &[char])
    ensures
        final(target)@ == old(target)@ + chars@,
{
    let ghost before = target@;
    let mut at: usize = 0;
    while at < chars.len()
        invariant
            at <= chars.len(),
            target@ == before + chars@.take(at as int),
        decreases chars.len() - at,
    {
        target.push(chars[at]);
        at += 1;
        assert(chars@.take(at as int) =~= chars@.take(at - 1).push(chars@[at - 1]));
    }
    assert(chars@.take(at as int) =~= chars@);
}

/// Appends the characters of a string.
pub fn append_str(target: &mut Vec<char>, text: &str)
    ensures
        final(target)@ == old(target)@ + text@,
{
    append_chars(target, chars_of(text).as_slice());
}

/// A character with the Unicode property `White_Space`.
pub open spec fn is_white_space(ch: char) -> bool {
    ||| '\u{9}' <= ch <= '\u{d}'
    ||| ch == ' '
    ||| ch == '\u{85}'
    ||| ch == '\u{a0}'
    ||| ch == '\u{1680}'
    ||| '\u{2000}' <= ch <= '\u{200a}'
    ||| ch == '\u{2028}'
    ||| ch == '\u{2029}'
    ||| ch == '\u{202f}'
    ||| ch == '\u{205f}'
    ||| ch == '\u{3000}'
}

/// [`char::is_whitespace`] holds of exactly the characters with the property
/// `White_Space`.
pub assume_specification[ char::is_whitespace ](ch: char) -> (found: bool)
    ensures
        found == is_white_space(ch),
;

/// How many characters of white space `text` begins with.
pub open spec fn leading_space(text: Seq<char>) -> nat
    decreases text.len(),
{
    if text.len() > 0 && is_white_space(text[0]) {
        1 + leading_space(text.drop_first())
    } else {
        0
    }
}

/// How many characters of white space `text` ends with.
pub open spec fn trailing_space(text: Seq<char>) -> nat
    decreases text.len(),
{
    if text.len() > 0 && is_white_space(text.last()) {
        1 + trailing_space(text.drop_last())
    } else {
        0
    }
}

/// `text` without the white space that it begins with.
pub open spec fn trim_start(text: Seq<char>) -> Seq<char> {
    text.skip(leading_space(text) as int)
}

/// `text` without the white space that it ends with.
pub open spec fn trim_end(text: Seq<char>) -> Seq<char> {
    text.take(text.len() - trailing_space(text))
}

/// `text` without the white space at either end.
pub open spec fn trim(text: Seq<char>) -> Seq<char> {
    trim_end(trim_start(text))
}

/// White space at the start is part of the text.
pub broadcast proof fn lemma_leading_space_bound(text: Seq<char>)
    ensures
        #[trigger] leading_space(text) <= text.len(),
    decreases text.len(),
{
    if text.len() > 0 && is_white_space(text[0]) {
        lemma_leading_space_bound(text.drop_first());
    }
}

/// White space at the end is part of the text.
pub broadcast proof fn lemma_trailing_space_bound(text: Seq<char>)
    ensures
        #[trigger] trailing_space(text) <= text.len(),
    decreases text.len(),
{
    if text.len() > 0 && is_white_space(text.last()) {
        lemma_trailing_space_bound(text.drop_last());
    }
}

/// How many characters of white space `text` begins with.
pub fn leading_space_len(text: &[char]) -> (count: usize)
    ensures
        count == leading_space(text@),
        count <= text@.len(),
{
    let mut count: usize = 0;
    assert(text@.skip(0) =~= text@);
    while count < text.len() && text[count].is_whitespace()
        invariant
            count <= text.len(),
            leading_space(text@) == count + leading_space(text@.skip(count as int)),
        decreases text.len() - count,
    {
        assert(text@.skip(count as int).drop_first() =~= text@.skip(count + 1));
        count += 1;
    }
    count
}

/// `text` without the white space that it begins with.
pub fn trimmed_start(text: &[char]) -> (trimmed: &[char])
    ensures
        trimmed@ == trim_start(text@),
{
    rest_of(text, leading_space_len(text))
}

/// `text` without the white space that it ends with.
pub fn trimmed_end(text: &[char]) -> (trimmed: &[char])
    ensures
        trimmed@ == trim_end(text@),
{
    let mut end: usize = text.len();
    assert(text@.take(end as int) =~= text@);
    while end > 0 && text[end - 1].is_whitespace()
        invariant
            end <= text.len(),
            trailing_space(text@) == text@.len() - end + trailing_space(text@.take(end as int)),
        decreases end,
    {
        assert(text@.take(end as int).drop_last() =~= text@.take(end - 1));
        end -= 1;
    }
    first_of(text, end)
}

/// `text` without the white space at either end.
pub fn trimmed(text: &[char]) -> (trimmed: &[char])
    ensures
        trimmed@ == trim(text@),
{
    trimmed_end(trimmed_start(text))
}

/// `text` with each occurrence of `pattern`, found from the left and without
/// overlap, replaced by `substitute`.
pub open spec fn replace(text: Seq<char>, pattern: Seq<char>, substitute: Seq<char>) -> Seq<char>
    decreases text.len(),
{
    match first_index(text, pattern) {
        Some(at) if pattern.len() > 0 && 0 <= at && at + pattern.len() <= text.len() => text.take(
            at,
        ) + substitute + replace(text.skip(at + pattern.len()), pattern, substitute),
        _ => text,
    }
}

/// `text` with each occurrence of `pattern`, found from the left and without
/// overlap, replaced by `substitute`.
pub fn replaced(text: &[char], pattern: &str, substitute: &str) -> (result: Vec<char>)
    requires
        pattern@.len() > 0,
    ensures
        result@ == replace(text@, pattern@, substitute@),
{
    let wanted = chars_of(pattern);
    let mut result: Vec<char> = Vec::new();
    let mut from: usize = 0;
    assert(text@.skip(0) =~= text@);
    loop
        invariant
            from <= text@.len() == text.len(),
            wanted@ == pattern@,
            pattern@.len() > 0,
            replace(text@, pattern@, substitute@) == result@ + replace(
                text@.skip(from as int),
                pattern@,
                substitute@,
            ),
        decreases text@.len() - from,
    {
        let rest = rest_of(text, from);
        match find(rest, wanted.as_slice()) {
            None => {
                append_chars(&mut result, rest);
                return result;
            },
            Some(at) => {
                let ghost before = result@;
                append_chars(&mut result, first_of(rest, at));
                append_str(&mut result, substitute);
                assert(rest@.skip(at + pattern@.len()) =~= text@.skip(from + at + pattern@.len()));
                from = from + at + wanted.len();
                assert(result@ + replace(text@.skip(from as int), pattern@, substitute@)
                    =~= before + (rest@.take(at as int) + substitute@ + replace(
                    text@.skip(from as int),
                    pattern@,
                    substitute@,
                )));
            },
        }
    }
}

/// The encoding of a text is that of its start followed by that of the rest.
pub proof fn lemma_encode_concat(start: Seq<char>, rest: Seq<char>)
    ensures
        encode_utf8(start + rest) == encode_utf8(start) + encode_utf8(rest),
    decreases start.len(),
{
    if start.len() == 0 {
        assert(start + rest =~= rest);
        assert(encode_utf8(start) + encode_utf8(rest) =~= encode_utf8(rest));
    } else {
        lemma_encode_concat(start.drop_first(), rest);
        assert((start + rest).drop_first() =~= start.drop_first() + rest);
        assert(encode_utf8(start + rest) =~= encode_utf8(start) + encode_utf8(rest));
    }
}

/// How many bytes a character takes in UTF-8.
pub fn utf8_width(ch: char) -> (width: usize)
    ensures
        width == encode_scalar(ch as u32).len(),
        1 <= width <= 4,
{
    let code: u32 = ch as u32;
    if code <= 0x7f {
        1
    } else if code <= 0x7ff {
        2
    } else if code <= 0xffff {
        3
    } else {
        4
    }
}

/// How many bytes the first `count` characters of a string take in UTF-8.
pub fn utf8_prefix_len(text: &str, chars: &[char], count: usize) -> (bytes: usize)
    requires
        chars@ == text@,
        count <= chars@.len(),
    ensures
        bytes == encode_utf8(text@.take(count as int)).len(),
{
    let all = text.as_bytes();
    let mut bytes: usize = 0;
    let mut at: usize = 0;
    while at < count
        invariant
            at <= count <= chars@.len(),
            chars@ == text@,
            all@ == encode_utf8(text@),
            bytes == encode_utf8(text@.take(at as int)).len(),
        decreases count - at,
    {
        let ghost one = seq![chars@[at as int]];
        proof {
            let start = text@.take(at as int);
            lemma_encode_concat(start, one);
            assert(text@.take(at + 1) =~= start + one);
            assert(one.drop_first() =~= Seq::<char>::empty());
            reveal_with_fuel(encode_utf8, 2);
            assert(encode_utf8(one) =~= encode_scalar(one[0] as u32));
            lemma_encode_concat(text@.take(at + 1), text@.skip(at + 1));
            assert(text@.take(at + 1) + text@.skip(at + 1) =~= text@);
            assert(all@.len() == all.len());
        }
        bytes += utf8_width(chars[at]);
        at += 1;
    }
    bytes
}

/// The leftmost position at which one of `markers` stands in `text`, and the index
/// of that marker: the lowest where several stand there.
pub open spec fn earliest(text: Seq<char>, markers: Seq<Seq<char>>) -> Option<(int, int)>
    decreases markers.len(),
{
    if markers.len() == 0 {
        None
    } else {
        match (earliest(text, markers.drop_last()), first_index(text, markers.last())) {
            (before, None) => before,
            (None, Some(at)) => Some((at, markers.len() - 1)),
            (Some(before), Some(at)) => if before.0 <= at {
                Some(before)
            } else {
                Some((at, markers.len() - 1))
            },
        }
    }
}

/// What [`earliest`] says, spelled out with quantifiers.
pub proof fn lemma_earliest(text: Seq<char>, markers: Seq<Seq<char>>)
    ensures
        match earliest(text, markers) {
            Some((at, which)) => {
                &&& 0 <= which < markers.len()
                &&& first_index(text, markers[which]) == Some(at)
                &&& 0 <= at
                &&& at + markers[which].len() <= text.len()
                &&& forall|k: int|
                    0 <= k < markers.len() ==> match first_index(text, #[trigger] markers[k]) {
                        Some(other) => at < other || (at == other && which <= k),
                        None => true,
                    }
            },
            None => forall|k: int|
                0 <= k < markers.len() ==> first_index(text, #[trigger] markers[k]) is None,
        },
    decreases markers.len(),
{
    if markers.len() > 0 {
        let start = markers.drop_last();
        lemma_earliest(text, start);
        lemma_first_index_bounds(text, markers.last());
        assert forall|k: int| 0 <= k < start.len() implies markers[k] == start[k] by {}
        match earliest(text, markers) {
            Some((at, which)) => {
                assert forall|k: int| 0 <= k < markers.len() implies match first_index(
                    text,
                    #[trigger] markers[k],
                ) {
                    Some(other) => at < other || (at == other && which <= k),
                    None => true,
                } by {
                    if k < start.len() {
                        assert(start[k] == markers[k]);
                    }
                }
            },
            None => {
                assert forall|k: int| 0 <= k < markers.len() implies first_index(
                    text,
                    #[trigger] markers[k],
                ) is None by {
                    if k < start.len() {
                        assert(start[k] == markers[k]);
                    }
                }
            },
        }
    }
}

/// A marker position found lies within the text.
pub broadcast proof fn lemma_earliest_bounds(text: Seq<char>, markers: Seq<Seq<char>>)
    ensures
        (#[trigger] earliest(text, markers)) matches Some((at, which)) ==> 0 <= at && 0 <= which
            < markers.len() && at + markers[which].len() <= text.len(),
{
    lemma_earliest(text, markers);
}

/// The texts of a run of string slices.
pub open spec fn slice_texts(markers: Seq<&str>) -> Seq<Seq<char>> {
    markers.map_values(|marker: &str| marker@)
}

/// The texts of a run of strings.
pub open spec fn string_texts(markers: Seq<String>) -> Seq<Seq<char>> {
    markers.map_values(|marker: String| marker@)
}

/// The leftmost position at which one of `markers` stands in `text`, and the index
/// of that marker.
pub fn find_earliest(text: &[char], markers: &[&str]) -> (found: Option<(usize, usize)>)
    ensures
        match found {
            Some((at, which)) => earliest(text@, slice_texts(markers@)) == Some(
                (at as int, which as int),
            ) && which < markers@.len() && at + markers@[which as int]@.len() <= text@.len(),
            None => earliest(text@, slice_texts(markers@)) is None,
        },
{
    let ghost all = slice_texts(markers@);
    let mut found: Option<(usize, usize)> = None;
    let mut which: usize = 0;
    assert(all.take(0) =~= Seq::empty());
    while which < markers.len()
        invariant
            which <= markers@.len(),
            all == slice_texts(markers@),
            match found {
                Some((at, index)) => earliest(text@, all.take(which as int)) == Some(
                    (at as int, index as int),
                ) && index < which,
                None => earliest(text@, all.take(which as int)) is None,
            },
        decreases markers.len() - which,
    {
        assert(all.take(which + 1).drop_last() =~= all.take(which as int));
        let here = find_str(text, markers[which]);
        found = match (found, here) {
            (before, None) => before,
            (None, Some(at)) => Some((at, which)),
            (Some(before), Some(at)) => if before.0 <= at {
                Some(before)
            } else {
                Some((at, which))
            },
        };
        which += 1;
    }
    assert(all.take(which as int) =~= all);
    proof {
        lemma_earliest(text@, all);
    }
    found
}

/// A list with one text.
pub fn one_text(text: &str) -> (texts: Vec<String>)
    ensures
        string_texts(texts@) == seq![text@],
{
    let mut texts: Vec<String> = Vec::new();
    texts.push(text.to_owned());
    assert(string_texts(texts@) =~= seq![text@]);
    texts
}

} // verus!
