//! The attributes of a tag: `name="value"`, with quotes and ampersands of a value
//! escaped.
use crate::text::{
    begins_with, begins_with_str, chars_of, find_str, first_index, first_of, is_white_space,
    leading_space, leading_space_len, lemma_first_index, lemma_first_index_bounds,
    lemma_first_index_is, lemma_leading_space_bound, occurs, occurs_at, replace, replaced, rest_of,
    same_text, string_of, trim_start,
};
use vstd::prelude::*;

verus! {

broadcast use {lemma_first_index_bounds, lemma_leading_space_bound};

/// A value as it is written in an attribute.
pub open spec fn attr_escaped(value: Seq<char>) -> Seq<char> {
    replace(replace(value, "&"@, "&amp;"@), "\""@, "&quot;"@)
}

/// The value that a written attribute stands for.
pub open spec fn attr_unescaped(text: Seq<char>) -> Seq<char> {
    replace(replace(text, "&quot;"@, "\""@), "&amp;"@, "&"@)
}

/// A value as it is written in an attribute.
pub fn escape_attr(value: &str) -> (text: String)
    ensures
        text@ == attr_escaped(value@),
{
    proof {
        reveal_strlit("&");
        reveal_strlit("\"");
    }
    let ampersands = replaced(chars_of(value).as_slice(), "&", "&amp;");
    string_of(replaced(ampersands.as_slice(), "\"", "&quot;").as_slice())
}

/// The value that a written attribute stands for.
pub fn unescape_attr(value: &[char]) -> (text: Vec<char>)
    ensures
        text@ == attr_unescaped(value@),
{
    proof {
        reveal_strlit("&quot;");
        reveal_strlit("&amp;");
    }
    let quotes = replaced(value, "&quot;", "\"");
    replaced(quotes.as_slice(), "&amp;", "&")
}

/// How one character of a value is written.
pub(crate) open spec fn written(ch: char) -> Seq<char> {
    if ch == '&' {
        "&amp;"@
    } else if ch == '"' {
        "&quot;"@
    } else {
        seq![ch]
    }
}

/// How a value is written, character by character.
pub(crate) open spec fn written_all(value: Seq<char>) -> Seq<char>
    decreases value.len(),
{
    if value.len() == 0 {
        Seq::empty()
    } else {
        written(value[0]) + written_all(value.drop_first())
    }
}

/// A value with its ampersands written out.
spec fn ampersands_written(value: Seq<char>) -> Seq<char>
    decreases value.len(),
{
    if value.len() == 0 {
        Seq::empty()
    } else {
        (if value[0] == '&' {
            "&amp;"@
        } else {
            seq![value[0]]
        }) + ampersands_written(value.drop_first())
    }
}

/// Replacing passes over a beginning in which the pattern does not begin.
proof fn lemma_replace_passes(
    start: Seq<char>,
    rest: Seq<char>,
    pattern: Seq<char>,
    substitute: Seq<char>,
)
    requires
        pattern.len() > 0,
        forall|at: int| 0 <= at < start.len() ==> !occurs_at(start + rest, pattern, at),
    ensures
        replace(start + rest, pattern, substitute) == start + replace(rest, pattern, substitute),
{
    let whole = start + rest;
    lemma_first_index(rest, pattern);
    lemma_first_index(whole, pattern);
    assert forall|at: int| start.len() <= at implies occurs_at(whole, pattern, at) == occurs_at(
        rest,
        pattern,
        at - start.len(),
    ) by {
        if at + pattern.len() <= whole.len() {
            assert(whole.subrange(at, at + pattern.len()) =~= rest.subrange(
                at - start.len(),
                at - start.len() + pattern.len(),
            ));
        }
    }
    match first_index(rest, pattern) {
        None => {
            if let Some(at) = first_index(whole, pattern) {
                assert(!occurs_at(rest, pattern, at - start.len()));
            }
        },
        Some(at) => {
            let found = start.len() + at;
            assert forall|earlier: int| 0 <= earlier < found implies !occurs_at(
                whole,
                pattern,
                earlier,
            ) by {
                if earlier >= start.len() {
                    assert(!occurs_at(rest, pattern, earlier - start.len()));
                }
            }
            lemma_first_index_is(whole, pattern, found);
            assert(whole.take(found) =~= start + rest.take(at));
            assert(whole.skip(found + pattern.len()) =~= rest.skip(at + pattern.len()));
            assert(whole.take(found) + substitute + replace(
                rest.skip(at + pattern.len()),
                pattern,
                substitute,
            ) =~= start + (rest.take(at) + substitute + replace(
                rest.skip(at + pattern.len()),
                pattern,
                substitute,
            )));
        },
    }
}

/// Replacing exchanges a pattern that the text begins with.
proof fn lemma_replace_begins(rest: Seq<char>, pattern: Seq<char>, substitute: Seq<char>)
    requires
        pattern.len() > 0,
    ensures
        replace(pattern + rest, pattern, substitute) == substitute + replace(
            rest,
            pattern,
            substitute,
        ),
{
    let whole = pattern + rest;
    assert(whole.subrange(0, pattern.len() as int) =~= pattern);
    lemma_first_index_is(whole, pattern, 0);
    assert(whole.skip(pattern.len() as int) =~= rest);
    assert(whole.take(0) =~= Seq::empty());
    assert(Seq::empty() + substitute + replace(rest, pattern, substitute) =~= substitute + replace(
        rest,
        pattern,
        substitute,
    ));
}

proof fn lemma_replace_empty(pattern: Seq<char>, substitute: Seq<char>)
    requires
        pattern.len() > 0,
    ensures
        replace(Seq::empty(), pattern, substitute) == Seq::<char>::empty(),
{
}

proof fn lemma_escaped_ampersands(value: Seq<char>)
    ensures
        replace(value, "&"@, "&amp;"@) == ampersands_written(value),
    decreases value.len(),
{
    reveal_strlit("&");
    if value.len() == 0 {
        assert(value =~= Seq::empty());
        lemma_replace_empty("&"@, "&amp;"@);
    } else {
        let rest = value.drop_first();
        lemma_escaped_ampersands(rest);
        if value[0] == '&' {
            assert(value =~= "&"@ + rest);
            lemma_replace_begins(rest, "&"@, "&amp;"@);
        } else {
            let start = seq![value[0]];
            assert(value =~= start + rest);
            assert forall|at: int| 0 <= at < start.len() implies !occurs_at(
                start + rest,
                "&"@,
                at,
            ) by {
                assert(occurs_at(value, "&"@, 0) ==> value.subrange(0, 1)[0] == value[0]);
            }
            lemma_replace_passes(start, rest, "&"@, "&amp;"@);
        }
    }
}

proof fn lemma_escaped_quotes(value: Seq<char>)
    ensures
        replace(ampersands_written(value), "\""@, "&quot;"@) == written_all(value),
    decreases value.len(),
{
    reveal_strlit("\"");
    reveal_strlit("&amp;");
    let text = ampersands_written(value);
    if value.len() == 0 {
        lemma_replace_empty("\""@, "&quot;"@);
    } else {
        let rest = ampersands_written(value.drop_first());
        lemma_escaped_quotes(value.drop_first());
        if value[0] == '"' {
            assert(text =~= "\""@ + rest);
            lemma_replace_begins(rest, "\""@, "&quot;"@);
        } else {
            let start = if value[0] == '&' {
                "&amp;"@
            } else {
                seq![value[0]]
            };
            assert forall|at: int| 0 <= at < start.len() implies !occurs_at(
                start + rest,
                "\""@,
                at,
            ) by {
                assert(occurs_at(start + rest, "\""@, at) ==> (start + rest).subrange(
                    at,
                    at + 1,
                )[0] == (start + rest)[at]);
            }
            lemma_replace_passes(start, rest, "\""@, "&quot;"@);
        }
    }
}

pub(crate) proof fn lemma_escaped_is_written(value: Seq<char>)
    ensures
        attr_escaped(value) == written_all(value),
{
    lemma_escaped_ampersands(value);
    lemma_escaped_quotes(value);
}

proof fn lemma_unescaped_quotes(value: Seq<char>)
    ensures
        replace(written_all(value), "&quot;"@, "\""@) == ampersands_written(value),
    decreases value.len(),
{
    reveal_strlit("\"");
    reveal_strlit("&amp;");
    reveal_strlit("&quot;");
    let text = written_all(value);
    if value.len() == 0 {
        lemma_replace_empty("&quot;"@, "\""@);
    } else {
        let rest = written_all(value.drop_first());
        lemma_unescaped_quotes(value.drop_first());
        if value[0] == '"' {
            lemma_replace_begins(rest, "&quot;"@, "\""@);
            assert("\""@ =~= seq!['"']);
        } else {
            let start = written(value[0]);
            assert forall|at: int| 0 <= at < start.len() implies !occurs_at(
                start + rest,
                "&quot;"@,
                at,
            ) by {
                if occurs_at(start + rest, "&quot;"@, at) {
                    let found = (start + rest).subrange(at, at + 6);
                    assert(found[0] == (start + rest)[at]);
                    assert(found[1] == (start + rest)[at + 1]);
                }
            }
            lemma_replace_passes(start, rest, "&quot;"@, "\""@);
        }
    }
}

proof fn lemma_unescaped_ampersands(value: Seq<char>)
    ensures
        replace(ampersands_written(value), "&amp;"@, "&"@) == value,
    decreases value.len(),
{
    reveal_strlit("&");
    reveal_strlit("&amp;");
    if value.len() == 0 {
        lemma_replace_empty("&amp;"@, "&"@);
        assert(value =~= Seq::empty());
    } else {
        let rest = ampersands_written(value.drop_first());
        lemma_unescaped_ampersands(value.drop_first());
        if value[0] == '&' {
            lemma_replace_begins(rest, "&amp;"@, "&"@);
            assert(value =~= "&"@ + value.drop_first());
        } else {
            let start = seq![value[0]];
            assert forall|at: int| 0 <= at < start.len() implies !occurs_at(
                start + rest,
                "&amp;"@,
                at,
            ) by {
                if occurs_at(start + rest, "&amp;"@, at) {
                    assert((start + rest).subrange(at, at + 5)[0] == (start + rest)[at]);
                }
            }
            lemma_replace_passes(start, rest, "&amp;"@, "&"@);
            assert(value =~= start + value.drop_first());
        }
    }
}

/// Reading an attribute gives back the value that was written.
pub proof fn lemma_unescape_undoes_escape(value: Seq<char>)
    ensures
        attr_unescaped(attr_escaped(value)) == value,
{
    lemma_escaped_is_written(value);
    lemma_unescaped_quotes(value);
    lemma_unescaped_ampersands(value);
}

/// A written value holds no quote.
pub proof fn lemma_escaped_without_quote(value: Seq<char>)
    ensures
        !attr_escaped(value).contains('"'),
{
    lemma_escaped_is_written(value);
    lemma_written_without_quote(value);
}

proof fn lemma_written_without_quote(value: Seq<char>)
    ensures
        forall|at: int|
            0 <= at < written_all(value).len() ==> (#[trigger] written_all(value)[at]) != '"',
    decreases value.len(),
{
    reveal_strlit("&amp;");
    reveal_strlit("&quot;");
    if value.len() > 0 {
        let start = written(value[0]);
        let rest = written_all(value.drop_first());
        lemma_written_without_quote(value.drop_first());
        assert forall|at: int| 0 <= at < written_all(value).len() implies (
        #[trigger] written_all(value)[at]) != '"' by {
            if at >= start.len() {
                assert(written_all(value)[at] == rest[at - start.len()]);
            } else {
                assert(written_all(value)[at] == start[at]);
            }
        }
    }
}

/// A value without quotes and ampersands is written as it is.
pub proof fn lemma_escaped_plain(value: Seq<char>)
    requires
        forall|at: int| 0 <= at < value.len() ==> (#[trigger] value[at]) != '&' && value[at] != '"',
    ensures
        attr_escaped(value) == value,
{
    lemma_escaped_is_written(value);
    lemma_written_plain(value);
}

proof fn lemma_written_plain(value: Seq<char>)
    requires
        forall|at: int| 0 <= at < value.len() ==> (#[trigger] value[at]) != '&' && value[at] != '"',
    ensures
        written_all(value) == value,
    decreases value.len(),
{
    if value.len() > 0 {
        let rest = value.drop_first();
        assert forall|at: int| 0 <= at < rest.len() implies (#[trigger] rest[at]) != '&' && rest[at]
            != '"' by {
            assert(rest[at] == value[at + 1]);
        }
        lemma_written_plain(rest);
        assert(value[0] != '&' && value[0] != '"');
        assert(value =~= seq![value[0]] + rest);
    } else {
        assert(value =~= Seq::empty());
    }
}

/// What [`char::is_alphanumeric`] says: a letter or a numeral in the sense of
/// Unicode.
pub uninterp spec fn is_letter_or_numeral(ch: char) -> bool;

/// [`char::is_alphanumeric`] holds of letters and numerals. Which characters those
/// are is said for ASCII alone; the tables of Unicode decide for the rest. White
/// space is neither: Unicode counts it among the separators and control characters.
pub assume_specification[ char::is_alphanumeric ](ch: char) -> (found: bool)
    ensures
        found == is_letter_or_numeral(ch),
        ch <= '\u{7f}' ==> found == ('0' <= ch <= '9' || 'A' <= ch <= 'Z' || 'a' <= ch <= 'z'),
        is_white_space(ch) ==> !found,
;

/// A character that the name of an attribute may hold; white space is none.
pub open spec fn is_name_char(ch: char) -> bool {
    if ch <= '\u{7f}' {
        '0' <= ch <= '9' || 'A' <= ch <= 'Z' || 'a' <= ch <= 'z' || ch == '_'
    } else {
        is_letter_or_numeral(ch) && !is_white_space(ch)
    }
}

/// How many characters of a name `text` begins with.
pub open spec fn name_len(text: Seq<char>) -> nat
    decreases text.len(),
{
    if text.len() > 0 && is_name_char(text[0]) {
        1 + name_len(text.drop_first())
    } else {
        0
    }
}

/// A name is part of the text.
pub broadcast proof fn lemma_name_len_bound(text: Seq<char>)
    ensures
        #[trigger] name_len(text) <= text.len(),
    decreases text.len(),
{
    if text.len() > 0 && is_name_char(text[0]) {
        lemma_name_len_bound(text.drop_first());
    }
}

/// One attribute, and how many characters it takes: a name, `=`, and a value
/// between quotes.
pub open spec fn first_attr(text: Seq<char>) -> Option<((Seq<char>, Seq<char>), int)> {
    let name = name_len(text) as int;
    let value = text.skip(name + 2);
    if name == 0 || !begins_with(text.skip(name), "=\""@) {
        None
    } else {
        match first_index(value, "\""@) {
            None => None,
            Some(end) => Some(
                ((text.take(name), attr_unescaped(value.take(end))), name + 2 + end + 1),
            ),
        }
    }
}

/// The attributes of a tag, if it holds nothing else: names and values, in order.
pub open spec fn attrs_of(text: Seq<char>) -> Option<Seq<(Seq<char>, Seq<char>)>>
    decreases text.len(),
{
    let rest = trim_start(text);
    if rest.len() == 0 {
        Some(Seq::empty())
    } else {
        match first_attr(rest) {
            Some((attr, used)) if 0 < used <= rest.len() => match attrs_of(rest.skip(used)) {
                Some(later) => Some(seq![attr] + later),
                None => None,
            },
            _ => None,
        }
    }
}

/// The value of the first attribute with the given name.
pub open spec fn attr_of(attrs: Seq<(Seq<char>, Seq<char>)>, name: Seq<char>) -> Option<Seq<char>>
    decreases attrs.len(),
{
    if attrs.len() == 0 {
        None
    } else if attrs[0].0 == name {
        Some(attrs[0].1)
    } else {
        attr_of(attrs.drop_first(), name)
    }
}

/// What a run of attributes holds.
pub open spec fn attrs_view(attrs: Seq<(String, String)>) -> Seq<(Seq<char>, Seq<char>)> {
    attrs.map_values(|attr: (String, String)| (attr.0@, attr.1@))
}

/// How many characters of a name `text` begins with.
fn name_length(text: &[char]) -> (count: usize)
    ensures
        count == name_len(text@),
        count <= text@.len(),
{
    let mut count: usize = 0;
    assert(text@.skip(0) =~= text@);
    while count < text.len() && (text[count].is_alphanumeric() || text[count] == '_')
        invariant
            count <= text.len(),
            name_len(text@) == count + name_len(text@.skip(count as int)),
        decreases text.len() - count,
    {
        assert(text@.skip(count as int).drop_first() =~= text@.skip(count + 1));
        count += 1;
    }
    count
}

/// One attribute, and how many characters it takes.
fn parse_first_attr(text: &[char]) -> (found: Option<((String, String), usize)>)
    ensures
        match (found, first_attr(text@)) {
            (Some((attr, used)), Some((model, count))) => (attr.0@, attr.1@) == model && used
                == count && 0 < used <= text@.len(),
            (None, None) => true,
            _ => false,
        },
{
    proof {
        reveal_strlit("=\"");
        reveal_strlit("\"");
    }
    let name = name_length(text);
    let rest = rest_of(text, name);
    if name == 0 || !begins_with_str(rest, "=\"") {
        return None;
    }
    assert(text@.skip(name as int).skip(2) =~= text@.skip(name + 2));
    let value = rest_of(rest, 2);
    match find_str(value, "\"") {
        None => None,
        Some(end) => {
            let ghost length = text.len();
            assert(name + 2 + end + 1 <= length);
            let key = string_of(first_of(text, name));
            let text_value = unescape_attr(first_of(value, end));
            Some(((key, string_of(text_value.as_slice())), name + 2 + end + 1))
        },
    }
}

/// The attributes of a tag, if it holds nothing else.
pub fn parse_attrs(input: &[char]) -> (attrs: Option<Vec<(String, String)>>)
    ensures
        match (attrs, attrs_of(input@)) {
            (Some(attrs), Some(model)) => attrs_view(attrs@) == model,
            (None, None) => true,
            _ => false,
        },
{
    let mut attrs: Vec<(String, String)> = Vec::new();
    let mut cursor: usize = 0;
    assert(input@.skip(0) =~= input@);
    assert(attrs_view(attrs@) =~= Seq::empty());
    proof {
        lemma_continued_nothing(attrs_of(input@));
    }
    loop
        invariant
            cursor <= input@.len() == input.len(),
            attrs_of(input@) == continued(attrs_view(attrs@), attrs_of(input@.skip(cursor as int))),
        decreases input@.len() - cursor,
    {
        let ghost whole = input@.skip(cursor as int);
        let spaced = rest_of(input, cursor);
        let space = leading_space_len(spaced);
        let rest = rest_of(spaced, space);
        if rest.len() == 0 {
            assert(attrs_view(attrs@) + Seq::empty() =~= attrs_view(attrs@));
            return Some(attrs);
        }
        match parse_first_attr(rest) {
            None => {
                return None;
            },
            Some((attr, used)) => {
                let ghost before = attrs_view(attrs@);
                let ghost later = attrs_of(rest@.skip(used as int));
                assert(rest@.skip(used as int) =~= input@.skip(cursor + space + used));
                attrs.push(attr);
                assert(attrs_view(attrs@) =~= before.push((attr.0@, attr.1@)));
                proof {
                    lemma_continued_one(before, (attr.0@, attr.1@), later);
                }
                cursor = cursor + space + used;
            },
        }
    }
}

/// `before` and what was read later, where it could be read.
spec fn continued(
    before: Seq<(Seq<char>, Seq<char>)>,
    later: Option<Seq<(Seq<char>, Seq<char>)>>,
) -> Option<Seq<(Seq<char>, Seq<char>)>> {
    match later {
        Some(later) => Some(before + later),
        None => None,
    }
}

proof fn lemma_continued_nothing(later: Option<Seq<(Seq<char>, Seq<char>)>>)
    ensures
        continued(Seq::empty(), later) == later,
{
    if let Some(attrs) = later {
        assert(Seq::empty() + attrs =~= attrs);
    }
}

proof fn lemma_continued_one(
    before: Seq<(Seq<char>, Seq<char>)>,
    one: (Seq<char>, Seq<char>),
    later: Option<Seq<(Seq<char>, Seq<char>)>>,
)
    ensures
        continued(before, continued(seq![one], later)) == continued(before.push(one), later),
{
    if let Some(attrs) = later {
        assert(before + (seq![one] + attrs) =~= before.push(one) + attrs);
    }
}

/// The value of the first attribute with the given name.
pub fn attr_value<'a>(attrs: &'a Vec<(String, String)>, key: &str) -> (found: Option<&'a str>)
    ensures
        match found {
            Some(value) => attr_of(attrs_view(attrs@), key@) == Some(value@),
            None => attr_of(attrs_view(attrs@), key@) is None,
        },
{
    let ghost all = attrs_view(attrs@);
    let mut at: usize = 0;
    assert(all.skip(0) =~= all);
    while at < attrs.len()
        invariant
            at <= attrs@.len(),
            all == attrs_view(attrs@),
            attr_of(all, key@) == attr_of(all.skip(at as int), key@),
        decreases attrs.len() - at,
    {
        assert(all.skip(at as int)[0] == (attrs@[at as int].0@, attrs@[at as int].1@));
        if same_text(attrs[at].0.as_str(), key) {
            return Some(attrs[at].1.as_str());
        }
        assert(all.skip(at as int).drop_first() =~= all.skip(at + 1));
        at += 1;
    }
    None
}

proof fn lemma_name_len_is(name: Seq<char>, rest: Seq<char>)
    requires
        forall|at: int| 0 <= at < name.len() ==> is_name_char(#[trigger] name[at]),
        rest.len() > 0 ==> !is_name_char(rest[0]),
    ensures
        name_len(name + rest) == name.len(),
    decreases name.len(),
{
    let whole = name + rest;
    if name.len() == 0 {
        assert(whole =~= rest);
    } else {
        assert(whole.drop_first() =~= name.drop_first() + rest);
        assert(whole[0] == name[0]);
        assert forall|at: int| 0 <= at < name.drop_first().len() implies is_name_char(
            #[trigger] name.drop_first()[at],
        ) by {
            assert(name.drop_first()[at] == name[at + 1]);
        }
        lemma_name_len_is(name.drop_first(), rest);
    }
}

/// `name` can name an attribute.
pub open spec fn is_attr_name(name: Seq<char>) -> bool {
    &&& name.len() > 0
    &&& forall|at: int| 0 <= at < name.len() ==> is_name_char(#[trigger] name[at])
}

/// An attribute as it is written in a tag, behind a space.
pub open spec fn attr_text(name: Seq<char>, value: Seq<char>) -> Seq<char> {
    seq![' '] + name + seq!['=', '"'] + attr_escaped(value) + seq!['"']
}

/// An attribute that was written is read back, and what follows it is read as if
/// it stood alone.
pub proof fn lemma_attr_reads_back(name: Seq<char>, value: Seq<char>, rest: Seq<char>)
    requires
        is_attr_name(name),
    ensures
        attrs_of(attr_text(name, value) + rest) == (match attrs_of(rest) {
            Some(later) => Some(seq![(name, value)] + later),
            None => None,
        }),
{
    reveal_strlit("=\"");
    reveal_strlit("\"");
    let shown = attr_escaped(value);
    let text = attr_text(name, value) + rest;
    let after_name = seq!['=', '"'] + shown + seq!['"'] + rest;
    let after_quote = shown + seq!['"'] + rest;
    let trimmed = name + after_name;
    assert(text.drop_first() =~= trimmed);
    assert(trimmed[0] == name[0]);
    assert(leading_space(trimmed) == 0);
    assert(leading_space(text) == 1);
    assert(trim_start(text) =~= trimmed);
    lemma_name_len_is(name, after_name);
    assert(trimmed.skip(name.len() as int) =~= after_name);
    assert(after_name.take(2) =~= "=\""@);
    assert(trimmed.skip(name.len() + 2int) =~= after_quote);
    lemma_escaped_without_quote(value);
    assert(after_quote.subrange(shown.len() as int, shown.len() + 1int) =~= "\""@);
    assert forall|at: int| 0 <= at < shown.len() implies !occurs_at(after_quote, "\""@, at) by {
        if occurs_at(after_quote, "\""@, at) {
            assert(after_quote.subrange(at, at + 1)[0] == shown[at]);
        }
    }
    lemma_first_index_is(after_quote, "\""@, shown.len() as int);
    assert(after_quote.take(shown.len() as int) =~= shown);
    lemma_unescape_undoes_escape(value);
    assert(trimmed.take(name.len() as int) =~= name);
    assert(trimmed.skip(name.len() + 2int + shown.len() + 1) =~= rest);
}

/// Attributes as they are written in a tag, one behind another.
pub open spec fn attrs_text(attrs: Seq<(Seq<char>, Seq<char>)>) -> Seq<char>
    decreases attrs.len(),
{
    if attrs.len() == 0 {
        Seq::empty()
    } else {
        attr_text(attrs[0].0, attrs[0].1) + attrs_text(attrs.drop_first())
    }
}

/// Attributes that were written are read back, in their order; a name that occurs
/// again is kept.
pub proof fn lemma_attrs_read_back(attrs: Seq<(Seq<char>, Seq<char>)>)
    requires
        forall|k: int| 0 <= k < attrs.len() ==> is_attr_name((#[trigger] attrs[k]).0),
    ensures
        attrs_of(attrs_text(attrs)) == Some(attrs),
    decreases attrs.len(),
{
    if attrs.len() == 0 {
        assert(trim_start(Seq::<char>::empty()).len() == 0);
        assert(attrs =~= Seq::empty());
    } else {
        let rest = attrs.drop_first();
        assert forall|k: int| 0 <= k < rest.len() implies is_attr_name((#[trigger] rest[k]).0) by {
            assert(rest[k] == attrs[k + 1]);
        }
        lemma_attrs_read_back(rest);
        lemma_attr_reads_back(attrs[0].0, attrs[0].1, attrs_text(rest));
        assert(attrs =~= seq![attrs[0]] + rest);
    }
}

proof fn lemma_written_begins(value: Seq<char>, marker: Seq<char>)
    requires
        !marker.contains('&'),
        begins_with(written_all(value), marker),
    ensures
        begins_with(value, marker),
    decreases marker.len(),
{
    reveal_strlit("&amp;");
    reveal_strlit("&quot;");
    if marker.len() > 0 {
        let text = written_all(value);
        let later = marker.drop_first();
        assert(text.take(marker.len() as int)[0] == text[0]);
        assert(marker.contains(marker[0]));
        let start = written(value[0]);
        let rest = written_all(value.drop_first());
        assert(text == start + rest);
        assert(start[0] == marker[0]);
        assert(start == seq![marker[0]]);
        assert(rest.take(later.len() as int) =~= later) by {
            assert forall|i: int| 0 <= i < later.len() implies rest[i] == later[i] by {
                assert(text.take(marker.len() as int)[i + 1] == marker[i + 1]);
            }
        }
        assert(!later.contains('&')) by {
            if later.contains('&') {
                let i = choose|i: int| 0 <= i < later.len() && later[i] == '&';
                assert(marker[i + 1] == '&');
            }
        }
        lemma_written_begins(value.drop_first(), later);
        assert(value.take(marker.len() as int) =~= marker) by {
            assert forall|i: int| 0 < i < marker.len() implies value[i] == marker[i] by {
                assert(value.drop_first().take(later.len() as int)[i - 1] == later[i - 1]);
            }
        }
    } else {
        assert(value.take(0) =~= marker);
    }
}

proof fn lemma_written_holds(value: Seq<char>, marker: Seq<char>, at: int)
    requires
        marker.len() > 0,
        marker[0] == '<',
        !marker.contains('&'),
        occurs_at(written_all(value), marker, at),
    ensures
        occurs(value, marker),
    decreases value.len(),
{
    reveal_strlit("&amp;");
    reveal_strlit("&quot;");
    let text = written_all(value);
    let start = written(value[0]);
    let rest = written_all(value.drop_first());
    assert(text.subrange(at, at + marker.len())[0] == text[at]);
    assert(text == start + rest);
    if at < start.len() {
        assert(text[at] == start[at]);
        assert(at == 0);
        assert(text.take(marker.len() as int) =~= text.subrange(0, marker.len() as int));
        lemma_written_begins(value, marker);
        assert(value.subrange(0, marker.len() as int) =~= value.take(marker.len() as int));
        assert(occurs_at(value, marker, 0));
    } else {
        let behind = at - start.len();
        assert(rest.subrange(behind, behind + marker.len()) =~= text.subrange(
            at,
            at + marker.len(),
        ));
        lemma_written_holds(value.drop_first(), marker, behind);
        let found = choose|found: int| occurs_at(value.drop_first(), marker, found);
        assert(value.subrange(found + 1, found + 1 + marker.len()) =~= value.drop_first().subrange(
            found,
            found + marker.len(),
        ));
        assert(occurs_at(value, marker, found + 1));
    }
}

/// Writing a value brings no marker about: one that begins with `<` and holds no
/// ampersand stands in what is written only where it stands in the value.
pub proof fn lemma_escaped_holds(value: Seq<char>, marker: Seq<char>)
    requires
        marker.len() > 0,
        marker[0] == '<',
        !marker.contains('&'),
        occurs(attr_escaped(value), marker),
    ensures
        occurs(value, marker),
{
    lemma_escaped_is_written(value);
    let at = choose|at: int| occurs_at(attr_escaped(value), marker, at);
    lemma_written_holds(value, marker, at);
}

} // verus!
