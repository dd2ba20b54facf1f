//! What holds of the attributes of a tag, beyond what was written being read back.
use crate::attributes::{
    attr_escaped, attr_of, attr_unescaped, attrs_of, first_attr, is_attr_name, is_letter_or_numeral,
    is_name_char, lemma_escaped_is_written, name_len, written, written_all,
};
use crate::text::{
    first_index, is_white_space, lemma_first_index, lemma_first_index_bounds,
    lemma_leading_space_bound, occurs, occurs_at, trim_start,
};
use crate::text_laws::{is_blank, lemma_replace_nothing, lemma_trim_start_of};
use vstd::prelude::*;

verus! {

broadcast use {lemma_first_index_bounds, lemma_leading_space_bound};

/// A name has the value of the first attribute with that name.
pub proof fn lemma_attr_of(attrs: Seq<(Seq<char>, Seq<char>)>, name: Seq<char>)
    ensures
        match attr_of(attrs, name) {
            Some(value) => exists|at: int|
                {
                    &&& 0 <= at < attrs.len()
                    &&& #[trigger] attrs[at] == (name, value)
                    &&& forall|k: int| 0 <= k < at ==> (#[trigger] attrs[k]).0 != name
                },
            None => forall|k: int| 0 <= k < attrs.len() ==> (#[trigger] attrs[k]).0 != name,
        },
    decreases attrs.len(),
{
    if attrs.len() > 0 {
        let rest = attrs.drop_first();
        if attrs[0].0 == name {
            assert(attrs[0] == (name, attrs[0].1));
        } else {
            lemma_attr_of(rest, name);
            if attr_of(attrs, name) is Some {
                let value = attr_of(attrs, name)->0;
                let at = choose|at: int|
                    {
                        &&& 0 <= at < rest.len()
                        &&& #[trigger] rest[at] == (name, value)
                        &&& forall|k: int| 0 <= k < at ==> (#[trigger] rest[k]).0 != name
                    };
                assert(attrs[at + 1] == (name, value));
                assert forall|k: int| 0 <= k < at + 1 implies (#[trigger] attrs[k]).0 != name by {
                    if k > 0 {
                        assert(rest[k - 1] == attrs[k]);
                    }
                }
            } else {
                assert forall|k: int| 0 <= k < attrs.len() implies (#[trigger] attrs[k]).0
                    != name by {
                    if k > 0 {
                        assert(rest[k - 1] == attrs[k]);
                    }
                }
            }
        }
    }
}

/// A value is written character by character: an ampersand as `&amp;`, a quote as `&quot;`,
/// and every other character as it is.
pub proof fn lemma_escaped_each(one: Seq<char>, other: Seq<char>, ch: char)
    ensures
        attr_escaped(one + other) == attr_escaped(one) + attr_escaped(other),
        attr_escaped(seq!['&']) == "&amp;"@,
        attr_escaped(seq!['"']) == "&quot;"@,
        ch != '&' && ch != '"' ==> attr_escaped(seq![ch]) == seq![ch],
{
    lemma_escaped_is_written(one + other);
    lemma_escaped_is_written(one);
    lemma_escaped_is_written(other);
    lemma_written_joins(one, other);
    lemma_written_one('&');
    lemma_written_one('"');
    lemma_written_one(ch);
}

proof fn lemma_written_one(ch: char)
    ensures
        attr_escaped(seq![ch]) == (if ch == '&' {
            "&amp;"@
        } else if ch == '"' {
            "&quot;"@
        } else {
            seq![ch]
        }),
{
    let one = seq![ch];
    lemma_escaped_is_written(one);
    assert(one.drop_first() =~= Seq::<char>::empty());
    assert(written_all(one.drop_first()) =~= Seq::<char>::empty());
    assert(written_all(one) =~= written(ch));
}

proof fn lemma_written_joins(one: Seq<char>, other: Seq<char>)
    ensures
        written_all(one + other) == written_all(one) + written_all(other),
    decreases one.len(),
{
    let whole = one + other;
    if one.len() == 0 {
        assert(whole =~= other);
        assert(written_all(one) + written_all(other) =~= written_all(other));
    } else {
        assert(whole.drop_first() =~= one.drop_first() + other);
        assert(whole[0] == one[0]);
        lemma_written_joins(one.drop_first(), other);
        assert(written_all(whole) =~= written_all(one) + written_all(other));
    }
}

/// A written value without ampersands stands for itself.
pub proof fn lemma_unescaped_plain(text: Seq<char>)
    requires
        !text.contains('&'),
    ensures
        attr_unescaped(text) == text,
{
    reveal_strlit("&quot;");
    reveal_strlit("&amp;");
    if occurs(text, "&quot;"@) {
        let at = choose|at: int| occurs_at(text, "&quot;"@, at);
        assert(text.subrange(at, at + 6)[0] == text[at]);
    }
    if occurs(text, "&amp;"@) {
        let at = choose|at: int| occurs_at(text, "&amp;"@, at);
        assert(text.subrange(at, at + 5)[0] == text[at]);
    }
    lemma_replace_nothing(text, "&quot;"@, "\""@);
    lemma_replace_nothing(text, "&amp;"@, "&"@);
}

proof fn lemma_name_part(text: Seq<char>)
    ensures
        name_len(text) <= text.len(),
        forall|k: int| 0 <= k < name_len(text) ==> is_name_char(#[trigger] text[k]),
    decreases text.len(),
{
    if text.len() > 0 && is_name_char(text[0]) {
        let rest = text.drop_first();
        lemma_name_part(rest);
        assert forall|k: int| 0 <= k < name_len(text) implies is_name_char(#[trigger] text[k]) by {
            if k > 0 {
                assert(text[k] == rest[k - 1]);
            }
        }
    }
}

/// Attributes that can be read are written as such: white space, a name, `="`, a value
/// without quotes, and a quote, and so on to the end, where only white space is left.
pub proof fn lemma_attrs_are_written(text: Seq<char>) -> (parts: (Seq<char>, Seq<char>, Seq<char>))
    requires
        attrs_of(text) is Some,
    ensures
        attrs_of(text)->0.len() == 0 ==> is_blank(text),
        attrs_of(text)->0.len() > 0 ==> {
            let (space, raw, rest) = parts;
            let attrs = attrs_of(text)->0;
            &&& is_blank(space)
            &&& is_attr_name(attrs[0].0)
            &&& !raw.contains('"')
            &&& text == space + attrs[0].0 + seq!['=', '"'] + raw + seq!['"'] + rest
            &&& attrs[0].1 == attr_unescaped(raw)
            &&& attrs_of(rest) == Some(attrs.drop_first())
        },
{
    reveal_strlit("=\"");
    reveal_strlit("\"");
    let attrs = attrs_of(text)->0;
    let solid = trim_start(text);
    let count = text.len() - solid.len();
    let space = text.take(count);
    lemma_leading_blank(text);
    assert(text =~= space + solid);
    if solid.len() == 0 {
        assert(space =~= text);
        (space, Seq::empty(), Seq::empty())
    } else {
        let (attr, used) = first_attr(solid)->0;
        let size = name_len(solid) as int;
        let name = solid.take(size);
        let value = solid.skip(size + 2);
        let end = first_index(value, "\""@)->0;
        let raw = value.take(end);
        let rest = solid.skip(used);
        lemma_name_part(solid);
        lemma_first_index(value, "\""@);
        assert forall|k: int| 0 <= k < name.len() implies is_name_char(#[trigger] name[k]) by {
            assert(name[k] == solid[k]);
        }
        assert(!raw.contains('"')) by {
            if raw.contains('"') {
                let k = choose|k: int| 0 <= k < raw.len() && raw[k] == '"';
                assert(value.subrange(k, k + 1) =~= "\""@);
                assert(occurs_at(value, "\""@, k));
            }
        }
        assert(solid.skip(size).take(2) =~= seq!['=', '"']);
        assert(value.subrange(end, end + 1) =~= seq!['"']);
        assert(solid =~= name + seq!['=', '"'] + raw + seq!['"'] + rest) by {
            let whole = name + seq!['=', '"'] + raw + seq!['"'] + rest;
            assert forall|k: int| 0 <= k < solid.len() implies solid[k] == whole[k] by {
                if size <= k < size + 2 {
                    assert(solid.skip(size).take(2)[k - size] == solid[k]);
                } else if size + 2 <= k < size + 2 + end {
                    assert(raw[k - size - 2] == solid[k]);
                } else if k == size + 2 + end {
                    assert(value.subrange(end, end + 1)[0] == solid[k]);
                }
            }
        }
        assert(text =~= space + name + seq!['=', '"'] + raw + seq!['"'] + rest);
        assert(attrs.drop_first() =~= attrs_of(rest)->0);
        (space, raw, rest)
    }
}

proof fn lemma_leading_blank(text: Seq<char>)
    ensures
        is_blank(text.take(text.len() - trim_start(text).len())),
    decreases text.len(),
{
    if text.len() > 0 && is_white_space(text[0]) {
        let rest = text.drop_first();
        lemma_leading_blank(rest);
        let count = text.len() - trim_start(text).len();
        let start = text.take(count);
        assert forall|k: int| 0 <= k < start.len() implies is_white_space(
            #[trigger] start[k],
        ) by {
            if k > 0 {
                assert(start[k] == rest.take(rest.len() - trim_start(rest).len())[k - 1]);
            }
        }
    }
}

/// A text of white space alone has no attributes, and is a tag without any.
pub proof fn lemma_blank_attrs(text: Seq<char>)
    requires
        is_blank(text),
    ensures
        attrs_of(text) == Some(Seq::<(Seq<char>, Seq<char>)>::empty()),
{
    let nothing = Seq::<char>::empty();
    lemma_trim_start_of(text, nothing);
    assert(text + nothing =~= text);
}

/// The name of an attribute is made of letters, digits and underscores; beyond ASCII of letters
/// and numerals.
pub proof fn lemma_name_chars(ch: char)
    ensures
        ch as nat <= 127 ==> (is_name_char(ch) <==> 48 <= ch as nat <= 57 || 65 <= ch as nat <= 90
            || 97 <= ch as nat <= 122 || ch as nat == 95),
        ch as nat > 127 && is_letter_or_numeral(ch) && !is_white_space(ch) ==> is_name_char(ch),
        ch as nat > 127 && !is_letter_or_numeral(ch) ==> !is_name_char(ch),
{
}

} // verus!
