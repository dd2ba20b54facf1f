//! What holds of the JSON form of formats: each says its type, and what it holds stands
//! under the names that readers of formats know.
use crate::format::{
    format_json, formats_json, structural_tag_json, tag_json, tags_json, FormatModel, TagModel,
};
use crate::json::JsonModel;
use vstd::prelude::*;

verus! {

/// The forms of a run of formats are those of its formats, one by one.
pub proof fn lemma_formats_json_each(formats: Seq<FormatModel>)
    ensures
        formats_json(formats).len() == formats.len(),
        forall|k: int|
            0 <= k < formats.len() ==> (#[trigger] formats_json(formats)[k]) == format_json(
                formats[k],
            ),
    decreases formats.len(),
{
    if formats.len() > 0 {
        lemma_formats_json_each(formats.drop_last());
    }
}

/// The forms of a run of tags are those of its tags, one by one.
pub proof fn lemma_tags_json_each(tags: Seq<TagModel>)
    ensures
        tags_json(tags).len() == tags.len(),
        forall|k: int| 0 <= k < tags.len() ==> (#[trigger] tags_json(tags)[k]) == tag_json(tags[k]),
    decreases tags.len(),
{
    if tags.len() > 0 {
        lemma_tags_json_each(tags.drop_last());
    }
}

/// The form of a text, a pattern and a schema.
pub proof fn lemma_json_of_texts(text: Seq<char>, excludes: Seq<Seq<char>>, schema: JsonModel)
    ensures
        format_json(FormatModel::ConstString(text)) == JsonModel::Object(
            seq![
                ("type"@, JsonModel::Text("const_string"@)),
                ("value"@, JsonModel::Text(text)),
            ],
        ),
        format_json(FormatModel::Regex(text)) == JsonModel::Object(
            seq![("pattern"@, JsonModel::Text(text)), ("type"@, JsonModel::Text("regex"@))],
        ),
        format_json(FormatModel::AnyText(excludes)) == JsonModel::Object(
            seq![
                (
                    "excludes"@,
                    JsonModel::Array(
                        Seq::new(excludes.len(), |k: int| JsonModel::Text(excludes[k])),
                    ),
                ),
                ("type"@, JsonModel::Text("any_text"@)),
            ],
        ),
        format_json(FormatModel::JsonSchema(schema)) == JsonModel::Object(
            seq![
                ("json_schema"@, schema),
                ("style"@, JsonModel::Text("json"@)),
                ("type"@, JsonModel::Text("json_schema"@)),
            ],
        ),
{
    assert(excludes.map_values(|text: Seq<char>| JsonModel::Text(text)) =~= Seq::new(
        excludes.len(),
        |k: int| JsonModel::Text(excludes[k]),
    ));
}

/// The form of content that may be left out, or may be repeated, or of which one or all are
/// due.
pub proof fn lemma_json_of_contents(content: FormatModel, elements: Seq<FormatModel>)
    ensures
        format_json(FormatModel::Optional(Box::new(content))) == JsonModel::Object(
            seq![
                ("content"@, format_json(content)),
                ("type"@, JsonModel::Text("optional"@)),
            ],
        ),
        format_json(FormatModel::Star(Box::new(content))) == JsonModel::Object(
            seq![("content"@, format_json(content)), ("type"@, JsonModel::Text("star"@))],
        ),
        format_json(FormatModel::Or(elements)) == JsonModel::Object(
            seq![
                (
                    "elements"@,
                    JsonModel::Array(
                        Seq::new(elements.len(), |k: int| format_json(elements[k])),
                    ),
                ),
                ("type"@, JsonModel::Text("or"@)),
            ],
        ),
        format_json(FormatModel::Sequence(elements)) == JsonModel::Object(
            seq![
                (
                    "elements"@,
                    JsonModel::Array(
                        Seq::new(elements.len(), |k: int| format_json(elements[k])),
                    ),
                ),
                ("type"@, JsonModel::Text("sequence"@)),
            ],
        ),
{
    lemma_formats_json_each(elements);
    assert(formats_json(elements) =~= Seq::new(
        elements.len(),
        |k: int| format_json(elements[k]),
    ));
}

/// The form of a tag, of tags in a row, and of a whole structural tag.
pub proof fn lemma_json_of_tags(
    tag: TagModel,
    tags: Seq<TagModel>,
    separator: Seq<char>,
    at_least_one: bool,
    stop_after_first: bool,
    format: FormatModel,
)
    ensures
        format_json(FormatModel::Tag(tag)) == JsonModel::Object(
            seq![
                ("begin"@, JsonModel::Text(tag.begin)),
                ("content"@, format_json(*tag.content)),
                ("end"@, JsonModel::Text(tag.end)),
                ("type"@, JsonModel::Text("tag"@)),
            ],
        ),
        format_json(
            FormatModel::TagsWithSeparator { tags, separator, at_least_one, stop_after_first },
        ) == JsonModel::Object(
            seq![
                ("at_least_one"@, JsonModel::Bool(at_least_one)),
                ("separator"@, JsonModel::Text(separator)),
                ("stop_after_first"@, JsonModel::Bool(stop_after_first)),
                (
                    "tags"@,
                    JsonModel::Array(
                        Seq::new(tags.len(), |k: int| format_json(FormatModel::Tag(tags[k]))),
                    ),
                ),
                ("type"@, JsonModel::Text("tags_with_separator"@)),
            ],
        ),
        structural_tag_json(format) == JsonModel::Object(
            seq![
                ("format"@, format_json(format)),
                ("type"@, JsonModel::Text("structural_tag"@)),
            ],
        ),
{
    reveal_with_fuel(format_json, 2);
    reveal_with_fuel(tag_json, 2);
    assert(format_json(FormatModel::Tag(tag)) == tag_json(tag));
    lemma_tags_json_each(tags);
    assert(tags_json(tags) =~= Seq::new(
        tags.len(),
        |k: int| format_json(FormatModel::Tag(tags[k])),
    ));
}

} // verus!
