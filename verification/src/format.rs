//! Formats that constrain what a model may write, and their JSON form.
use crate::json::{
    entries_view, items_view, keys_ascend, lemma_entries_view, lemma_items_view, precedes,
    well_formed, JsonModel, JsonValue,
};
use crate::text::string_texts;
use vstd::prelude::*;

verus! {

broadcast use {lemma_items_view, lemma_entries_view};

/// What a model may write.
#[derive(Debug, PartialEq, Eq)]
pub enum Format {
    /// Any text that holds none of `excludes`.
    AnyText { excludes: Vec<String> },
    /// One text.
    ConstString { value: String },
    /// JSON that fits a schema.
    JsonSchema { json_schema: JsonValue },
    /// The content, or nothing.
    Optional { content: Box<Format> },
    /// One of the elements.
    Or { elements: Vec<Format> },
    /// A text that fits a pattern.
    Regex { pattern: String },
    /// The elements in a row.
    Sequence { elements: Vec<Format> },
    /// The content any number of times.
    Star { content: Box<Format> },
    Tag(TagFormat),
    /// Some of the tags in a row.
    TagsWithSeparator {
        tags: Vec<TagFormat>,
        separator: String,
        at_least_one: bool,
        stop_after_first: bool,
    },
}

/// Content between a fixed beginning and a fixed end.
#[derive(Debug, PartialEq, Eq)]
pub struct TagFormat {
    pub begin: String,
    pub content: Box<Format>,
    pub end: String,
}

/// The format of a whole message.
#[derive(Debug, PartialEq, Eq)]
pub struct StructuralTag {
    pub format: Format,
}

/// What a [`Format`] holds.
pub enum FormatModel {
    AnyText(Seq<Seq<char>>),
    ConstString(Seq<char>),
    JsonSchema(JsonModel),
    Optional(Box<FormatModel>),
    Or(Seq<FormatModel>),
    Regex(Seq<char>),
    Sequence(Seq<FormatModel>),
    Star(Box<FormatModel>),
    Tag(TagModel),
    TagsWithSeparator {
        tags: Seq<TagModel>,
        separator: Seq<char>,
        at_least_one: bool,
        stop_after_first: bool,
    },
}

/// What a [`TagFormat`] holds.
pub struct TagModel {
    pub begin: Seq<char>,
    pub content: Box<FormatModel>,
    pub end: Seq<char>,
}

impl Format {
    pub open spec fn view(self) -> FormatModel
        decreases self,
    {
        match self {
            Format::AnyText { excludes } => FormatModel::AnyText(string_texts(excludes@)),
            Format::ConstString { value } => FormatModel::ConstString(value@),
            Format::JsonSchema { json_schema } => FormatModel::JsonSchema(json_schema@),
            Format::Optional { content } => FormatModel::Optional(Box::new((*content).view())),
            Format::Or { elements } => FormatModel::Or(formats_view(elements@)),
            Format::Regex { pattern } => FormatModel::Regex(pattern@),
            Format::Sequence { elements } => FormatModel::Sequence(formats_view(elements@)),
            Format::Star { content } => FormatModel::Star(Box::new((*content).view())),
            Format::Tag(tag) => FormatModel::Tag(tag.view()),
            Format::TagsWithSeparator { tags, separator, at_least_one, stop_after_first } =>
                FormatModel::TagsWithSeparator {
                tags: tags_view(tags@),
                separator: separator@,
                at_least_one,
                stop_after_first,
            },
        }
    }
}

impl TagFormat {
    pub open spec fn view(self) -> TagModel
        decreases self,
    {
        TagModel {
            begin: self.begin@,
            content: Box::new((*self.content).view()),
            end: self.end@,
        }
    }
}

/// What a run of formats holds.
pub open spec fn formats_view(formats: Seq<Format>) -> Seq<FormatModel>
    decreases formats,
{
    if formats.len() == 0 {
        Seq::empty()
    } else {
        formats_view(formats.drop_last()).push(formats.last().view())
    }
}

/// What a run of tags holds.
pub open spec fn tags_view(tags: Seq<TagFormat>) -> Seq<TagModel>
    decreases tags,
{
    if tags.len() == 0 {
        Seq::empty()
    } else {
        tags_view(tags.drop_last()).push(tags.last().view())
    }
}

/// [`formats_view`] goes format by format.
pub broadcast proof fn lemma_formats_view(formats: Seq<Format>)
    ensures
        (#[trigger] formats_view(formats)).len() == formats.len(),
        forall|k: int|
            0 <= k < formats.len() ==> (#[trigger] formats_view(formats)[k]) == formats[k].view(),
    decreases formats.len(),
{
    if formats.len() > 0 {
        lemma_formats_view(formats.drop_last());
    }
}

/// [`tags_view`] goes tag by tag.
pub broadcast proof fn lemma_tags_view(tags: Seq<TagFormat>)
    ensures
        (#[trigger] tags_view(tags)).len() == tags.len(),
        forall|k: int| 0 <= k < tags.len() ==> (#[trigger] tags_view(tags)[k]) == tags[k].view(),
    decreases tags.len(),
{
    if tags.len() > 0 {
        lemma_tags_view(tags.drop_last());
    }
}

/// The JSON form of a run of texts.
pub open spec fn texts_json(texts: Seq<Seq<char>>) -> JsonModel {
    JsonModel::Array(texts.map_values(|text: Seq<char>| JsonModel::Text(text)))
}

/// The JSON form of a format: an object that says its type.
pub open spec fn format_json(format: FormatModel) -> JsonModel
    decreases format,
{
    match format {
        FormatModel::AnyText(excludes) => JsonModel::Object(
            seq![
                ("excludes"@, texts_json(excludes)),
                ("type"@, JsonModel::Text("any_text"@)),
            ],
        ),
        FormatModel::ConstString(value) => JsonModel::Object(
            seq![
                ("type"@, JsonModel::Text("const_string"@)),
                ("value"@, JsonModel::Text(value)),
            ],
        ),
        FormatModel::JsonSchema(schema) => JsonModel::Object(
            seq![
                ("json_schema"@, schema),
                ("style"@, JsonModel::Text("json"@)),
                ("type"@, JsonModel::Text("json_schema"@)),
            ],
        ),
        FormatModel::Optional(content) => JsonModel::Object(
            seq![
                ("content"@, format_json(*content)),
                ("type"@, JsonModel::Text("optional"@)),
            ],
        ),
        FormatModel::Or(elements) => JsonModel::Object(
            seq![
                ("elements"@, JsonModel::Array(formats_json(elements))),
                ("type"@, JsonModel::Text("or"@)),
            ],
        ),
        FormatModel::Regex(pattern) => JsonModel::Object(
            seq![
                ("pattern"@, JsonModel::Text(pattern)),
                ("type"@, JsonModel::Text("regex"@)),
            ],
        ),
        FormatModel::Sequence(elements) => JsonModel::Object(
            seq![
                ("elements"@, JsonModel::Array(formats_json(elements))),
                ("type"@, JsonModel::Text("sequence"@)),
            ],
        ),
        FormatModel::Star(content) => JsonModel::Object(
            seq![
                ("content"@, format_json(*content)),
                ("type"@, JsonModel::Text("star"@)),
            ],
        ),
        FormatModel::Tag(tag) => tag_json(tag),
        FormatModel::TagsWithSeparator { tags, separator, at_least_one, stop_after_first } =>
            JsonModel::Object(
            seq![
                ("at_least_one"@, JsonModel::Bool(at_least_one)),
                ("separator"@, JsonModel::Text(separator)),
                ("stop_after_first"@, JsonModel::Bool(stop_after_first)),
                ("tags"@, JsonModel::Array(tags_json(tags))),
                ("type"@, JsonModel::Text("tags_with_separator"@)),
            ],
        ),
    }
}

/// The JSON form of a tag.
pub open spec fn tag_json(tag: TagModel) -> JsonModel
    decreases tag,
{
    JsonModel::Object(
        seq![
            ("begin"@, JsonModel::Text(tag.begin)),
            ("content"@, format_json(*tag.content)),
            ("end"@, JsonModel::Text(tag.end)),
            ("type"@, JsonModel::Text("tag"@)),
        ],
    )
}

/// The JSON forms of a run of formats.
pub open spec fn formats_json(formats: Seq<FormatModel>) -> Seq<JsonModel>
    decreases formats,
{
    if formats.len() == 0 {
        Seq::empty()
    } else {
        formats_json(formats.drop_last()).push(format_json(formats.last()))
    }
}

/// The JSON forms of a run of tags.
pub open spec fn tags_json(tags: Seq<TagModel>) -> Seq<JsonModel>
    decreases tags,
{
    if tags.len() == 0 {
        Seq::empty()
    } else {
        tags_json(tags.drop_last()).push(tag_json(tags.last()))
    }
}

/// The JSON form of a structural tag.
pub open spec fn structural_tag_json(format: FormatModel) -> JsonModel {
    JsonModel::Object(
        seq![
            ("format"@, format_json(format)),
            ("type"@, JsonModel::Text("structural_tag"@)),
        ],
    )
}

/// A string as a JSON value.
fn text_value(text: &str) -> (value: JsonValue)
    ensures
        value@ == JsonModel::Text(text@),
{
    JsonValue::Text(text.to_owned())
}

/// A list of strings as a JSON value.
fn texts_value(texts: &Vec<String>) -> (value: JsonValue)
    ensures
        value@ == texts_json(string_texts(texts@)),
{
    let mut items: Vec<JsonValue> = Vec::new();
    let mut at: usize = 0;
    while at < texts.len()
        invariant
            at <= texts@.len(),
            items@.len() == at,
            forall|k: int| 0 <= k < at ==> (#[trigger] items@[k])@ == JsonModel::Text(texts@[k]@),
        decreases texts.len() - at,
    {
        items.push(text_value(texts[at].as_str()));
        at += 1;
    }
    proof {
        lemma_items_view(items@);
        let all = string_texts(texts@);
        assert(items_view(items@) =~= all.map_values(
            |text: Seq<char>| JsonModel::Text(text),
        ));
    }
    JsonValue::Array(items)
}

/// An object with two members.
fn object_of_two(
    first: &str,
    first_value: JsonValue,
    second: &str,
    second_value: JsonValue,
) -> (value: JsonValue)
    ensures
        value@ == JsonModel::Object(seq![(first@, first_value@), (second@, second_value@)]),
{
    let mut entries: Vec<(String, JsonValue)> = Vec::new();
    entries.push((first.to_owned(), first_value));
    entries.push((second.to_owned(), second_value));
    proof {
        lemma_entries_view(entries@);
        assert(entries_view(entries@) =~= seq![
            (first@, first_value@),
            (second@, second_value@),
        ]);
    }
    JsonValue::Object(entries)
}

impl Format {
    /// The JSON form of the format.
    pub fn to_json(&self) -> (value: JsonValue)
        ensures
            value@ == format_json(self@),
        decreases self,
    {
        match self {
            Format::AnyText { excludes } => object_of_two(
                "excludes",
                texts_value(excludes),
                "type",
                text_value("any_text"),
            ),
            Format::ConstString { value } => object_of_two(
                "type",
                text_value("const_string"),
                "value",
                text_value(value.as_str()),
            ),
            Format::JsonSchema { json_schema } => {
                let mut entries: Vec<(String, JsonValue)> = Vec::new();
                entries.push(("json_schema".to_owned(), json_schema.duplicate()));
                entries.push(("style".to_owned(), text_value("json")));
                entries.push(("type".to_owned(), text_value("json_schema")));
                proof {
                    lemma_entries_view(entries@);
                    assert(entries_view(entries@) =~= format_json(self@)->Object_0);
                }
                JsonValue::Object(entries)
            },
            Format::Optional { content } => object_of_two(
                "content",
                content.to_json(),
                "type",
                text_value("optional"),
            ),
            Format::Or { elements } => object_of_two(
                "elements",
                JsonValue::Array(elements_json(elements)),
                "type",
                text_value("or"),
            ),
            Format::Regex { pattern } => object_of_two(
                "pattern",
                text_value(pattern.as_str()),
                "type",
                text_value("regex"),
            ),
            Format::Sequence { elements } => object_of_two(
                "elements",
                JsonValue::Array(elements_json(elements)),
                "type",
                text_value("sequence"),
            ),
            Format::Star { content } => object_of_two(
                "content",
                content.to_json(),
                "type",
                text_value("star"),
            ),
            Format::Tag(tag) => tag.to_json(),
            Format::TagsWithSeparator { tags, separator, at_least_one, stop_after_first } => {
                let mut items: Vec<JsonValue> = Vec::new();
                let mut at: usize = 0;
                assert(tags_view(tags@.take(0)) =~= Seq::empty());
                assert(items_view(items@) =~= tags_json(tags_view(tags@.take(0))));
                while at < tags.len()
                    invariant
                        at <= tags@.len(),
                        decreases_to!(self => tags@),
                        items_view(items@) == tags_json(tags_view(tags@.take(at as int))),
                    decreases tags.len() - at,
                {
                    let ghost before = items@;
                    items.push(tags[at].to_json());
                    assert(items@.drop_last() =~= before);
                    assert(tags@.take(at + 1).drop_last() =~= tags@.take(at as int));
                    let ghost models = tags_view(tags@.take(at + 1));
                    assert(models.drop_last() =~= tags_view(tags@.take(at as int)));
                    at += 1;
                }
                assert(tags@.take(at as int) =~= tags@);
                let mut entries: Vec<(String, JsonValue)> = Vec::new();
                entries.push(("at_least_one".to_owned(), JsonValue::Bool(*at_least_one)));
                entries.push(("separator".to_owned(), text_value(separator.as_str())));
                entries.push(("stop_after_first".to_owned(), JsonValue::Bool(*stop_after_first)));
                entries.push(("tags".to_owned(), JsonValue::Array(items)));
                entries.push(("type".to_owned(), text_value("tags_with_separator")));
                proof {
                    lemma_entries_view(entries@);
                    assert(entries_view(entries@) =~= format_json(self@)->Object_0);
                }
                JsonValue::Object(entries)
            },
        }
    }
}

/// The JSON forms of a run of formats.
fn elements_json(elements: &Vec<Format>) -> (items: Vec<JsonValue>)
    ensures
        items_view(items@) == formats_json(formats_view(elements@)),
    decreases elements,
{
    let mut items: Vec<JsonValue> = Vec::new();
    let mut at: usize = 0;
    assert(formats_view(elements@.take(0)) =~= Seq::empty());
    assert(items_view(items@) =~= formats_json(formats_view(elements@.take(0))));
    while at < elements.len()
        invariant
            at <= elements@.len(),
            decreases_to!(elements => elements@),
            items_view(items@) == formats_json(formats_view(elements@.take(at as int))),
        decreases elements.len() - at,
    {
        let ghost before = items@;
        items.push(elements[at].to_json());
        assert(items@.drop_last() =~= before);
        assert(elements@.take(at + 1).drop_last() =~= elements@.take(at as int));
        let ghost models = formats_view(elements@.take(at + 1));
        assert(models.drop_last() =~= formats_view(elements@.take(at as int)));
        at += 1;
    }
    assert(elements@.take(at as int) =~= elements@);
    items
}

impl TagFormat {
    /// The JSON form of the tag.
    pub fn to_json(&self) -> (value: JsonValue)
        ensures
            value@ == tag_json(self@),
        decreases self,
    {
        let mut entries: Vec<(String, JsonValue)> = Vec::new();
        entries.push(("begin".to_owned(), text_value(self.begin.as_str())));
        entries.push(("content".to_owned(), self.content.to_json()));
        entries.push(("end".to_owned(), text_value(self.end.as_str())));
        entries.push(("type".to_owned(), text_value("tag")));
        proof {
            lemma_entries_view(entries@);
            assert(entries_view(entries@) =~= tag_json(self@)->Object_0);
        }
        JsonValue::Object(entries)
    }
}

impl StructuralTag {
    /// The JSON form of the tag.
    pub fn to_json(&self) -> (value: JsonValue)
        ensures
            value@ == structural_tag_json(self.format@),
    {
        object_of_two("format", self.format.to_json(), "type", text_value("structural_tag"))
    }
}

/// The schemas in a format are well-formed.
pub open spec fn schemas_well_formed(format: FormatModel) -> bool
    decreases format,
{
    match format {
        FormatModel::JsonSchema(schema) => well_formed(schema),
        FormatModel::Optional(content) => schemas_well_formed(*content),
        FormatModel::Or(elements) => forall|k: int|
            0 <= k < elements.len() ==> schemas_well_formed(#[trigger] elements[k]),
        FormatModel::Sequence(elements) => forall|k: int|
            0 <= k < elements.len() ==> schemas_well_formed(#[trigger] elements[k]),
        FormatModel::Star(content) => schemas_well_formed(*content),
        FormatModel::Tag(tag) => schemas_well_formed(*tag.content),
        FormatModel::TagsWithSeparator { tags, .. } => forall|k: int|
            0 <= k < tags.len() ==> schemas_well_formed(*(#[trigger] tags[k]).content),
        _ => true,
    }
}

proof fn lemma_first_differs(left: Seq<char>, right: Seq<char>)
    requires
        left.len() > 0,
        right.len() > 0,
        left[0] < right[0],
    ensures
        precedes(left, right),
{
}

proof fn lemma_second_differs(left: Seq<char>, right: Seq<char>)
    requires
        left.len() > 1,
        right.len() > 1,
        left[0] == right[0],
        left[1] < right[1],
    ensures
        precedes(left, right),
{
    assert(left.drop_first()[0] == left[1]);
    assert(right.drop_first()[0] == right[1]);
    lemma_first_differs(left.drop_first(), right.drop_first());
}

/// The JSON form of a tag is well-formed, where the schemas in it are.
pub proof fn lemma_tag_json_well_formed(tag: TagModel)
    requires
        schemas_well_formed(*tag.content),
    ensures
        well_formed(tag_json(tag)),
    decreases tag,
{
    reveal_with_fuel(well_formed, 3);
    reveal_strlit("begin");
    reveal_strlit("content");
    reveal_strlit("end");
    reveal_strlit("type");
    lemma_first_differs("begin"@, "content"@);
    lemma_first_differs("begin"@, "end"@);
    lemma_first_differs("begin"@, "type"@);
    lemma_first_differs("content"@, "end"@);
    lemma_first_differs("content"@, "type"@);
    lemma_first_differs("end"@, "type"@);
    lemma_format_json_well_formed(*tag.content);
    assert(keys_ascend(tag_json(tag)->Object_0));
}

/// The JSON form of a format is well-formed, where the schemas in it are.
pub proof fn lemma_format_json_well_formed(format: FormatModel)
    requires
        schemas_well_formed(format),
    ensures
        well_formed(format_json(format)),
    decreases format,
{
    reveal_with_fuel(well_formed, 3);
    reveal_strlit("type");
    match format {
        FormatModel::AnyText(excludes) => {
            reveal_strlit("excludes");
            lemma_first_differs("excludes"@, "type"@);
        },
        FormatModel::ConstString(value) => {
            reveal_strlit("value");
            lemma_first_differs("type"@, "value"@);
        },
        FormatModel::JsonSchema(schema) => {
            reveal_strlit("json_schema");
            reveal_strlit("style");
            lemma_first_differs("json_schema"@, "style"@);
            lemma_first_differs("json_schema"@, "type"@);
            lemma_first_differs("style"@, "type"@);
            assert(keys_ascend(format_json(format)->Object_0));
        },
        FormatModel::Optional(content) => {
            reveal_strlit("content");
            lemma_first_differs("content"@, "type"@);
            lemma_format_json_well_formed(*content);
        },
        FormatModel::Star(content) => {
            reveal_strlit("content");
            lemma_first_differs("content"@, "type"@);
            lemma_format_json_well_formed(*content);
        },
        FormatModel::Or(elements) => {
            reveal_strlit("elements");
            lemma_first_differs("elements"@, "type"@);
            lemma_formats_json_well_formed(elements);
            assert(well_formed(JsonModel::Array(formats_json(elements))));
        },
        FormatModel::Sequence(elements) => {
            reveal_strlit("elements");
            lemma_first_differs("elements"@, "type"@);
            lemma_formats_json_well_formed(elements);
            assert(well_formed(JsonModel::Array(formats_json(elements))));
        },
        FormatModel::Regex(pattern) => {
            reveal_strlit("pattern");
            lemma_first_differs("pattern"@, "type"@);
        },
        FormatModel::Tag(tag) => {
            lemma_tag_json_well_formed(tag);
        },
        FormatModel::TagsWithSeparator { tags, separator, at_least_one, stop_after_first } => {
            reveal_strlit("at_least_one");
            reveal_strlit("separator");
            reveal_strlit("stop_after_first");
            reveal_strlit("tags");
            lemma_first_differs("at_least_one"@, "separator"@);
            lemma_first_differs("at_least_one"@, "stop_after_first"@);
            lemma_first_differs("at_least_one"@, "tags"@);
            lemma_first_differs("at_least_one"@, "type"@);
            lemma_second_differs("separator"@, "stop_after_first"@);
            lemma_first_differs("separator"@, "tags"@);
            lemma_first_differs("separator"@, "type"@);
            lemma_first_differs("stop_after_first"@, "tags"@);
            lemma_first_differs("stop_after_first"@, "type"@);
            lemma_second_differs("tags"@, "type"@);
            lemma_tags_json_well_formed(tags);
            assert(well_formed(JsonModel::Array(tags_json(tags))));
            assert(keys_ascend(format_json(format)->Object_0));
        },
    }
}

proof fn lemma_formats_json_well_formed(formats: Seq<FormatModel>)
    requires
        forall|k: int| 0 <= k < formats.len() ==> schemas_well_formed(#[trigger] formats[k]),
    ensures
        forall|k: int|
            0 <= k < formats_json(formats).len() ==> well_formed(
                #[trigger] formats_json(formats)[k],
            ),
    decreases formats,
{
    if formats.len() > 0 {
        let start = formats.drop_last();
        assert forall|k: int| 0 <= k < start.len() implies schemas_well_formed(
            #[trigger] start[k],
        ) by {
            assert(start[k] == formats[k]);
        }
        lemma_formats_json_well_formed(start);
        assert(formats.last() == formats[formats.len() - 1]);
        lemma_format_json_well_formed(formats.last());
        let all = formats_json(formats);
        let before = formats_json(start);
        assert(all == before.push(format_json(formats.last())));
        assert forall|k: int| 0 <= k < all.len() implies well_formed(#[trigger] all[k]) by {
            if k < before.len() {
                assert(all[k] == before[k]);
            }
        }
    }
}

proof fn lemma_tags_json_well_formed(tags: Seq<TagModel>)
    requires
        forall|k: int| 0 <= k < tags.len() ==> schemas_well_formed(*(#[trigger] tags[k]).content),
    ensures
        forall|k: int|
            0 <= k < tags_json(tags).len() ==> well_formed(#[trigger] tags_json(tags)[k]),
    decreases tags,
{
    if tags.len() > 0 {
        let start = tags.drop_last();
        assert forall|k: int| 0 <= k < start.len() implies schemas_well_formed(
            *(#[trigger] start[k]).content,
        ) by {
            assert(start[k] == tags[k]);
        }
        lemma_tags_json_well_formed(start);
        assert(tags.last() == tags[tags.len() - 1]);
        lemma_tag_json_well_formed(tags.last());
        let all = tags_json(tags);
        let before = tags_json(start);
        assert(all == before.push(tag_json(tags.last())));
        assert forall|k: int| 0 <= k < all.len() implies well_formed(#[trigger] all[k]) by {
            if k < before.len() {
                assert(all[k] == before[k]);
            }
        }
    }
}

/// The JSON form of a structural tag is well-formed, where the schemas in it are.
pub proof fn lemma_structural_tag_json_well_formed(format: FormatModel)
    requires
        schemas_well_formed(format),
    ensures
        well_formed(structural_tag_json(format)),
{
    reveal_with_fuel(well_formed, 3);
    reveal_strlit("format");
    reveal_strlit("type");
    lemma_first_differs("format"@, "type"@);
    lemma_format_json_well_formed(format);
}

} // verus!
