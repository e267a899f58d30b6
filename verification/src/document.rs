//! A profile as a JSON document: its sections, and what each field of a section can be read as.
use vstd::prelude::*;
use vstd::string::*;

use crate::error::{in_context, outcome, Error};
use crate::json;
use crate::json::{flag_at, json_node, reading, text_at, texts_at, unit_at, Node, NodeModel};
use crate::repo_profile::{accepted_keys, allowed_keys};
use crate::text;
use crate::text::decimal;

verus! {

/// A field of a section, read in each of the ways in which a field can be meant.
pub struct Field {
    pub texts: Result<Vec<String>, String>,
    pub text: Result<Option<String>, String>,
    pub flag: Result<Option<bool>, String>,
}

/// How the fields of a section are given.
pub enum Form {
    /// By their names: all the keys that occur.
    Object(Vec<String>),
    /// By their places: how many items there are.
    Array(usize),
}

/// A section of a profile.
pub enum Section {
    /// A section that is `null` or left out.
    Null,
    /// The fields that the section may have, in the order of the accepted keys; `None` for one that
    /// is left out.
    Fields { form: Form, fields: Vec<Option<Field>> },
    /// Anything else, with what `serde_json` says when a `null` is expected in its place.
    Other(String),
}

/// A JSON document.
pub enum Document {
    /// All the keys that occur, and the sections that a profile may have.
    Object { keys: Vec<String>, meta: Section, filesystem: Section, network: Section },
    /// Anything else.
    Other,
}

/// A field of a section, as a mathematical value.
pub struct FieldModel {
    pub texts: Result<Seq<Seq<char>>, Seq<char>>,
    pub text: Result<Option<Seq<char>>, Seq<char>>,
    pub flag: Result<Option<bool>, Seq<char>>,
}

/// How the fields of a section are given, as a mathematical value.
pub enum FormModel {
    Object(Seq<Seq<char>>),
    Array(nat),
}

/// A section of a profile, as a mathematical value.
pub enum SectionModel {
    Null,
    Fields { form: FormModel, fields: Seq<Option<FieldModel>> },
    Other(Seq<char>),
}

/// A JSON document, as a mathematical value.
pub enum DocumentModel {
    Object {
        keys: Seq<Seq<char>>,
        meta: SectionModel,
        filesystem: SectionModel,
        network: SectionModel,
    },
    Other,
}

impl DeepView for Field {
    type V = FieldModel;

    open spec fn deep_view(&self) -> FieldModel {
        FieldModel {
            texts: reading(self.texts),
            text: reading(self.text),
            flag: reading(self.flag),
        }
    }
}

impl DeepView for Form {
    type V = FormModel;

    open spec fn deep_view(&self) -> FormModel {
        match self {
            Form::Object(keys) => FormModel::Object(keys.deep_view()),
            Form::Array(len) => FormModel::Array(*len as nat),
        }
    }
}

impl DeepView for Section {
    type V = SectionModel;

    open spec fn deep_view(&self) -> SectionModel {
        match self {
            Section::Null => SectionModel::Null,
            Section::Fields { form, fields } => SectionModel::Fields {
                form: form.deep_view(),
                fields: fields.deep_view(),
            },
            Section::Other(t) => SectionModel::Other(t@),
        }
    }
}

impl DeepView for Document {
    type V = DocumentModel;

    open spec fn deep_view(&self) -> DocumentModel {
        match self {
            Document::Object { keys, meta, filesystem, network } => DocumentModel::Object {
                keys: keys.deep_view(),
                meta: meta.deep_view(),
                filesystem: filesystem.deep_view(),
                network: network.deep_view(),
            },
            Document::Other => DocumentModel::Other,
        }
    }
}

/// The place of a section.
pub open spec fn section_place(section: Seq<char>) -> Seq<char> {
    "/"@ + section
}

/// The place of what stands in a section under a name or a number.
pub open spec fn field_place(section: Seq<char>, token: Seq<char>) -> Seq<char> {
    "/"@ + section + "/"@ + token
}

/// The field at a place.
pub open spec fn field_at(json: Seq<char>, place: Seq<char>) -> FieldModel {
    FieldModel {
        texts: texts_at(json, place),
        text: text_at(json, place),
        flag: flag_at(json, place),
    }
}

/// A field of a section: by its name in an object, by its place in an array.
pub open spec fn field_in(
    json: Seq<char>,
    section: Seq<char>,
    form: FormModel,
    name: Seq<char>,
    place: nat,
) -> Option<FieldModel> {
    match form {
        FormModel::Object(keys) => if keys.contains(name) {
            Some(field_at(json, field_place(section, name)))
        } else {
            None
        },
        FormModel::Array(len) => if place < len {
            Some(field_at(json, field_place(section, decimal(place))))
        } else {
            None
        },
    }
}

/// The fields that a section may have, as they are given in it.
pub open spec fn fields_in(json: Seq<char>, section: Seq<char>, form: FormModel) -> Seq<
    Option<FieldModel>,
> {
    let names = accepted_keys(Some(section));
    Seq::new(names.len(), |i: int| field_in(json, section, form, names[i], i as nat))
}

/// A section that occurs in a text.
pub open spec fn section_at(json: Seq<char>, section: Seq<char>) -> SectionModel {
    let place = section_place(section);
    match json_node(json, place) {
        Ok(NodeModel::Object(keys)) => SectionModel::Fields {
            form: FormModel::Object(keys),
            fields: fields_in(json, section, FormModel::Object(keys)),
        },
        Ok(NodeModel::Array(items)) => SectionModel::Fields {
            form: FormModel::Array(items.len()),
            fields: fields_in(json, section, FormModel::Array(items.len())),
        },
        _ => match unit_at(json, place) {
            Ok(_) => SectionModel::Null,
            Err(t) => SectionModel::Other(t),
        },
    }
}

/// A section of a document with some keys.
pub open spec fn section_in(json: Seq<char>, keys: Seq<Seq<char>>, section: Seq<char>) -> SectionModel {
    if keys.contains(section) {
        section_at(json, section)
    } else {
        SectionModel::Null
    }
}

/// The document that a text stands for, if it is JSON at all.
pub open spec fn document_of(json: Seq<char>) -> Result<DocumentModel, Seq<char>> {
    match json_node(json, Seq::empty()) {
        Err(t) => Err(in_context("not valid JSON; runseal requires strict JSON"@, t)),
        Ok(NodeModel::Object(keys)) => Ok(
            DocumentModel::Object {
                keys,
                meta: section_in(json, keys, "meta"@),
                filesystem: section_in(json, keys, "filesystem"@),
                network: section_in(json, keys, "network"@),
            },
        ),
        Ok(_) => Ok(DocumentModel::Other),
    }
}

/// Reads what stands in a section under a name or a number, in each of the ways in which it can be
/// meant.
fn read_field(json: &str, section: &str, token: &str) -> (r: Field)
    ensures
        r.deep_view() == field_at(json@, field_place(section@, token@)),
{
    let mut place = "/".to_owned();
    place.append(section);
    place.append("/");
    place.append(token);
    Field {
        texts: json::decode_texts(json, place.as_str()),
        text: json::decode_text(json, place.as_str()),
        flag: json::decode_flag(json, place.as_str()),
    }
}

/// Reads the fields that a section may have.
fn read_fields(json: &str, section: &str, form: &Form) -> (r: Vec<Option<Field>>)
    ensures
        r.deep_view() == fields_in(json@, section@, form.deep_view()),
{
    let names = allowed_keys(Some(section));
    let ghost all = fields_in(json@, section@, form.deep_view());
    let mut fields: Vec<Option<Field>> = Vec::new();
    let mut i: usize = 0;
    while i < names.len()
        invariant
            i <= names@.len(),
            names.deep_view() == accepted_keys(Some(section@)),
            all == fields_in(json@, section@, form.deep_view()),
            fields.deep_view() == all.take(i as int),
        decreases names@.len() - i,
    {
        let ghost done = fields.deep_view();
        let ghost name = names.deep_view()[i as int];
        assert(name == names@[i as int]@);
        let field = match form {
            Form::Object(keys) => if text::is_among(names[i].as_str(), keys) {
                Some(read_field(json, section, names[i].as_str()))
            } else {
                None
            },
            Form::Array(len) => if i < *len {
                let number = text::to_decimal(i as u64);
                Some(read_field(json, section, number.as_str()))
            } else {
                None
            },
        };
        assert(field.deep_view() == all[i as int]);
        let ghost added = field.deep_view();
        fields.push(field);
        assert(fields.deep_view() == done.push(added));
        i = i + 1;
    }
    assert(all.take(i as int) == all);
    fields
}

/// Reads a section that occurs in a text.
fn read_section(json: &str, section: &str) -> (r: Section)
    ensures
        r.deep_view() == section_at(json@, section@),
{
    let mut place = "/".to_owned();
    place.append(section);
    match json::parse_node(json, place.as_str()) {
        Ok(Node::Object(keys)) => {
            let form = Form::Object(keys);
            let fields = read_fields(json, section, &form);
            Section::Fields { form, fields }
        },
        Ok(Node::Array(items)) => {
            let form = Form::Array(items.len());
            let fields = read_fields(json, section, &form);
            Section::Fields { form, fields }
        },
        _ => match json::decode_unit(json, place.as_str()) {
            Ok(_) => Section::Null,
            Err(t) => Section::Other(t),
        },
    }
}

/// Reads a section of a document with some keys.
fn find_section(json: &str, keys: &Vec<String>, section: &str) -> (r: Section)
    ensures
        r.deep_view() == section_in(json@, keys.deep_view(), section@),
{
    if text::is_among(section, keys) {
        read_section(json, section)
    } else {
        Section::Null
    }
}

/// Reads a JSON document.
pub fn read_document(json: &str) -> (r: Result<Document, Error>)
    ensures
        outcome(r) == document_of(json@),
{
    proof {
        reveal_strlit("");
        assert(""@ == Seq::<char>::empty());
    }
    match json::parse_node(json, "") {
        Err(t) => Err(
            Error::new(t.as_str()).context("not valid JSON; runseal requires strict JSON"),
        ),
        Ok(Node::Object(keys)) => {
            let meta = find_section(json, &keys, "meta");
            let filesystem = find_section(json, &keys, "filesystem");
            let network = find_section(json, &keys, "network");
            Ok(Document::Object { keys, meta, filesystem, network })
        },
        Ok(_) => Ok(Document::Other),
    }
}

/// The field at a place among those that a section may have, unless it is left out.
pub open spec fn field_of(fields: Seq<Option<FieldModel>>, place: int) -> Option<FieldModel> {
    if 0 <= place < fields.len() {
        fields[place]
    } else {
        None
    }
}

/// A field that holds a list; a field that is left out holds an empty one.
pub open spec fn list_in(fields: Seq<Option<FieldModel>>, place: int) -> Result<
    Seq<Seq<char>>,
    Seq<char>,
> {
    match field_of(fields, place) {
        Some(f) => f.texts,
        None => Ok(Seq::empty()),
    }
}

/// A field that may hold a text.
pub open spec fn text_in(fields: Seq<Option<FieldModel>>, place: int) -> Result<
    Option<Seq<char>>,
    Seq<char>,
> {
    match field_of(fields, place) {
        Some(f) => f.text,
        None => Ok(None),
    }
}

/// A field that may hold a truth value.
pub open spec fn flag_in(fields: Seq<Option<FieldModel>>, place: int) -> Result<
    Option<bool>,
    Seq<char>,
> {
    match field_of(fields, place) {
        Some(f) => f.flag,
        None => Ok(None),
    }
}

/// The field at a place among those that a section may have, unless it is left out.
fn find_field(fields: &Vec<Option<Field>>, place: usize) -> (r: Option<&Field>)
    ensures
        r.deep_view() == field_of(fields.deep_view(), place as int),
{
    if place < fields.len() {
        assert(fields.deep_view()[place as int] == fields@[place as int].deep_view());
        match &fields[place] {
            Some(f) => Some(f),
            None => None,
        }
    } else {
        None
    }
}

/// Reads a field that holds a list; a field that is left out holds an empty one.
pub fn find_list(fields: &Vec<Option<Field>>, place: usize) -> (r: Result<Vec<String>, Error>)
    ensures
        outcome(r) == list_in(fields.deep_view(), place as int),
{
    match find_field(fields, place) {
        Some(f) => match &f.texts {
            Ok(texts) => Ok(text::copy_all(texts)),
            Err(t) => Err(Error::new(t.as_str())),
        },
        None => {
            let none: Vec<String> = Vec::new();
            assert(none.deep_view() == Seq::<Seq<char>>::empty());
            Ok(none)
        },
    }
}

/// Reads a field that may hold a text.
pub fn find_text(fields: &Vec<Option<Field>>, place: usize) -> (r: Result<Option<String>, Error>)
    ensures
        outcome(r) == text_in(fields.deep_view(), place as int),
{
    match find_field(fields, place) {
        Some(f) => match &f.text {
            Ok(Some(text)) => Ok(Some(text.clone())),
            Ok(None) => Ok(None),
            Err(t) => Err(Error::new(t.as_str())),
        },
        None => Ok(None),
    }
}

/// Reads a field that may hold a truth value.
pub fn find_flag(fields: &Vec<Option<Field>>, place: usize) -> (r: Result<Option<bool>, Error>)
    ensures
        outcome(r) == flag_in(fields.deep_view(), place as int),
{
    match find_field(fields, place) {
        Some(f) => match &f.flag {
            Ok(flag) => Ok(*flag),
            Err(t) => Err(Error::new(t.as_str())),
        },
        None => Ok(None),
    }
}

} // verus!
