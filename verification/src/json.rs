//! JSON as `serde_json` reads it: what stands at a place of a text, and as what it can be read.
//!
//! A place is a JSON pointer. The empty one stands for the whole text; where nothing stands at a
//! place, it counts as `null`.
use vstd::prelude::*;

verus! {

/// What stands at a place.
pub enum Node {
    Null,
    Bool(bool),
    Number,
    Text(String),
    /// The items that are texts, and `None` for each other one.
    Array(Vec<Option<String>>),
    /// The keys of the members, in their order.
    Object(Vec<String>),
}

/// What stands at a place, as a mathematical value.
pub enum NodeModel {
    Null,
    Bool(bool),
    Number,
    Text(Seq<char>),
    Array(Seq<Option<Seq<char>>>),
    Object(Seq<Seq<char>>),
}

impl DeepView for Node {
    type V = NodeModel;

    open spec fn deep_view(&self) -> NodeModel {
        match self {
            Node::Null => NodeModel::Null,
            Node::Bool(b) => NodeModel::Bool(*b),
            Node::Number => NodeModel::Number,
            Node::Text(t) => NodeModel::Text(t@),
            Node::Array(items) => NodeModel::Array(items.deep_view()),
            Node::Object(keys) => NodeModel::Object(keys.deep_view()),
        }
    }
}

/// A reading as a mathematical value: what was read, or why nothing was.
pub open spec fn reading<T: DeepView>(r: Result<T, String>) -> Result<T::V, Seq<char>> {
    match r {
        Ok(v) => Ok(v.deep_view()),
        Err(t) => Err(t@),
    }
}

/// What `serde_json::from_str` makes of a text and `Value::pointer` finds in it at a place, or how
/// the first refuses the text.
pub uninterp spec fn json_node(json: Seq<char>, place: Seq<char>) -> Result<NodeModel, Seq<char>>;

/// How `serde_json::from_value` refuses, as a list of texts, what `serde_json::from_str` and
/// `Value::pointer` give for a place of a text.
pub uninterp spec fn texts_refusal(json: Seq<char>, place: Seq<char>) -> Seq<char>;

/// How `serde_json::from_value` refuses, as a text or `null`, what `serde_json::from_str` and
/// `Value::pointer` give for a place of a text.
pub uninterp spec fn text_refusal(json: Seq<char>, place: Seq<char>) -> Seq<char>;

/// How `serde_json::from_value` refuses, as a truth value or `null`, what `serde_json::from_str`
/// and `Value::pointer` give for a place of a text.
pub uninterp spec fn flag_refusal(json: Seq<char>, place: Seq<char>) -> Seq<char>;

/// How `serde_json::from_value` refuses, as nothing but `null`, what `serde_json::from_str` and
/// `Value::pointer` give for a place of a text.
pub uninterp spec fn unit_refusal(json: Seq<char>, place: Seq<char>) -> Seq<char>;

/// Whether every item of an array is a text.
pub open spec fn all_texts(items: Seq<Option<Seq<char>>>) -> bool {
    forall|i: int| 0 <= i < items.len() ==> (#[trigger] items[i]) is Some
}

/// The items of an array of texts.
pub open spec fn texts_in(items: Seq<Option<Seq<char>>>) -> Seq<Seq<char>> {
    items.map_values(|item: Option<Seq<char>>| item->Some_0)
}

/// What stands at a place, read as a list of texts.
pub open spec fn texts_at(json: Seq<char>, place: Seq<char>) -> Result<Seq<Seq<char>>, Seq<char>> {
    match json_node(json, place) {
        Err(t) => Err(t),
        Ok(NodeModel::Array(items)) if all_texts(items) => Ok(texts_in(items)),
        Ok(_) => Err(texts_refusal(json, place)),
    }
}

/// What stands at a place, read as a text or `null`.
pub open spec fn text_at(json: Seq<char>, place: Seq<char>) -> Result<Option<Seq<char>>, Seq<char>> {
    match json_node(json, place) {
        Err(t) => Err(t),
        Ok(NodeModel::Null) => Ok(None),
        Ok(NodeModel::Text(text)) => Ok(Some(text)),
        Ok(_) => Err(text_refusal(json, place)),
    }
}

/// What stands at a place, read as a truth value or `null`.
pub open spec fn flag_at(json: Seq<char>, place: Seq<char>) -> Result<Option<bool>, Seq<char>> {
    match json_node(json, place) {
        Err(t) => Err(t),
        Ok(NodeModel::Null) => Ok(None),
        Ok(NodeModel::Bool(flag)) => Ok(Some(flag)),
        Ok(_) => Err(flag_refusal(json, place)),
    }
}

/// What stands at a place, read as nothing but `null`.
pub open spec fn unit_at(json: Seq<char>, place: Seq<char>) -> Result<(), Seq<char>> {
    match json_node(json, place) {
        Err(t) => Err(t),
        Ok(NodeModel::Null) => Ok(()),
        Ok(_) => Err(unit_refusal(json, place)),
    }
}

/// Calls `serde_json::from_str` for a `serde_json::Value`, looks up a place with `Value::pointer`,
/// and tells apart what it finds there. The result is the one that `json_node` names.
#[verifier::external_body]
pub(crate) fn parse_node(json: &str, place: &str) -> (r: Result<Node, String>)
    ensures
        reading(r) == json_node(json@, place@),
{
    let value = serde_json::from_str::<serde_json::Value>(json).map_err(|e| e.to_string())?;
    match value.pointer(place).cloned().unwrap_or_default() {
        serde_json::Value::Null => Ok(Node::Null),
        serde_json::Value::Bool(b) => Ok(Node::Bool(b)),
        serde_json::Value::Number(_) => Ok(Node::Number),
        serde_json::Value::String(s) => Ok(Node::Text(s)),
        serde_json::Value::Array(a) => {
            Ok(Node::Array(a.iter().map(|v| v.as_str().map(str::to_owned)).collect()))
        }
        serde_json::Value::Object(o) => Ok(Node::Object(o.keys().cloned().collect())),
    }
}

/// Calls `serde_json::from_str` for a `serde_json::Value`, looks up a place with `Value::pointer`,
/// and calls `serde_json::from_value` for a `Vec<String>` on what it finds there. The first fails
/// as it does for `parse_node`; the last succeeds on an array of texts alone, with these texts, and
/// otherwise refuses as `texts_refusal` names it.
#[verifier::external_body]
pub(crate) fn decode_texts(json: &str, place: &str) -> (r: Result<Vec<String>, String>)
    ensures
        reading(r) == match json_node(json@, place@) {
            Err(t) => Err(t),
            Ok(NodeModel::Array(items)) if all_texts(items) => Ok(texts_in(items)),
            Ok(_) => Err(texts_refusal(json@, place@)),
        },
{
    serde_json::from_str::<serde_json::Value>(json)
        .and_then(|v| serde_json::from_value(v.pointer(place).cloned().unwrap_or_default()))
        .map_err(|e| e.to_string())
}

/// Calls `serde_json::from_str` for a `serde_json::Value`, looks up a place with `Value::pointer`,
/// and calls `serde_json::from_value` for an `Option<String>` on what it finds there. The first
/// fails as it does for `parse_node`; the last succeeds on a text and on `null` alone, and otherwise
/// refuses as `text_refusal` names it.
#[verifier::external_body]
pub(crate) fn decode_text(json: &str, place: &str) -> (r: Result<Option<String>, String>)
    ensures
        reading(r) == match json_node(json@, place@) {
            Err(t) => Err(t),
            Ok(NodeModel::Null) => Ok(None),
            Ok(NodeModel::Text(text)) => Ok(Some(text)),
            Ok(_) => Err(text_refusal(json@, place@)),
        },
{
    serde_json::from_str::<serde_json::Value>(json)
        .and_then(|v| serde_json::from_value(v.pointer(place).cloned().unwrap_or_default()))
        .map_err(|e| e.to_string())
}

/// Calls `serde_json::from_str` for a `serde_json::Value`, looks up a place with `Value::pointer`,
/// and calls `serde_json::from_value` for an `Option<bool>` on what it finds there. The first fails
/// as it does for `parse_node`; the last succeeds on a truth value and on `null` alone, and otherwise
/// refuses as `flag_refusal` names it.
#[verifier::external_body]
pub(crate) fn decode_flag(json: &str, place: &str) -> (r: Result<Option<bool>, String>)
    ensures
        reading(r) == match json_node(json@, place@) {
            Err(t) => Err(t),
            Ok(NodeModel::Null) => Ok(None),
            Ok(NodeModel::Bool(flag)) => Ok(Some(flag)),
            Ok(_) => Err(flag_refusal(json@, place@)),
        },
{
    serde_json::from_str::<serde_json::Value>(json)
        .and_then(|v| serde_json::from_value(v.pointer(place).cloned().unwrap_or_default()))
        .map_err(|e| e.to_string())
}

/// Calls `serde_json::from_str` for a `serde_json::Value`, looks up a place with `Value::pointer`,
/// and calls `serde_json::from_value` for a `()` on what it finds there. The first fails as it does
/// for `parse_node`; the last succeeds on `null` alone, and otherwise refuses as `unit_refusal` names
/// it.
#[verifier::external_body]
pub(crate) fn decode_unit(json: &str, place: &str) -> (r: Result<(), String>)
    ensures
        reading(r) == match json_node(json@, place@) {
            Err(t) => Err(t),
            Ok(NodeModel::Null) => Ok(()),
            Ok(_) => Err(unit_refusal(json@, place@)),
        },
{
    serde_json::from_str::<serde_json::Value>(json)
        .and_then(|v| serde_json::from_value(v.pointer(place).cloned().unwrap_or_default()))
        .map_err(|e| e.to_string())
}

/// Whether a list of texts stands at a place, with these items in this order.
pub open spec fn holds_list(json: Seq<char>, place: Seq<char>, list: Seq<Seq<char>>) -> bool {
    json_node(json, place) matches Ok(NodeModel::Array(items)) && items.len() == list.len()
        && forall|i: int| 0 <= i < items.len() ==> #[trigger] items[i] == Some(list[i])
}

/// Whether a text stands at a place, or `null` for none.
pub open spec fn holds_text(json: Seq<char>, place: Seq<char>, text: Option<Seq<char>>) -> bool {
    match text {
        Some(t) => json_node(json, place) == Ok::<NodeModel, Seq<char>>(NodeModel::Text(t)),
        None => json_node(json, place) == Ok::<NodeModel, Seq<char>>(NodeModel::Null),
    }
}

/// Whether a truth value stands at a place, or `null` for none.
pub open spec fn holds_flag(json: Seq<char>, place: Seq<char>, flag: Option<bool>) -> bool {
    match flag {
        Some(b) => json_node(json, place) == Ok::<NodeModel, Seq<char>>(NodeModel::Bool(b)),
        None => json_node(json, place) == Ok::<NodeModel, Seq<char>>(NodeModel::Null),
    }
}

/// What is read at a place is what stands there, and nothing is read of any other kind.
pub proof fn lemma_readings_exactly(
    json: Seq<char>,
    place: Seq<char>,
    list: Seq<Seq<char>>,
    text: Option<Seq<char>>,
    flag: Option<bool>,
)
    ensures
        texts_at(json, place) == Ok::<Seq<Seq<char>>, Seq<char>>(list) <==> holds_list(
            json,
            place,
            list,
        ),
        text_at(json, place) == Ok::<Option<Seq<char>>, Seq<char>>(text) <==> holds_text(
            json,
            place,
            text,
        ),
        flag_at(json, place) == Ok::<Option<bool>, Seq<char>>(flag) <==> holds_flag(
            json,
            place,
            flag,
        ),
        unit_at(json, place) is Ok <==> json_node(json, place) == Ok::<NodeModel, Seq<char>>(
            NodeModel::Null,
        ),
{
    if let Ok(NodeModel::Array(items)) = json_node(json, place) {
        if holds_list(json, place, list) {
            assert(all_texts(items));
            assert(texts_in(items) == list);
        }
        if all_texts(items) && texts_in(items) == list {
            assert forall|i: int| 0 <= i < items.len() implies #[trigger] items[i] == Some(
                list[i],
            ) by {
                assert(texts_in(items)[i] == items[i]->Some_0);
            }
        }
    }
}

} // verus!
