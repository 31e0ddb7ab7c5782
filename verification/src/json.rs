use vstd::prelude::*;

verus! {

/// A JSON document held as plain values: an object keeps its members in the
/// order given.
#[derive(Debug)]
pub enum JsonValue {
    Null,
    Bool(bool),
    Int(u64),
    Str(String),
    Array(Vec<JsonValue>),
    Object(Vec<(String, JsonValue)>),
}

/// A JSON document as mathematical values.
#[verifier::ext_equal]
pub enum JsonView {
    Null,
    Bool(bool),
    Int(u64),
    Str(Seq<char>),
    Array(Seq<JsonView>),
    Object(Seq<(Seq<char>, JsonView)>),
}

/// The view of a JSON document.
pub open spec fn json_view(v: JsonValue) -> JsonView
    decreases v,
{
    match v {
        JsonValue::Null => JsonView::Null,
        JsonValue::Bool(b) => JsonView::Bool(b),
        JsonValue::Int(n) => JsonView::Int(n),
        JsonValue::Str(s) => JsonView::Str(s@),
        JsonValue::Array(items) => JsonView::Array(items_view(items@)),
        JsonValue::Object(fields) => JsonView::Object(fields_view(fields@)),
    }
}

/// The views of the items of an array, in order.
pub open spec fn items_view(items: Seq<JsonValue>) -> Seq<JsonView>
    decreases items,
{
    if items.len() == 0 {
        Seq::empty()
    } else {
        items_view(items.drop_last()).push(json_view(items.last()))
    }
}

/// The views of the members of an object, in order.
pub open spec fn fields_view(fields: Seq<(String, JsonValue)>) -> Seq<(Seq<char>, JsonView)>
    decreases fields,
{
    if fields.len() == 0 {
        Seq::empty()
    } else {
        fields_view(fields.drop_last()).push((fields.last().0@, json_view(fields.last().1)))
    }
}

/// The value of the first member of an object with the given key.
pub open spec fn json_member(v: JsonView, key: Seq<char>) -> Option<JsonView> {
    match v {
        JsonView::Object(fields) => first_member(fields, key),
        _ => None,
    }
}

/// The value of the first member with the given key.
pub open spec fn first_member(fields: Seq<(Seq<char>, JsonView)>, key: Seq<char>) -> Option<JsonView>
    decreases fields.len(),
{
    if fields.len() == 0 {
        None
    } else if fields[0].0 == key {
        Some(fields[0].1)
    } else {
        first_member(fields.drop_first(), key)
    }
}

/// The item at an index of an array.
pub open spec fn json_item(v: JsonView, i: int) -> Option<JsonView> {
    match v {
        JsonView::Array(items) => if 0 <= i < items.len() { Some(items[i]) } else { None },
        _ => None,
    }
}

/// The number of items of an array.
pub open spec fn json_len(v: JsonView) -> Option<nat> {
    match v {
        JsonView::Array(items) => Some(items.len()),
        _ => None,
    }
}

/// A string value.
pub fn json_str(s: &str) -> (r: JsonValue)
    ensures
        json_view(r) == JsonView::Str(s@),
{
    JsonValue::Str(s.to_owned())
}

/// An object with the given members.
pub fn json_object(fields: Vec<(String, JsonValue)>) -> (r: JsonValue)
    ensures
        json_view(r) == JsonView::Object(fields_view(fields@)),
{
    JsonValue::Object(fields)
}

/// An array with the given items.
pub fn json_array(items: Vec<JsonValue>) -> (r: JsonValue)
    ensures
        json_view(r) == JsonView::Array(items_view(items@)),
{
    JsonValue::Array(items)
}

/// Adds a member at the end of an object's members.
pub fn push_field(fields: &mut Vec<(String, JsonValue)>, key: &str, value: JsonValue)
    ensures
        fields_view(final(fields)@) == fields_view(old(fields)@).push((key@, json_view(value))),
{
    let ghost before = fields@;
    fields.push((key.to_owned(), value));
    proof {
        assert(fields@.drop_last() =~= before);
    }
}

/// Adds an item at the end of an array's items.
pub fn push_item(items: &mut Vec<JsonValue>, value: JsonValue)
    ensures
        items_view(final(items)@) == items_view(old(items)@).push(json_view(value)),
{
    let ghost before = items@;
    items.push(value);
    proof {
        assert(items@.drop_last() =~= before);
    }
}

#[verifier::external_type_specification]
#[verifier::external_body]
pub struct ExSerdeJsonValue(serde_json::Value);

/// The text that `serde_json::to_string_pretty` writes for a JSON document.
pub uninterp spec fn pretty_json(v: JsonView) -> Seq<char>;

/// Copies a document into a `serde_json::Value`, one for one: each member
/// and item in order. Nothing is claimed of the copy; `to_pretty_json` names
/// what it prints.
#[verifier::external_body]
fn serde_value(v: &JsonValue) -> serde_json::Value {
    match v {
        JsonValue::Null => serde_json::Value::Null,
        JsonValue::Bool(b) => serde_json::Value::Bool(*b),
        JsonValue::Int(n) => serde_json::Value::from(*n),
        JsonValue::Str(s) => serde_json::Value::String(s.clone()),
        JsonValue::Array(items) => serde_json::Value::Array(items.iter().map(serde_value).collect()),
        JsonValue::Object(fields) => serde_json::Value::Object(fields.iter().map(|(k, x)| (k.clone(), serde_value(x))).collect()),
    }
}

/// Writes a document with `serde_json::to_string_pretty`. The text is named
/// `pretty_json`. Serializing a `serde_json::Value` cannot fail: serde_json
/// fails only on a failing `Serialize` impl or a map key that is not a
/// string, and a `Value` has neither.
#[verifier::external_body]
pub(crate) fn to_pretty_json(v: &JsonValue) -> (r: String)
    ensures
        r@ == pretty_json(json_view(*v)),
{
    serde_json::to_string_pretty(&serde_value(v)).expect("a JSON value always serializes")
}

} // verus!
