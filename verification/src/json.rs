//! JSON documents.
//!
//! `serde_json` reads and writes the text; what the importers look at is a tree
//! of plain values.

use crate::alike;
use crate::entries;
use crate::text;
use vstd::prelude::*;
use vstd::string::*;

verus! {

/// A number as `serde_json` holds it.
#[verifier::external_type_specification]
#[verifier::external_body]
pub struct ExNumber(serde_json::Number);

/// A document as `serde_json` holds it.
#[verifier::external_type_specification]
#[verifier::external_body]
pub struct ExValue(serde_json::Value);

/// `serde_json::Number::clone`: the same number.
pub assume_specification[ <serde_json::Number as Clone>::clone ](n: &serde_json::Number) -> (r:
    serde_json::Number)
    ensures
        r == *n,
;

/// A number of a JSON document. The integers that fit sixty-four bits are plain
/// values; any other number is carried as `serde_json` holds it.
#[derive(Debug, PartialEq)]
pub enum JsonNumber {
    Unsigned(u64),
    Negative(i64),
    Float(serde_json::Number),
}

/// A JSON document. The entries of an object stand in the order in which
/// `serde_json` hands them out.
#[derive(Debug, PartialEq)]
pub enum Json {
    Null,
    Bool(bool),
    Number(JsonNumber),
    Text(String),
    Array(Vec<Json>),
    Object(Vec<(String, Json)>),
}

/// What a JSON document holds.
pub ghost enum JsonModel {
    Null,
    Bool(bool),
    Number(JsonNumber),
    Text(Seq<char>),
    Array(Seq<JsonModel>),
    Object(Seq<(Seq<char>, JsonModel)>),
}

/// What a document holds.
pub open spec fn json_model(j: Json) -> JsonModel
    decreases j,
{
    match j {
        Json::Null => JsonModel::Null,
        Json::Bool(b) => JsonModel::Bool(b),
        Json::Number(n) => JsonModel::Number(n),
        Json::Text(s) => JsonModel::Text(s@),
        Json::Array(items) => JsonModel::Array(
            Seq::new(
                items@.len(),
                |i: int|
                    if 0 <= i < items@.len() {
                        json_model(items@[i])
                    } else {
                        JsonModel::Null
                    },
            ),
        ),
        Json::Object(entries) => JsonModel::Object(
            Seq::new(
                entries@.len(),
                |i: int|
                    if 0 <= i < entries@.len() {
                        (entries@[i].0@, json_model(entries@[i].1))
                    } else {
                        (Seq::<char>::empty(), JsonModel::Null)
                    },
            ),
        ),
    }
}

impl View for Json {
    type V = JsonModel;

    open spec fn view(&self) -> JsonModel {
        json_model(*self)
    }
}

/// What the items of an array hold.
pub open spec fn item_models(items: Seq<Json>) -> Seq<JsonModel> {
    Seq::new(items.len(), |i: int| items[i]@)
}

/// What the entries of an object hold.
pub open spec fn entry_models(entries: Seq<(String, Json)>) -> Seq<(Seq<char>, JsonModel)> {
    Seq::new(entries.len(), |i: int| (entries[i].0@, entries[i].1@))
}

/// The view of an array is made of the views of its items.
pub proof fn lemma_array_model(items: Vec<Json>)
    ensures
        Json::Array(items)@ == JsonModel::Array(item_models(items@)),
{
    assert(Json::Array(items)@->Array_0 == item_models(items@));
}

/// The view of an object is made of the views of its entries.
pub proof fn lemma_object_model(entries: Vec<(String, Json)>)
    ensures
        Json::Object(entries)@ == JsonModel::Object(entry_models(entries@)),
{
    assert(Json::Object(entries)@->Object_0 == entry_models(entries@));
}

// ---------------------------------------------------------------------------
// Reading and writing text
// ---------------------------------------------------------------------------

/// What `serde_json::from_str` makes of a text: the document, or the message of
/// its error.
pub uninterp spec fn json_document(text: Seq<char>) -> Result<JsonModel, Seq<char>>;

/// What a document of `serde_json` holds.
pub uninterp spec fn value_contents(value: serde_json::Value) -> JsonModel;

/// One level of a document, with the documents of `serde_json` below it.
pub ghost enum PartsModel {
    Null,
    Bool(bool),
    Number(JsonNumber),
    Text(Seq<char>),
    Array(Seq<serde_json::Value>),
    Object(Seq<(Seq<char>, serde_json::Value)>),
}

/// The document of `serde_json` that is made of one level and the documents
/// below it.
pub uninterp spec fn made_value(parts: PartsModel) -> serde_json::Value;

/// The outermost level of the document of `serde_json` that is made of what
/// `model` describes.
pub open spec fn json_parts(model: JsonModel) -> PartsModel
    decreases model, 0int,
{
    match model {
        JsonModel::Null => PartsModel::Null,
        JsonModel::Bool(b) => PartsModel::Bool(b),
        JsonModel::Number(n) => PartsModel::Number(n),
        JsonModel::Text(s) => PartsModel::Text(s),
        JsonModel::Array(items) => PartsModel::Array(
            Seq::new(
                items.len(),
                |i: int|
                    if 0 <= i < items.len() {
                        json_value(items[i])
                    } else {
                        made_value(PartsModel::Null)
                    },
            ),
        ),
        JsonModel::Object(entries) => PartsModel::Object(
            Seq::new(
                entries.len(),
                |i: int|
                    if 0 <= i < entries.len() {
                        (entries[i].0, json_value(entries[i].1))
                    } else {
                        (Seq::<char>::empty(), made_value(PartsModel::Null))
                    },
            ),
        ),
    }
}

/// The document of `serde_json` that is made, from the inside out, of what
/// `model` describes.
pub open spec fn json_value(model: JsonModel) -> serde_json::Value
    decreases model, 1int,
{
    made_value(json_parts(model))
}

/// What `Value::to_string` writes.
pub uninterp spec fn value_text(value: serde_json::Value) -> Seq<char>;

/// What `serde_json::to_string_pretty` writes.
pub uninterp spec fn value_pretty_text(value: serde_json::Value) -> Seq<char>;

/// The compact text of a document.
pub open spec fn json_text(model: JsonModel) -> Seq<char> {
    value_text(json_value(model))
}

/// The indented text of a document.
pub open spec fn json_pretty_text(model: JsonModel) -> Seq<char> {
    value_pretty_text(json_value(model))
}

/// The outermost level of a document of `serde_json`.
enum ValueNode<'a> {
    Null,
    Bool(bool),
    Number(JsonNumber),
    Text(&'a String),
    Array(&'a Vec<serde_json::Value>),
    Object(Vec<(&'a String, &'a serde_json::Value)>),
}

/// Whether `node` is the outermost level of a document that holds `model`.
spec fn is_node_of(node: ValueNode, model: JsonModel) -> bool {
    match (node, model) {
        (ValueNode::Null, JsonModel::Null) => true,
        (ValueNode::Bool(b), JsonModel::Bool(m)) => b == m,
        (ValueNode::Number(n), JsonModel::Number(m)) => n == m,
        (ValueNode::Text(s), JsonModel::Text(m)) => s@ == m,
        (ValueNode::Array(items), JsonModel::Array(m)) => items@.len() == m.len() && forall|i: int|
            0 <= i < m.len() ==> value_contents(#[trigger] items@[i]) == m[i],
        (ValueNode::Object(entries), JsonModel::Object(m)) => entries@.len() == m.len() && forall|
            i: int,
        |
            0 <= i < m.len() ==> (#[trigger] entries@[i]).0@ == m[i].0 && value_contents(
                *entries@[i].1,
            ) == m[i].1,
        _ => false,
    }
}

/// `serde_json::from_str::<serde_json::Value>`: its result is a function of the
/// text. In a document that is read no key of an object repeats, and integers
/// from zero on are unsigned. What else that function is stays unsaid.
#[verifier::external_body]
fn parse_value(text: &str) -> (r: Result<serde_json::Value, String>)
    ensures
        match r {
            Ok(v) => json_document(text@) == Ok::<JsonModel, Seq<char>>(value_contents(v))
                && alike::is_regular(value_contents(v)),
            Err(e) => json_document(text@) == Err::<JsonModel, Seq<char>>(e@),
        },
{
    serde_json::from_str::<serde_json::Value>(text).map_err(|e| e.to_string())
}

/// The variants of `serde_json::Value`, with the entries of a map in the order
/// of its iterator. A number that `as_u64` gives is `Unsigned`, another that
/// `as_i64` gives is `Negative`, any other is a float.
#[verifier::external_body]
fn value_node(value: &serde_json::Value) -> (r: ValueNode<'_>)
    ensures
        is_node_of(r, value_contents(*value)),
{
    match value {
        serde_json::Value::Null => ValueNode::Null,
        serde_json::Value::Bool(b) => ValueNode::Bool(*b),
        serde_json::Value::Number(n) => ValueNode::Number(match (n.as_u64(), n.as_i64()) {
            (Some(u), _) => JsonNumber::Unsigned(u),
            (None, Some(i)) => JsonNumber::Negative(i),
            (None, None) => JsonNumber::Float(n.clone()),
        }),
        serde_json::Value::String(s) => ValueNode::Text(s),
        serde_json::Value::Array(items) => ValueNode::Array(items),
        serde_json::Value::Object(map) => ValueNode::Object(map.iter().collect()),
    }
}

/// One level of a document, with the documents of `serde_json` below it.
enum ValueParts {
    Null,
    Bool(bool),
    Number(JsonNumber),
    Text(String),
    Array(Vec<serde_json::Value>),
    Object(Vec<(String, serde_json::Value)>),
}

impl View for ValueParts {
    type V = PartsModel;

    closed spec fn view(&self) -> PartsModel {
        match *self {
            ValueParts::Null => PartsModel::Null,
            ValueParts::Bool(b) => PartsModel::Bool(b),
            ValueParts::Number(n) => PartsModel::Number(n),
            ValueParts::Text(s) => PartsModel::Text(s@),
            ValueParts::Array(v) => PartsModel::Array(v@),
            ValueParts::Object(v) => PartsModel::Object(
                Seq::new(v@.len(), |i: int| (v@[i].0@, v@[i].1)),
            ),
        }
    }
}

/// Whether `m` is what a document that is made of `parts` holds. Of what is handed
/// in as a float only that it stays a number is said; of an integer that is not
/// under its one form, and of entries of which two have one key, nothing.
spec fn holds_parts(m: JsonModel, parts: PartsModel) -> bool {
    match parts {
        PartsModel::Null => m == JsonModel::Null,
        PartsModel::Bool(b) => m == JsonModel::Bool(b),
        PartsModel::Number(n) => alike::is_regular(JsonModel::Number(n)) ==> alike::same(
            JsonModel::Number(n),
            m,
        ),
        PartsModel::Text(s) => m == JsonModel::Text(s),
        PartsModel::Array(v) => m == JsonModel::Array(
            Seq::new(v.len(), |i: int| value_contents(v[i])),
        ),
        PartsModel::Object(v) => {
            let e = Seq::new(v.len(), |i: int| (v[i].0, value_contents(v[i].1)));
            entries::distinct_keys(e) ==> (m matches JsonModel::Object(y)
                && entries::distinct_keys(y) && (forall|i: int|
                0 <= i < e.len() ==> lookup(y, (#[trigger] e[i]).0) == Some(e[i].1)) && (forall|
                j: int,
            |
                0 <= j < y.len() ==> lookup(e, (#[trigger] y[j]).0) is Some))
        },
    }
}

/// The constructors of `serde_json::Value`: the result is a function of the
/// parts. It holds them, an object in the order of a map.
#[verifier::external_body]
fn make_value(parts: ValueParts) -> (r: serde_json::Value)
    ensures
        r == made_value(parts@),
        holds_parts(value_contents(r), parts@),
{
    match parts {
        ValueParts::Null => serde_json::Value::Null,
        ValueParts::Bool(b) => serde_json::Value::from(b),
        ValueParts::Number(JsonNumber::Unsigned(n)) => serde_json::Value::from(n),
        ValueParts::Number(JsonNumber::Negative(n)) => serde_json::Value::from(n),
        ValueParts::Number(JsonNumber::Float(n)) => serde_json::Value::from(n),
        ValueParts::Text(s) => serde_json::Value::from(s),
        ValueParts::Array(v) => serde_json::Value::from(v),
        ValueParts::Object(v) => serde_json::Value::from_iter(v),
    }
}

/// The document of `serde_json` that holds a tree of plain values.
pub fn to_value(json: &Json) -> (r: serde_json::Value)
    ensures
        r == json_value(json@),
        alike::is_regular(json@) ==> alike::same(json@, value_contents(r)),
    decreases json,
{
    match json {
        Json::Null => make_value(ValueParts::Null),
        Json::Bool(b) => make_value(ValueParts::Bool(*b)),
        Json::Number(JsonNumber::Unsigned(n)) => make_value(
            ValueParts::Number(JsonNumber::Unsigned(*n)),
        ),
        Json::Number(JsonNumber::Negative(n)) => make_value(
            ValueParts::Number(JsonNumber::Negative(*n)),
        ),
        Json::Number(JsonNumber::Float(n)) => make_value(
            ValueParts::Number(JsonNumber::Float(n.clone())),
        ),
        Json::Text(s) => make_value(ValueParts::Text(s.clone())),
        Json::Array(items) => {
            let ghost models = item_models(items@);
            proof {
                lemma_array_model(*items);
            }
            let mut out: Vec<serde_json::Value> = Vec::new();
            let mut i: usize = 0;
            while i < items.len()
                invariant
                    *json == Json::Array(*items),
                    models == item_models(items@),
                    i <= items@.len(),
                    out@.len() == i,
                    forall|k: int|
                        0 <= k < i ==> #[trigger] out@[k] == json_value(models[k]) && (
                        alike::is_regular(models[k]) ==> alike::same(
                            models[k],
                            value_contents(out@[k]),
                        )),
                decreases items@.len() - i,
            {
                assert(decreases_to!(*json => json->Array_0));
                assert(decreases_to!(*items => items@));
                assert(decreases_to!(items@ => items@[i as int]));
                out.push(to_value(&items[i]));
                i = i + 1;
            }
            proof {
                assert(out@ == json_parts(json@)->Array_0);
                lemma_same_items(models, out@);
            }
            make_value(ValueParts::Array(out))
        },
        Json::Object(entries) => {
            let ghost models = entry_models(entries@);
            proof {
                lemma_object_model(*entries);
            }
            let mut out: Vec<(String, serde_json::Value)> = Vec::new();
            let mut i: usize = 0;
            while i < entries.len()
                invariant
                    *json == Json::Object(*entries),
                    models == entry_models(entries@),
                    i <= entries@.len(),
                    out@.len() == i,
                    forall|k: int|
                        0 <= k < i ==> (#[trigger] out@[k]).0@ == models[k].0 && out@[k].1
                            == json_value(models[k].1) && (alike::is_regular(models[k].1)
                            ==> alike::same(models[k].1, value_contents(out@[k].1))),
                decreases entries@.len() - i,
            {
                assert(decreases_to!(*json => json->Object_0));
                assert(decreases_to!(*entries => entries@));
                assert(decreases_to!(entries@ => entries@[i as int]));
                assert(decreases_to!(entries@[i as int] => entries@[i as int].1));
                let item = to_value(&entries[i].1);
                out.push((entries[i].0.clone(), item));
                i = i + 1;
            }
            let ghost named = Seq::new(out@.len(), |i: int| (out@[i].0@, out@[i].1));
            proof {
                assert(named == json_parts(json@)->Object_0);
            }
            let r = make_value(ValueParts::Object(out));
            proof {
                if alike::is_regular(json@) {
                    lemma_same_entries(models, named, value_contents(r));
                }
            }
            r
        },
    }
}

proof fn lemma_same_items(models: Seq<JsonModel>, values: Seq<serde_json::Value>)
    requires
        models.len() == values.len(),
        forall|k: int|
            0 <= k < models.len() ==> alike::is_regular(models[k]) ==> alike::same(
                models[k],
                value_contents(#[trigger] values[k]),
            ),
    ensures
        alike::is_regular(JsonModel::Array(models)) ==> alike::same(
            JsonModel::Array(models),
            JsonModel::Array(Seq::new(values.len(), |i: int| value_contents(values[i]))),
        ),
{
    if alike::is_regular(JsonModel::Array(models)) {
        let held = Seq::new(values.len(), |i: int| value_contents(values[i]));
        assert forall|i: int| 0 <= i < models.len() implies alike::same(
            #[trigger] models[i],
            held[i],
        ) by {
            let model = JsonModel::Array(models);
            assert(model->Array_0[i] == models[i]);
            assert(alike::is_regular(models[i]));
            assert(held[i] == value_contents(values[i]));
        }
    }
}

proof fn lemma_same_entries(
    models: Seq<(Seq<char>, JsonModel)>,
    named: Seq<(Seq<char>, serde_json::Value)>,
    held: JsonModel,
)
    requires
        models.len() == named.len(),
        alike::is_regular(JsonModel::Object(models)),
        holds_parts(held, PartsModel::Object(named)),
        forall|k: int|
            0 <= k < models.len() ==> (#[trigger] named[k]).0 == models[k].0 && (alike::is_regular(
                models[k].1,
            ) ==> alike::same(models[k].1, value_contents(named[k].1))),
    ensures
        alike::same(JsonModel::Object(models), held),
{
    let e = Seq::new(named.len(), |i: int| (named[i].0, value_contents(named[i].1)));
    assert forall|i: int, j: int| 0 <= i < j < e.len() implies (#[trigger] e[i]).0 != (
    #[trigger] e[j]).0 by {
        assert(named[i].0 == models[i].0 && named[j].0 == models[j].0);
        assert(models[i].0 != models[j].0);
    }
    assert(entries::distinct_keys(e));
    let y = held->Object_0;
    assert forall|i: int| 0 <= i < models.len() implies match lookup(y, (#[trigger] models[i]).0) {
        Some(v) => alike::same(models[i].1, v),
        None => false,
    } by {
        assert(named[i].0 == models[i].0);
        assert(lookup(y, e[i].0) == Some(e[i].1));
        assert(alike::is_regular(models[i].1));
    }
    assert forall|j: int| 0 <= j < y.len() implies lookup(models, (#[trigger] y[j]).0) is Some by {
        assert(lookup(e, y[j].0) is Some);
        entries::lemma_lookup_found(e, y[j].0);
        let v = lookup(e, y[j].0)->0;
        let i = choose|i: int| 0 <= i < e.len() && (#[trigger] e[i]).0 == y[j].0 && e[i].1 == v;
        assert(named[i].0 == models[i].0);
        entries::lemma_lookup_found(models, y[j].0);
        assert(models[i].0 == y[j].0);
    }
}

/// `serde_json::Value::to_string`: a function of the document.
#[verifier::external_body]
fn text_of_value(value: &serde_json::Value) -> (r: String)
    ensures
        r@ == value_text(*value),
{
    value.to_string()
}

/// How deep arrays and objects may be nested in a text that `serde_json` reads.
pub const MAX_DEPTH: u32 = 127;

/// `serde_json::to_string_pretty`: a function of the document. It does not fail on
/// a document, all of whose keys are texts. Where the text can be read, it reads
/// as the document up to the value of floats, whose last digit need not survive.
/// It can be read, and reads as the document, where that holds no floats and is
/// not nested deeper than a reader goes. Whether a text with floats can be read
/// is left unsaid: one near the largest is refused.
#[verifier::external_body]
fn pretty_text_of_value(value: &serde_json::Value) -> (r: Result<String, String>)
    ensures
        r is Ok,
        r matches Ok(s) ==> s@ == value_pretty_text(*value),
        r matches Ok(s) ==> (json_document(s@) matches Ok(doc) ==> alike::same(
            value_contents(*value),
            doc,
        )),
        r matches Ok(s) ==> (alike::is_whole(value_contents(*value)) && alike::is_within(
            value_contents(*value),
            MAX_DEPTH as nat,
        ) ==> json_document(s@) == Ok::<JsonModel, Seq<char>>(value_contents(*value))),
{
    serde_json::to_string_pretty(value).map_err(|e| e.to_string())
}

/// The tree of plain values that a document of `serde_json` holds.
pub fn from_value(value: &serde_json::Value) -> (r: Json)
    ensures
        r@ == value_contents(*value),
    decreases value_contents(*value),
{
    let ghost model = value_contents(*value);
    match value_node(value) {
        ValueNode::Null => Json::Null,
        ValueNode::Bool(b) => Json::Bool(b),
        ValueNode::Number(n) => Json::Number(n),
        ValueNode::Text(s) => Json::Text(s.clone()),
        ValueNode::Array(items) => {
            let ghost parts = model->Array_0;
            let mut out: Vec<Json> = Vec::new();
            let mut i: usize = 0;
            while i < items.len()
                invariant
                    model == value_contents(*value),
                    model == JsonModel::Array(parts),
                    items@.len() == parts.len(),
                    forall|k: int|
                        0 <= k < parts.len() ==> value_contents(#[trigger] items@[k]) == parts[k],
                    i <= items@.len(),
                    out@.len() == i,
                    forall|k: int| 0 <= k < i ==> (#[trigger] out@[k])@ == parts[k],
                decreases items@.len() - i,
            {
                assert(decreases_to!(model => model->Array_0));
                assert(decreases_to!(parts => parts[i as int]));
                out.push(from_value(&items[i]));
                i = i + 1;
            }
            proof {
                lemma_array_model(out);
                assert(item_models(out@) == parts);
            }
            Json::Array(out)
        },
        ValueNode::Object(entries) => {
            let ghost parts = model->Object_0;
            let mut out: Vec<(String, Json)> = Vec::new();
            let mut i: usize = 0;
            while i < entries.len()
                invariant
                    model == value_contents(*value),
                    model == JsonModel::Object(parts),
                    entries@.len() == parts.len(),
                    forall|k: int|
                        0 <= k < parts.len() ==> (#[trigger] entries@[k]).0@ == parts[k].0
                            && value_contents(*entries@[k].1) == parts[k].1,
                    i <= entries@.len(),
                    out@.len() == i,
                    forall|k: int|
                        0 <= k < i ==> (#[trigger] out@[k]).0@ == parts[k].0 && out@[k].1@
                            == parts[k].1,
                decreases entries@.len() - i,
            {
                assert(decreases_to!(model => model->Object_0));
                assert(decreases_to!(parts => parts[i as int]));
                assert(decreases_to!(parts[i as int] => parts[i as int].1));
                let (key, item) = entries[i];
                out.push((key.clone(), from_value(item)));
                i = i + 1;
            }
            proof {
                lemma_object_model(out);
                assert(entry_models(out@) == parts);
            }
            Json::Object(out)
        },
    }
}

/// Reads a JSON text.
pub fn parse_json(text: &str) -> (r: Result<Json, String>)
    ensures
        match r {
            Ok(j) => json_document(text@) == Ok::<JsonModel, Seq<char>>(j@)
                && alike::is_regular(j@),
            Err(e) => json_document(text@) == Err::<JsonModel, Seq<char>>(e@),
        },
{
    match parse_value(text) {
        Ok(value) => Ok(from_value(&value)),
        Err(e) => Err(e),
    }
}

/// Whether a text reads back as a document that holds the same as `model`, where
/// it can be read. It can where the document holds no floats and is not nested
/// deeper than a reader goes.
pub open spec fn reads_back(text: Seq<char>, model: JsonModel) -> bool {
    alike::is_regular(model) ==> {
        &&& json_document(text) matches Ok(doc) ==> alike::same(model, doc)
        &&& alike::is_whole(model) && alike::is_within(model, MAX_DEPTH as nat)
            ==> json_document(text) is Ok
    }
}

/// Writes a document as indented text.
pub fn pretty_json(json: &Json) -> (r: String)
    ensures
        r@ == json_pretty_text(json@),
        reads_back(r@, json@),
{
    let value = to_value(json);
    let ghost held = value_contents(value);
    let text = pretty_text_of_value(&value).unwrap();
    proof {
        if alike::is_regular(json@) {
            if let Ok(doc) = json_document(text@) {
                alike::lemma_same_passes(json@, held, doc);
            }
            if alike::is_whole(json@) && alike::is_within(json@, MAX_DEPTH as nat) {
                alike::lemma_same_whole(json@, held, MAX_DEPTH as nat);
            }
        }
    }
    text
}

// ---------------------------------------------------------------------------
// Looking into a document
// ---------------------------------------------------------------------------

/// The value of the first entry with the key.
pub open spec fn lookup(entries: Seq<(Seq<char>, JsonModel)>, key: Seq<char>) -> Option<JsonModel>
    decreases entries.len(),
{
    if entries.len() == 0 {
        None
    } else if entries[0].0 == key {
        Some(entries[0].1)
    } else {
        lookup(entries.drop_first(), key)
    }
}

/// Whether a document is an object that has one value under a key, and this is
/// it.
pub open spec fn has_member(doc: JsonModel, key: Seq<char>, value: JsonModel) -> bool {
    &&& doc is Object
    &&& exists|i: int|
        0 <= i < doc->Object_0.len() && (#[trigger] doc->Object_0[i]).0 == key
            && doc->Object_0[i].1 == value
    &&& forall|i: int|
        0 <= i < doc->Object_0.len() && (#[trigger] doc->Object_0[i]).0 == key
            ==> doc->Object_0[i].1 == value
}

/// Whether a document has no value under a key.
pub open spec fn lacks_member(doc: JsonModel, key: Seq<char>) -> bool {
    doc is Object ==> forall|i: int|
        0 <= i < doc->Object_0.len() ==> (#[trigger] doc->Object_0[i]).0 != key
}

/// A member of a document is found under its key.
pub proof fn law_member_is_found(doc: JsonModel, key: Seq<char>)
    ensures
        forall|v: JsonModel| #[trigger] has_member(doc, key, v) ==> doc.field(key) == Some(v),
        lacks_member(doc, key) ==> doc.field(key) is None,
{
    if doc is Object {
        entries::lemma_lookup_found(doc->Object_0, key);
    }
}

/// Whether a document has a text under a key.
pub open spec fn has_text_member(doc: JsonModel, key: Seq<char>, s: Seq<char>) -> bool {
    has_member(doc, key, JsonModel::Text(s))
}

/// Whether a document has a count under a key.
pub open spec fn has_count_member(doc: JsonModel, key: Seq<char>, n: u64) -> bool {
    has_member(doc, key, JsonModel::Number(JsonNumber::Unsigned(n)))
}

impl JsonModel {
    /// The value of a key, where the document is an object that has it.
    pub open spec fn field(self, key: Seq<char>) -> Option<JsonModel> {
        match self {
            JsonModel::Object(entries) => lookup(entries, key),
            _ => None,
        }
    }

    /// The text, where the document is one.
    pub open spec fn text(self) -> Option<Seq<char>> {
        match self {
            JsonModel::Text(s) => Some(s),
            _ => None,
        }
    }

    /// The items, where the document is an array.
    pub open spec fn items(self) -> Option<Seq<JsonModel>> {
        match self {
            JsonModel::Array(items) => Some(items),
            _ => None,
        }
    }

    /// The entries, where the document is an object.
    pub open spec fn entries(self) -> Option<Seq<(Seq<char>, JsonModel)>> {
        match self {
            JsonModel::Object(entries) => Some(entries),
            _ => None,
        }
    }

    /// The number, where the document is an integer that fits `i64`.
    pub open spec fn as_i64(self) -> Option<i64> {
        match self {
            JsonModel::Number(JsonNumber::Unsigned(n)) => if n <= i64::MAX {
                Some(n as i64)
            } else {
                None
            },
            JsonModel::Number(JsonNumber::Negative(n)) => Some(n),
            _ => None,
        }
    }

    /// The number, where the document is an integer that fits `u64`.
    pub open spec fn as_u64(self) -> Option<u64> {
        match self {
            JsonModel::Number(JsonNumber::Unsigned(n)) => Some(n),
            _ => None,
        }
    }

    /// The number, where the document is one.
    pub open spec fn number(self) -> Option<JsonNumber> {
        match self {
            JsonModel::Number(n) => Some(n),
            _ => None,
        }
    }

    /// The text of a key.
    pub open spec fn text_field(self, key: Seq<char>) -> Option<Seq<char>> {
        match self.field(key) {
            Some(v) => v.text(),
            None => None,
        }
    }
}

/// The text of a key of an optional document.
pub open spec fn opt_field(m: Option<JsonModel>, key: Seq<char>) -> Option<JsonModel> {
    match m {
        Some(v) => v.field(key),
        None => None,
    }
}

/// The text of an optional document.
pub open spec fn opt_text(m: Option<JsonModel>) -> Option<Seq<char>> {
    match m {
        Some(v) => v.text(),
        None => None,
    }
}

/// The `i64` of an optional document.
pub open spec fn opt_i64(m: Option<JsonModel>) -> Option<i64> {
    match m {
        Some(v) => v.as_i64(),
        None => None,
    }
}

/// The `u64` of an optional document.
pub open spec fn opt_u64(m: Option<JsonModel>) -> Option<u64> {
    match m {
        Some(v) => v.as_u64(),
        None => None,
    }
}

/// The number of an optional document.
pub open spec fn opt_number(m: Option<JsonModel>) -> Option<JsonNumber> {
    match m {
        Some(v) => v.number(),
        None => None,
    }
}

/// The first of two optional values that is there.
pub open spec fn either<T>(a: Option<T>, b: Option<T>) -> Option<T> {
    if a is Some {
        a
    } else {
        b
    }
}

/// What an optional reference to a document holds.
pub open spec fn opt_model(j: Option<&Json>) -> Option<JsonModel> {
    match j {
        Some(v) => Some(v@),
        None => None,
    }
}

/// What an optional string holds.
pub open spec fn opt_str(s: Option<&str>) -> Option<Seq<char>> {
    match s {
        Some(v) => Some(v@),
        None => None,
    }
}

/// The value of the first entry with the key.
pub fn lookup_entry<'a>(entries: &'a Vec<(String, Json)>, key: &str) -> (r: Option<&'a Json>)
    ensures
        opt_model(r) == lookup(entry_models(entries@), key@),
{
    let ghost models = entry_models(entries@);
    let mut i: usize = 0;
    assert(models.skip(0) == models);
    while i < entries.len()
        invariant
            models == entry_models(entries@),
            i <= entries@.len(),
            lookup(models, key@) == lookup(models.skip(i as int), key@),
        decreases entries@.len() - i,
    {
        assert(models.skip(i as int).drop_first() == models.skip(i + 1));
        assert(models.skip(i as int)[0] == models[i as int]);
        if text::same_text(entries[i].0.as_str(), key) {
            return Some(&entries[i].1);
        }
        i = i + 1;
    }
    None
}

impl Json {
    /// The value of a key, where the document is an object that has it.
    pub fn get(&self, key: &str) -> (r: Option<&Json>)
        ensures
            opt_model(r) == self@.field(key@),
    {
        match self {
            Json::Object(entries) => {
                proof {
                    lemma_object_model(*entries);
                }
                lookup_entry(entries, key)
            },
            _ => None,
        }
    }

    /// The text, where the document is one.
    pub fn as_str(&self) -> (r: Option<&str>)
        ensures
            opt_str(r) == self@.text(),
    {
        match self {
            Json::Text(s) => Some(s.as_str()),
            _ => None,
        }
    }

    /// The number, where the document is an integer that fits `i64`.
    pub fn as_i64(&self) -> (r: Option<i64>)
        ensures
            r == self@.as_i64(),
    {
        match self {
            Json::Number(JsonNumber::Unsigned(n)) => if *n <= i64::MAX as u64 {
                Some(*n as i64)
            } else {
                None
            },
            Json::Number(JsonNumber::Negative(n)) => Some(*n),
            _ => None,
        }
    }

    /// The number, where the document is an integer that fits `u64`.
    pub fn as_u64(&self) -> (r: Option<u64>)
        ensures
            r == self@.as_u64(),
    {
        match self {
            Json::Number(JsonNumber::Unsigned(n)) => Some(*n),
            _ => None,
        }
    }

    /// The items, where the document is an array.
    pub fn as_array(&self) -> (r: Option<&Vec<Json>>)
        ensures
            match r {
                Some(items) => self@ == JsonModel::Array(item_models(items@)) && *self
                    == Json::Array(*items),
                None => self@.items() is None,
            },
    {
        match self {
            Json::Array(items) => {
                proof {
                    lemma_array_model(*items);
                }
                Some(items)
            },
            _ => None,
        }
    }

    /// The entries, where the document is an object.
    pub fn as_object(&self) -> (r: Option<&Vec<(String, Json)>>)
        ensures
            match r {
                Some(entries) => self@ == JsonModel::Object(entry_models(entries@)) && *self
                    == Json::Object(*entries),
                None => self@.entries() is None,
            },
    {
        match self {
            Json::Object(entries) => {
                proof {
                    lemma_object_model(*entries);
                }
                Some(entries)
            },
            _ => None,
        }
    }

    /// The text of a key, where the document is an object that has it as a text.
    pub fn get_str(&self, key: &str) -> (r: Option<&str>)
        ensures
            opt_str(r) == self@.text_field(key@),
    {
        match self.get(key) {
            Some(v) => v.as_str(),
            None => None,
        }
    }

    /// The compact text of the document.
    pub fn compact_text(&self) -> (r: String)
        ensures
            r@ == json_text(self@),
    {
        text_of_value(&to_value(self))
    }
}

/// The value of a key of an optional document.
pub fn get_of<'a>(j: Option<&'a Json>, key: &str) -> (r: Option<&'a Json>)
    ensures
        opt_model(r) == opt_field(opt_model(j), key@),
{
    match j {
        Some(v) => v.get(key),
        None => None,
    }
}

/// The text of an optional document.
pub fn str_of<'a>(j: Option<&'a Json>) -> (r: Option<&'a str>)
    ensures
        opt_str(r) == opt_text(opt_model(j)),
{
    match j {
        Some(v) => v.as_str(),
        None => None,
    }
}

/// The `i64` of an optional document.
pub fn i64_of(j: Option<&Json>) -> (r: Option<i64>)
    ensures
        r == opt_i64(opt_model(j)),
{
    match j {
        Some(v) => v.as_i64(),
        None => None,
    }
}

/// The `u64` of an optional document.
pub fn u64_of(j: Option<&Json>) -> (r: Option<u64>)
    ensures
        r == opt_u64(opt_model(j)),
{
    match j {
        Some(v) => v.as_u64(),
        None => None,
    }
}

/// The number of an optional document.
pub fn number_of(j: Option<&Json>) -> (r: Option<JsonNumber>)
    ensures
        r == opt_number(opt_model(j)),
{
    match j {
        Some(Json::Number(JsonNumber::Unsigned(n))) => Some(JsonNumber::Unsigned(*n)),
        Some(Json::Number(JsonNumber::Negative(n))) => Some(JsonNumber::Negative(*n)),
        Some(Json::Number(JsonNumber::Float(n))) => Some(JsonNumber::Float(n.clone())),
        _ => None,
    }
}

/// The first of two optional documents that is there.
pub fn json_or<'a>(a: Option<&'a Json>, b: Option<&'a Json>) -> (r: Option<&'a Json>)
    ensures
        opt_model(r) == either(opt_model(a), opt_model(b)),
{
    match a {
        Some(v) => Some(v),
        None => b,
    }
}

/// The first of two optional texts that is there.
pub fn str_or<'a>(a: Option<&'a str>, b: Option<&'a str>) -> (r: Option<&'a str>)
    ensures
        opt_str(r) == either(opt_str(a), opt_str(b)),
{
    match a {
        Some(v) => Some(v),
        None => b,
    }
}

/// A copy of a document.
pub fn copy_json(json: &Json) -> (r: Json)
    ensures
        r@ == json@,
    decreases json,
{
    match json {
        Json::Null => Json::Null,
        Json::Bool(b) => Json::Bool(*b),
        Json::Number(JsonNumber::Unsigned(n)) => Json::Number(JsonNumber::Unsigned(*n)),
        Json::Number(JsonNumber::Negative(n)) => Json::Number(JsonNumber::Negative(*n)),
        Json::Number(JsonNumber::Float(n)) => Json::Number(JsonNumber::Float(n.clone())),
        Json::Text(s) => Json::Text(s.clone()),
        Json::Array(items) => {
            let mut out: Vec<Json> = Vec::new();
            let mut i: usize = 0;
            while i < items.len()
                invariant
                    *json == Json::Array(*items),
                    i <= items@.len(),
                    out@.len() == i,
                    forall|k: int| 0 <= k < i ==> (#[trigger] out@[k])@ == items@[k]@,
                decreases items@.len() - i,
            {
                assert(decreases_to!(*json => json->Array_0));
                assert(decreases_to!(*items => items@));
                assert(decreases_to!(items@ => items@[i as int]));
                out.push(copy_json(&items[i]));
                i = i + 1;
            }
            proof {
                lemma_array_model(out);
                lemma_array_model(*items);
                assert(item_models(out@) == item_models(items@));
            }
            Json::Array(out)
        },
        Json::Object(entries) => {
            let mut out: Vec<(String, Json)> = Vec::new();
            let mut i: usize = 0;
            while i < entries.len()
                invariant
                    *json == Json::Object(*entries),
                    i <= entries@.len(),
                    out@.len() == i,
                    forall|k: int|
                        0 <= k < i ==> (#[trigger] out@[k]).0@ == entries@[k].0@ && out@[k].1@
                            == entries@[k].1@,
                decreases entries@.len() - i,
            {
                assert(decreases_to!(*json => json->Object_0));
                assert(decreases_to!(*entries => entries@));
                assert(decreases_to!(entries@ => entries@[i as int]));
                assert(decreases_to!(entries@[i as int] => entries@[i as int].1));
                out.push((entries[i].0.clone(), copy_json(&entries[i].1)));
                i = i + 1;
            }
            proof {
                lemma_object_model(out);
                lemma_object_model(*entries);
                assert(entry_models(out@) == entry_models(entries@));
            }
            Json::Object(out)
        },
    }
}

} // verus!
