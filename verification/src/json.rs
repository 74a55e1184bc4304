//! JSON values.
//!
//! Reading and writing JSON text is serde_json's work. A [`JsonValue`] holds
//! what its values say.

use crate::text::{str_eq, text_lt};
use vstd::prelude::*;

verus! {

/// A JSON number. A float is held as the bits of its double-precision
/// representation.
#[derive(Clone, Copy, PartialEq, Eq, Structural, Debug)]
pub enum JsonNumber {
    Unsigned(u64),
    Negative(i64),
    Float(u64),
}

/// A JSON value. The entries of an object stand in the order of their keys.
#[derive(Debug)]
pub enum JsonValue {
    Null,
    Bool(bool),
    Number(JsonNumber),
    Text(String),
    Array(Vec<JsonValue>),
    Object(Vec<(String, JsonValue)>),
}

/// What a [`JsonValue`] says.
#[verifier::ext_equal]
pub enum JsonModel {
    Null,
    Bool(bool),
    Number(JsonNumber),
    Text(Seq<char>),
    Array(Seq<JsonModel>),
    Object(Seq<(Seq<char>, JsonModel)>),
}

impl JsonValue {
    /// What the value says.
    pub open spec fn model(self) -> JsonModel
        decreases self,
    {
        match self {
            JsonValue::Null => JsonModel::Null,
            JsonValue::Bool(b) => JsonModel::Bool(b),
            JsonValue::Number(n) => JsonModel::Number(n),
            JsonValue::Text(s) => JsonModel::Text(s@),
            JsonValue::Array(items) => JsonModel::Array(
                Seq::new(
                    items@.len(),
                    |i: int|
                        if 0 <= i < items@.len() {
                            items@[i].model()
                        } else {
                            JsonModel::Null
                        },
                ),
            ),
            JsonValue::Object(entries) => JsonModel::Object(
                Seq::new(
                    entries@.len(),
                    |i: int|
                        if 0 <= i < entries@.len() {
                            (entries@[i].0@, entries@[i].1.model())
                        } else {
                            (Seq::empty(), JsonModel::Null)
                        },
                ),
            ),
        }
    }
}

/// What the values of a list say.
pub open spec fn json_models(v: Seq<JsonValue>) -> Seq<JsonModel> {
    Seq::new(v.len(), |i: int| v[i].model())
}

/// What the keys and values of an object say.
pub open spec fn member_models(v: Seq<(String, JsonValue)>) -> Seq<(Seq<char>, JsonModel)> {
    Seq::new(v.len(), |i: int| (v[i].0@, v[i].1.model()))
}

pub proof fn lemma_json_array(items: Vec<JsonValue>)
    ensures
        JsonValue::Array(items).model() == JsonModel::Array(json_models(items@)),
{
    assert(JsonValue::Array(items).model()->Array_0 =~= json_models(items@));
}

pub proof fn lemma_json_object(entries: Vec<(String, JsonValue)>)
    ensures
        JsonValue::Object(entries).model() == JsonModel::Object(member_models(entries@)),
{
    assert(JsonValue::Object(entries).model()->Object_0 =~= member_models(entries@));
}

// ---------------------------------------------------------------------------
// serde_json
// ---------------------------------------------------------------------------

/// serde_json's value type.
#[verifier::external_type_specification]
#[verifier::external_body]
pub struct ExSerdeValue(serde_json::Value);

/// serde_json's number type.
#[verifier::external_type_specification]
#[verifier::external_body]
pub struct ExSerdeNumber(serde_json::Number);

/// serde_json's error type.
#[verifier::external_type_specification]
#[verifier::external_body]
pub struct ExSerdeError(serde_json::Error);

/// What a serde_json value holds.
pub uninterp spec fn json_contents(v: serde_json::Value) -> JsonModel;

/// What a serde_json number holds.
pub uninterp spec fn number_contents(n: serde_json::Number) -> JsonNumber;

/// The value that serde_json reads from a text, or none where the text is not
/// one JSON value.
pub uninterp spec fn parsed_json(text: Seq<char>) -> Option<JsonModel>;

/// The text without white space that serde_json writes for a value.
pub uninterp spec fn compact_json(value: JsonModel) -> Seq<char>;

/// The indented text that serde_json writes for a value.
pub uninterp spec fn pretty_json(value: JsonModel) -> Seq<char>;

/// One level of a serde_json value.
pub enum JsonNode {
    Null,
    Bool(bool),
    Number(serde_json::Number),
    Text(String),
    Array(Vec<serde_json::Value>),
    Object(Vec<(String, serde_json::Value)>),
}

/// What the value made of one level holds.
pub open spec fn node_model(node: JsonNode) -> JsonModel {
    match node {
        JsonNode::Null => JsonModel::Null,
        JsonNode::Bool(b) => JsonModel::Bool(b),
        JsonNode::Number(n) => JsonModel::Number(number_contents(n)),
        JsonNode::Text(s) => JsonModel::Text(s@),
        JsonNode::Array(items) => JsonModel::Array(
            Seq::new(items@.len(), |i: int| json_contents(items@[i])),
        ),
        JsonNode::Object(entries) => JsonModel::Object(
            Seq::new(entries@.len(), |i: int| (entries@[i].0@, json_contents(entries@[i].1))),
        ),
    }
}

/// Whether the keys come in their order, none of them twice.
pub open spec fn keys_ordered(entries: Seq<(Seq<char>, JsonModel)>) -> bool {
    forall|i: int, j: int|
        0 <= i < j < entries.len() ==> text_lt(#[trigger] entries[i].0, #[trigger] entries[j].0)
}

/// serde_json's `from_str` into its value type. The result is a function of the
/// text.
#[verifier::external_body]
fn parse_value(text: &str) -> (r: Result<serde_json::Value, serde_json::Error>)
    ensures
        match r {
            Ok(v) => parsed_json(text@) == Some(json_contents(v)),
            Err(_) => parsed_json(text@) is None,
        },
{
    serde_json::from_str(text)
}

/// Takes a serde_json value apart by one level. The members of an object come in
/// the order of their keys, none of them twice.
#[verifier::external_body]
fn split_value(v: serde_json::Value) -> (node: JsonNode)
    ensures
        node_model(node) == json_contents(v),
        node_model(node) matches JsonModel::Object(entries) ==> keys_ordered(entries),
{
    match v {
        serde_json::Value::Null => JsonNode::Null,
        serde_json::Value::Bool(b) => JsonNode::Bool(b),
        serde_json::Value::Number(n) => JsonNode::Number(n),
        serde_json::Value::String(s) => JsonNode::Text(s),
        serde_json::Value::Array(items) => JsonNode::Array(items),
        serde_json::Value::Object(map) => JsonNode::Object(map.into_iter().collect()),
    }
}

/// Puts a serde_json value together from one level. The members of an object
/// are given in the order of their keys, none of them twice.
#[verifier::external_body]
pub(crate) fn join_value(node: JsonNode) -> (v: serde_json::Value)
    requires
        node_model(node) matches JsonModel::Object(entries) ==> keys_ordered(entries),
    ensures
        json_contents(v) == node_model(node),
{
    match node {
        JsonNode::Null => serde_json::Value::Null,
        JsonNode::Bool(b) => serde_json::Value::Bool(b),
        JsonNode::Number(n) => serde_json::Value::Number(n),
        JsonNode::Text(s) => serde_json::Value::String(s),
        JsonNode::Array(items) => serde_json::Value::Array(items),
        JsonNode::Object(members) => serde_json::Value::Object(members.into_iter().collect()),
    }
}

/// serde_json's `Number::as_u64`: the number, where it is an integer from zero
/// up to the largest `u64`.
#[verifier::external_body]
fn number_as_u64(n: &serde_json::Number) -> (r: Option<u64>)
    ensures
        r == match number_contents(*n) {
            JsonNumber::Unsigned(u) => Some(u),
            _ => None,
        },
{
    n.as_u64()
}

/// serde_json's `Number::as_i64`: the number, where it is an integer in the
/// range of `i64`.
#[verifier::external_body]
fn number_as_i64(n: &serde_json::Number) -> (r: Option<i64>)
    ensures
        r == match number_contents(*n) {
            JsonNumber::Unsigned(u) if u <= i64::MAX => Some(u as i64),
            JsonNumber::Negative(i) => Some(i),
            _ => None,
        },
{
    n.as_i64()
}

/// The bits of serde_json's `Number::as_f64`, which always gives a float; of a
/// number that is held as a float, that float.
#[verifier::external_body]
fn number_float_bits(n: &serde_json::Number) -> (r: Option<u64>)
    ensures
        r is Some,
        number_contents(*n) matches JsonNumber::Float(bits) ==> r == Some(bits),
{
    n.as_f64().map(|f| f.to_bits())
}

/// Whether a value is a text, or an object of such values up to a depth.
pub open spec fn is_text_tree(v: JsonModel, depth: nat) -> bool
    decreases depth,
{
    match v {
        JsonModel::Text(_) => true,
        JsonModel::Object(entries) => depth > 0 && forall|i: int|
            0 <= i < entries.len() ==> is_text_tree(
                (#[trigger] entries[i]).1,
                (depth - 1) as nat,
            ),
        _ => false,
    }
}

/// The text of serde_json's `Display` for its value type. A value made of texts
/// and objects that is not nested deeper than the reader allows is read back from
/// the text as it was.
#[verifier::external_body]
fn write_compact(v: &serde_json::Value) -> (s: String)
    ensures
        s@ == compact_json(json_contents(*v)),
        is_text_tree(json_contents(*v), 100) ==> parsed_json(s@) == Some(json_contents(*v)),
{
    format!("{v}")
}

/// serde_json's `to_string_pretty` for its value type. Writing a value cannot
/// fail; without a value the text would be empty. A value made of texts and
/// objects that is not nested deeper than the reader allows is read back from
/// the text as it was.
#[verifier::external_body]
pub(crate) fn write_pretty(v: &serde_json::Value) -> (s: String)
    ensures
        s@ == pretty_json(json_contents(*v)),
        is_text_tree(json_contents(*v), 100) ==> parsed_json(s@) == Some(json_contents(*v)),
{
    serde_json::to_string_pretty(v).unwrap_or_default()
}

/// The number that serde_json holds.
fn read_number(n: &serde_json::Number) -> (r: JsonNumber)
    ensures
        r == number_contents(*n),
{
    if let Some(u) = number_as_u64(n) {
        return JsonNumber::Unsigned(u);
    }
    if let Some(i) = number_as_i64(n) {
        return JsonNumber::Negative(i);
    }
    match number_float_bits(n) {
        Some(bits) => JsonNumber::Float(bits),
        None => JsonNumber::Float(0),
    }
}

/// The value that serde_json holds.
pub fn read_value(v: serde_json::Value) -> (r: JsonValue)
    ensures
        r.model() == json_contents(v),
    decreases json_contents(v),
{
    match split_value(v) {
        JsonNode::Null => JsonValue::Null,
        JsonNode::Bool(b) => JsonValue::Bool(b),
        JsonNode::Number(n) => JsonValue::Number(read_number(&n)),
        JsonNode::Text(s) => JsonValue::Text(s),
        JsonNode::Array(items) => {
            let ghost all = Seq::new(items@.len(), |i: int| json_contents(items@[i]));
            let mut items = items;
            let mut out: Vec<JsonValue> = Vec::new();
            let count = items.len();
            while out.len() < count
                invariant
                    out@.len() <= count,
                    count == all.len(),
                    items@.len() == count - out@.len(),
                    json_contents(v) == JsonModel::Array(all),
                    forall|i: int|
                        0 <= i < items@.len() ==> json_contents(#[trigger] items@[i]) == all[
                            out@.len() + i
                        ],
                    json_models(out@) == all.take(out@.len() as int),
                decreases count - out@.len(),
            {
                let ghost done = out@;
                let ghost left = items@;
                let item = items.remove(0);
                proof {
                    assert(json_contents(item) == all[done.len() as int]);
                    assert(decreases_to!(json_contents(v) => json_contents(v)->Array_0));
                    assert(decreases_to!(all => all[done.len() as int]));
                }
                let value = read_value(item);
                out.push(value);
                proof {
                    assert(json_models(out@) =~= all.take(out@.len() as int));
                    assert forall|i: int| 0 <= i < items@.len() implies json_contents(
                        #[trigger] items@[i],
                    ) == all[out@.len() + i] by {
                        assert(items@[i] == left[i + 1]);
                    }
                }
            }
            proof {
                assert(all.take(out@.len() as int) =~= all);
                lemma_json_array(out);
            }
            JsonValue::Array(out)
        },
        JsonNode::Object(entries) => {
            let ghost all = Seq::new(
                entries@.len(),
                |i: int| (entries@[i].0@, json_contents(entries@[i].1)),
            );
            let mut entries = entries;
            let mut out: Vec<(String, JsonValue)> = Vec::new();
            let count = entries.len();
            while out.len() < count
                invariant
                    out@.len() <= count,
                    count == all.len(),
                    entries@.len() == count - out@.len(),
                    json_contents(v) == JsonModel::Object(all),
                    forall|i: int|
                        0 <= i < entries@.len() ==> (
                            (#[trigger] entries@[i]).0@,
                            json_contents(entries@[i].1),
                        ) == all[out@.len() + i],
                    member_models(out@) == all.take(out@.len() as int),
                decreases count - out@.len(),
            {
                let ghost done = out@;
                let ghost left = entries@;
                let (key, item) = entries.remove(0);
                proof {
                    let entry = all[done.len() as int];
                    assert((left[0].0@, json_contents(left[0].1)) == entry);
                    assert(decreases_to!(json_contents(v) => json_contents(v)->Object_0));
                    assert(decreases_to!(all => entry));
                    assert(decreases_to!(entry => entry.1));
                }
                let value = read_value(item);
                out.push((key, value));
                proof {
                    assert(member_models(out@) =~= all.take(out@.len() as int));
                    assert forall|i: int| 0 <= i < entries@.len() implies (
                        (#[trigger] entries@[i]).0@,
                        json_contents(entries@[i].1),
                    ) == all[out@.len() + i] by {
                        assert(entries@[i] == left[i + 1]);
                    }
                }
            }
            proof {
                assert(all.take(out@.len() as int) =~= all);
                lemma_json_object(out);
            }
            JsonValue::Object(out)
        },
    }
}

/// Reads a JSON text; none where the text is not one JSON value.
pub fn parse_json(text: &str) -> (r: Option<JsonValue>)
    ensures
        match r {
            Some(v) => parsed_json(text@) == Some(v.model()),
            None => parsed_json(text@) is None,
        },
{
    match parse_value(text) {
        Ok(v) => Some(read_value(v)),
        Err(_) => None,
    }
}

/// An object with text members.
pub open spec fn text_object(members: Seq<(Seq<char>, Seq<char>)>) -> JsonModel {
    JsonModel::Object(Seq::new(members.len(), |i: int| text_member(members[i])))
}

/// A text member of an object.
pub open spec fn text_member(member: (Seq<char>, Seq<char>)) -> (Seq<char>, JsonModel) {
    (member.0, JsonModel::Text(member.1))
}

/// The texts of a list of pairs.
pub open spec fn pair_views(v: Seq<(String, String)>) -> Seq<(Seq<char>, Seq<char>)> {
    Seq::new(v.len(), |i: int| (v[i].0@, v[i].1@))
}

/// The serde_json value of an object with text members, given in the order of
/// their keys.
pub(crate) fn text_object_value(members: Vec<(String, String)>) -> (v: serde_json::Value)
    requires
        text_object(pair_views(members@)) matches JsonModel::Object(all) && keys_ordered(all),
    ensures
        json_contents(v) == text_object(pair_views(members@)),
{
    let ghost all = pair_views(members@);
    let mut out: Vec<(String, serde_json::Value)> = Vec::new();
    let mut i: usize = 0;
    while i < members.len()
        invariant
            i <= members@.len(),
            all == pair_views(members@),
            out@.len() == i,
            forall|j: int|
                0 <= j < i ==> ((#[trigger] out@[j]).0@, json_contents(out@[j].1)) == text_member(
                    all[j],
                ),
        decreases members@.len() - i,
    {
        let pair = &members[i];
        let value = join_value(JsonNode::Text(pair.1.clone()));
        out.push((pair.0.clone(), value));
        i = i + 1;
    }
    let node = JsonNode::Object(out);
    proof {
        assert(node_model(node)->Object_0 =~= text_object(all)->Object_0);
    }
    join_value(node)
}

/// The text without white space of an object with text members, given in the
/// order of their keys. Reading the text gives that object.
pub fn write_text_object(members: Vec<(String, String)>) -> (s: String)
    requires
        text_object(pair_views(members@)) matches JsonModel::Object(all) && keys_ordered(all),
    ensures
        s@ == compact_json(text_object(pair_views(members@))),
        parsed_json(s@) == Some(text_object(pair_views(members@))),
{
    let ghost all = pair_views(members@);
    let value = text_object_value(members);
    proof {
        let entries = text_object(all)->Object_0;
        assert forall|i: int| 0 <= i < entries.len() implies is_text_tree(
            (#[trigger] entries[i]).1,
            99,
        ) by {
            assert(entries[i] == text_member(all[i]));
        }
    }
    write_compact(&value)
}

// ---------------------------------------------------------------------------
// Looking into values
// ---------------------------------------------------------------------------

/// The member of an object under `key`.
pub open spec fn member(entries: Seq<(Seq<char>, JsonModel)>, key: Seq<char>) -> Option<JsonModel>
    decreases entries.len(),
{
    if entries.len() == 0 {
        None
    } else if entries[0].0 == key {
        Some(entries[0].1)
    } else {
        member(entries.drop_first(), key)
    }
}

impl JsonModel {
    /// The member under `key`; a value that is no object has none.
    pub open spec fn get(self, key: Seq<char>) -> Option<JsonModel> {
        match self {
            JsonModel::Object(entries) => member(entries, key),
            _ => None,
        }
    }

    /// The text, where the value is one.
    pub open spec fn as_text(self) -> Option<Seq<char>> {
        match self {
            JsonModel::Text(s) => Some(s),
            _ => None,
        }
    }

    /// The number, where it is a non-negative integer.
    pub open spec fn as_u64(self) -> Option<u64> {
        match self {
            JsonModel::Number(JsonNumber::Unsigned(n)) => Some(n),
            _ => None,
        }
    }
}

impl JsonValue {
    /// The member under `key`; a value that is no object has none.
    pub fn get(&self, key: &str) -> (r: Option<&JsonValue>)
        ensures
            match r {
                Some(v) => self.model().get(key@) == Some(v.model()),
                None => self.model().get(key@) is None,
            },
    {
        match self {
            JsonValue::Object(entries) => {
                let ghost all = member_models(entries@);
                let mut i: usize = 0;
                proof {
                    lemma_json_object(*entries);
                    assert(all.skip(0) =~= all);
                }
                while i < entries.len()
                    invariant
                        i <= entries@.len(),
                        all == member_models(entries@),
                        self.model() == JsonModel::Object(all),
                        member(all, key@) == member(all.skip(i as int), key@),
                    decreases entries@.len() - i,
                {
                    proof {
                        assert(all.skip(i as int)[0] == all[i as int]);
                        assert(all.skip(i as int).drop_first() =~= all.skip(i + 1));
                    }
                    let entry = &entries[i];
                    if str_eq(entry.0.as_str(), key) {
                        return Some(&entry.1);
                    }
                    i = i + 1;
                }
                None
            },
            _ => None,
        }
    }

    /// The text, where the value is one.
    pub fn as_text(&self) -> (r: Option<&str>)
        ensures
            match r {
                Some(s) => self.model().as_text() == Some(s@),
                None => self.model().as_text() is None,
            },
    {
        match self {
            JsonValue::Text(s) => Some(s.as_str()),
            _ => None,
        }
    }

    /// The number, where it is a non-negative integer.
    pub fn as_u64(&self) -> (r: Option<u64>)
        ensures
            r == self.model().as_u64(),
    {
        match self {
            JsonValue::Number(JsonNumber::Unsigned(n)) => Some(*n),
            _ => None,
        }
    }
}

} // verus!
