//! Values of the wire protocol.

use crate::text::str_eq;
use vstd::prelude::*;

verus! {

/// An integer of the wire protocol: every `u64`, and `-1 - n` for every `u64` n.
#[derive(Clone, Copy, PartialEq, Eq, Structural, Debug)]
pub struct CborInteger {
    pub negative: bool,
    pub magnitude: u64,
}

impl CborInteger {
    /// The number.
    pub open spec fn value(self) -> int {
        if self.negative {
            -1 - self.magnitude
        } else {
            self.magnitude as int
        }
    }

    /// The number.
    pub fn to_i128(self) -> (n: i128)
        ensures
            n == self.value(),
    {
        if self.negative {
            -1 - self.magnitude as i128
        } else {
            self.magnitude as i128
        }
    }

    /// The integer with the given value.
    pub fn from_u64(n: u64) -> (i: Self)
        ensures
            i.value() == n,
    {
        CborInteger { negative: false, magnitude: n }
    }

    /// The integer with the given value.
    pub fn from_i128(n: i128) -> (i: Self)
        requires
            -0x1_0000_0000_0000_0000 <= n < 0x1_0000_0000_0000_0000,
        ensures
            i.value() == n,
    {
        if n < 0 {
            CborInteger { negative: true, magnitude: (-1 - n) as u64 }
        } else {
            CborInteger { negative: false, magnitude: n as u64 }
        }
    }

    /// The integer with the given value.
    pub fn from_i64(n: i64) -> (i: Self)
        ensures
            i.value() == n,
    {
        if n < 0 {
            CborInteger { negative: true, magnitude: (-1 - n) as u64 }
        } else {
            CborInteger { negative: false, magnitude: n as u64 }
        }
    }
}

/// A value of the wire protocol. A float is held as the bits of its
/// double-precision representation.
#[derive(Debug)]
pub enum CborValue {
    Null,
    Bool(bool),
    Integer(CborInteger),
    Float(u64),
    Text(String),
    Bytes(Vec<u8>),
    Array(Vec<CborValue>),
    /// Keys and values in order.
    Table(Vec<(CborValue, CborValue)>),
    Tag(u64, Box<CborValue>),
}

/// What a [`CborValue`] says.
#[verifier::ext_equal]
pub enum CborModel {
    Null,
    Bool(bool),
    Integer(int),
    Float(u64),
    Text(Seq<char>),
    Bytes(Seq<u8>),
    Array(Seq<CborModel>),
    Table(Seq<(CborModel, CborModel)>),
    Tag(u64, Box<CborModel>),
}

impl CborValue {
    /// What the value says.
    pub open spec fn model(self) -> CborModel
        decreases self,
    {
        match self {
            CborValue::Null => CborModel::Null,
            CborValue::Bool(b) => CborModel::Bool(b),
            CborValue::Integer(n) => CborModel::Integer(n.value()),
            CborValue::Float(bits) => CborModel::Float(bits),
            CborValue::Text(s) => CborModel::Text(s@),
            CborValue::Bytes(b) => CborModel::Bytes(b@),
            CborValue::Array(items) => CborModel::Array(
                Seq::new(
                    items@.len(),
                    |i: int|
                        if 0 <= i < items@.len() {
                            items@[i].model()
                        } else {
                            CborModel::Null
                        },
                ),
            ),
            CborValue::Table(entries) => CborModel::Table(
                Seq::new(
                    entries@.len(),
                    |i: int|
                        if 0 <= i < entries@.len() {
                            (entries@[i].0.model(), entries@[i].1.model())
                        } else {
                            (CborModel::Null, CborModel::Null)
                        },
                ),
            ),
            CborValue::Tag(tag, inner) => CborModel::Tag(tag, Box::new(inner.model())),
        }
    }
}

/// What the values of a list say.
pub open spec fn models(v: Seq<CborValue>) -> Seq<CborModel> {
    Seq::new(v.len(), |i: int| v[i].model())
}

/// What the keys and values of a table say.
pub open spec fn entry_models(v: Seq<(CborValue, CborValue)>) -> Seq<(CborModel, CborModel)> {
    Seq::new(v.len(), |i: int| (v[i].0.model(), v[i].1.model()))
}

pub proof fn lemma_array_model(items: Vec<CborValue>)
    ensures
        CborValue::Array(items).model() == CborModel::Array(models(items@)),
{
    let m = CborValue::Array(items).model();
    assert(m->Array_0 =~= models(items@));
}

pub proof fn lemma_table_model(entries: Vec<(CborValue, CborValue)>)
    ensures
        CborValue::Table(entries).model() == CborModel::Table(entry_models(entries@)),
{
    let m = CborValue::Table(entries).model();
    assert(m->Table_0 =~= entry_models(entries@));
}

/// A table with one text entry.
pub open spec fn text_entry(key: Seq<char>, value: Seq<char>) -> (CborModel, CborModel) {
    (CborModel::Text(key), CborModel::Text(value))
}

/// A table entry with a text.
pub fn make_text_entry(key: &str, value: &str) -> (e: (CborValue, CborValue))
    ensures
        (e.0.model(), e.1.model()) == text_entry(key@, value@),
{
    (CborValue::Text(key.to_owned()), CborValue::Text(value.to_owned()))
}

// ---------------------------------------------------------------------------
// Looking up table entries
// ---------------------------------------------------------------------------

/// The first text under `key`.
pub open spec fn first_text(entries: Seq<(CborModel, CborModel)>, key: Seq<char>) -> Option<
    Seq<char>,
>
    decreases entries.len(),
{
    if entries.len() == 0 {
        None
    } else {
        match entries[0] {
            (CborModel::Text(k), CborModel::Text(t)) if k == key => Some(t),
            _ => first_text(entries.drop_first(), key),
        }
    }
}

/// The first integer under `key` that lies between `low` and `high`.
pub open spec fn first_integer(
    entries: Seq<(CborModel, CborModel)>,
    key: Seq<char>,
    low: int,
    high: int,
) -> Option<int>
    decreases entries.len(),
{
    if entries.len() == 0 {
        None
    } else {
        match entries[0] {
            (CborModel::Text(k), CborModel::Integer(n)) if k == key && low <= n <= high => Some(n),
            _ => first_integer(entries.drop_first(), key, low, high),
        }
    }
}

/// The first truth value under `key`.
pub open spec fn first_bool(entries: Seq<(CborModel, CborModel)>, key: Seq<char>) -> Option<bool>
    decreases entries.len(),
{
    if entries.len() == 0 {
        None
    } else {
        match entries[0] {
            (CborModel::Text(k), CborModel::Bool(b)) if k == key => Some(b),
            _ => first_bool(entries.drop_first(), key),
        }
    }
}

/// The first array under `key`.
pub open spec fn first_array(entries: Seq<(CborModel, CborModel)>, key: Seq<char>) -> Option<
    Seq<CborModel>,
>
    decreases entries.len(),
{
    if entries.len() == 0 {
        None
    } else {
        match entries[0] {
            (CborModel::Text(k), CborModel::Array(a)) if k == key => Some(a),
            _ => first_array(entries.drop_first(), key),
        }
    }
}

impl CborModel {
    /// The entries of a table; other values have none.
    pub open spec fn entries(self) -> Seq<(CborModel, CborModel)> {
        match self {
            CborModel::Table(entries) => entries,
            _ => Seq::empty(),
        }
    }
}

/// The model of an optional text.
pub open spec fn str_opt(s: Option<&str>) -> Option<Seq<char>> {
    match s {
        Some(s) => Some(s@),
        None => None,
    }
}

/// The first text under `key` in a table.
pub fn cbor_map_text<'a>(map: &'a CborValue, key: &str) -> (r: Option<&'a str>)
    ensures
        str_opt(r) == first_text(map.model().entries(), key@),
{
    match map {
        CborValue::Table(entries) => {
            let ghost all = entry_models(entries@);
            let mut i: usize = 0;
            proof {
                lemma_table_model(*entries);
                assert(all.skip(0) =~= all);
            }
            while i < entries.len()
                invariant
                    i <= entries@.len(),
                    all == entry_models(entries@),
                    map.model().entries() == all,
                    first_text(all, key@) == first_text(all.skip(i as int), key@),
                decreases entries@.len() - i,
            {
                let entry = &entries[i];
                proof {
                    assert(all.skip(i as int)[0] == all[i as int]);
                    assert(all.skip(i as int).drop_first() =~= all.skip(i + 1));
                }
                if let CborValue::Text(k) = &entry.0 {
                    if let CborValue::Text(v) = &entry.1 {
                        if str_eq(k.as_str(), key) {
                            return Some(v.as_str());
                        }
                    }
                }
                i = i + 1;
            }
            None
        },
        _ => None,
    }
}

/// Integers of the wire protocol have at most 65 bits with their sign.
pub proof fn lemma_integer_range(map: CborValue, key: Seq<char>)
    ensures
        first_integer(map.model().entries(), key, i128::MIN as int, i128::MAX as int) matches Some(
            n,
        ) ==> -0x1_0000_0000_0000_0000 <= n < 0x1_0000_0000_0000_0000,
{
    if let CborValue::Table(entries) = map {
        lemma_table_model(entries);
        lemma_entries_integer_range(entries@, key);
    }
}

proof fn lemma_entries_integer_range(entries: Seq<(CborValue, CborValue)>, key: Seq<char>)
    ensures
        first_integer(entry_models(entries), key, i128::MIN as int, i128::MAX as int) matches Some(
            n,
        ) ==> -0x1_0000_0000_0000_0000 <= n < 0x1_0000_0000_0000_0000,
    decreases entries.len(),
{
    if entries.len() > 0 {
        lemma_entries_integer_range(entries.drop_first(), key);
        assert(entry_models(entries).drop_first() =~= entry_models(entries.drop_first()));
        assert(entry_models(entries)[0] == (entries[0].0.model(), entries[0].1.model()));
    }
}

/// The first integer under `key` in a table.
pub fn cbor_map_integer(map: &CborValue, key: &str) -> (r: Option<i128>)
    ensures
        match r {
            Some(n) => first_integer(
                map.model().entries(),
                key@,
                i128::MIN as int,
                i128::MAX as int,
            ) == Some(n as int),
            None => first_integer(
                map.model().entries(),
                key@,
                i128::MIN as int,
                i128::MAX as int,
            ) is None,
        },
{
    match map {
        CborValue::Table(entries) => {
            proof {
                lemma_table_model(*entries);
            }
            find_integer(entries.as_slice(), key, i128::MIN, i128::MAX)
        },
        _ => None,
    }
}

/// The first integer under `key` in a table that fits an `i64`.
pub fn cbor_map_int(map: &CborValue, key: &str) -> (r: Option<i64>)
    ensures
        match r {
            Some(n) => first_integer(map.model().entries(), key@, i64::MIN as int, i64::MAX as int)
                == Some(n as int),
            None => first_integer(
                map.model().entries(),
                key@,
                i64::MIN as int,
                i64::MAX as int,
            ) is None,
        },
{
    match map {
        CborValue::Table(entries) => {
            proof {
                lemma_table_model(*entries);
            }
            match find_integer(entries.as_slice(), key, i64::MIN as i128, i64::MAX as i128) {
                Some(n) => Some(n as i64),
                None => None,
            }
        },
        _ => None,
    }
}

fn find_integer(entries: &[(CborValue, CborValue)], key: &str, low: i128, high: i128) -> (r:
    Option<i128>)
    ensures
        match r {
            Some(n) => low <= n <= high && first_integer(
                entry_models(entries@),
                key@,
                low as int,
                high as int,
            ) == Some(n as int),
            None => first_integer(entry_models(entries@), key@, low as int, high as int) is None,
        },
{
    let ghost all = entry_models(entries@);
    let mut i: usize = 0;
    proof {
        assert(all.skip(0) =~= all);
    }
    while i < entries.len()
        invariant
            i <= entries@.len(),
            all == entry_models(entries@),
            first_integer(all, key@, low as int, high as int) == first_integer(
                all.skip(i as int),
                key@,
                low as int,
                high as int,
            ),
        decreases entries@.len() - i,
    {
        let entry = &entries[i];
        proof {
            assert(all.skip(i as int)[0] == all[i as int]);
            assert(all.skip(i as int).drop_first() =~= all.skip(i + 1));
        }
        if let CborValue::Text(k) = &entry.0 {
            if let CborValue::Integer(v) = &entry.1 {
                let n = v.to_i128();
                if str_eq(k.as_str(), key) && low <= n && n <= high {
                    return Some(n);
                }
            }
        }
        i = i + 1;
    }
    None
}

/// The first truth value under `key` in a table.
pub fn optional_argument_bool(arguments: &CborValue, key: &str) -> (r: Option<bool>)
    ensures
        r == first_bool(arguments.model().entries(), key@),
{
    match arguments {
        CborValue::Table(entries) => {
            let ghost all = entry_models(entries@);
            let mut i: usize = 0;
            proof {
                lemma_table_model(*entries);
                assert(all.skip(0) =~= all);
            }
            while i < entries.len()
                invariant
                    i <= entries@.len(),
                    all == entry_models(entries@),
                    arguments.model().entries() == all,
                    first_bool(all, key@) == first_bool(all.skip(i as int), key@),
                decreases entries@.len() - i,
            {
                let entry = &entries[i];
                proof {
                    assert(all.skip(i as int)[0] == all[i as int]);
                    assert(all.skip(i as int).drop_first() =~= all.skip(i + 1));
                }
                if let CborValue::Text(k) = &entry.0 {
                    if let CborValue::Bool(b) = &entry.1 {
                        if str_eq(k.as_str(), key) {
                            return Some(*b);
                        }
                    }
                }
                i = i + 1;
            }
            None
        },
        _ => None,
    }
}

/// The first array under `key` in a table.
pub fn argument_array<'a>(arguments: &'a CborValue, key: &str) -> (r: Result<
    &'a [CborValue],
    String,
>)
    ensures
        match r {
            Ok(a) => first_array(arguments.model().entries(), key@) == Some(models(a@)),
            Err(e) => first_array(arguments.model().entries(), key@) is None && e@
                == "missing array argument: "@ + key@,
        },
{
    if let CborValue::Table(entries) = arguments {
        let ghost all = entry_models(entries@);
        let mut i: usize = 0;
        proof {
            lemma_table_model(*entries);
            assert(all.skip(0) =~= all);
        }
        while i < entries.len()
            invariant
                i <= entries@.len(),
                all == entry_models(entries@),
                arguments.model().entries() == all,
                first_array(all, key@) == first_array(all.skip(i as int), key@),
            decreases entries@.len() - i,
        {
            let entry = &entries[i];
            proof {
                assert(all.skip(i as int)[0] == all[i as int]);
                assert(all.skip(i as int).drop_first() =~= all.skip(i + 1));
            }
            if let CborValue::Text(k) = &entry.0 {
                if let CborValue::Array(a) = &entry.1 {
                    if str_eq(k.as_str(), key) {
                        proof {
                            lemma_array_model(*a);
                        }
                        return Ok(a.as_slice());
                    }
                }
            }
            i = i + 1;
        }
    }
    let mut message = "missing array argument: ".to_owned();
    message.append(key);
    Err(message)
}

/// The text argument `key`.
pub fn argument_text(arguments: &CborValue, key: &str) -> (r: Result<String, String>)
    ensures
        match r {
            Ok(s) => first_text(arguments.model().entries(), key@) == Some(s@),
            Err(e) => first_text(arguments.model().entries(), key@) is None && e@
                == "missing string argument: "@ + key@,
        },
{
    match optional_argument_text(arguments, key) {
        Some(s) => Ok(s),
        None => {
            let mut message = "missing string argument: ".to_owned();
            message.append(key);
            Err(message)
        },
    }
}

/// The text argument `key`, if it is given.
pub fn optional_argument_text(arguments: &CborValue, key: &str) -> (r: Option<String>)
    ensures
        match r {
            Some(s) => first_text(arguments.model().entries(), key@) == Some(s@),
            None => first_text(arguments.model().entries(), key@) is None,
        },
{
    match cbor_map_text(arguments, key) {
        Some(s) => Some(s.to_owned()),
        None => None,
    }
}

/// The integer argument `key`, if it is given.
pub fn optional_argument_int(arguments: &CborValue, key: &str) -> (r: Option<i64>)
    ensures
        match r {
            Some(n) => first_integer(
                arguments.model().entries(),
                key@,
                i64::MIN as int,
                i64::MAX as int,
            ) == Some(n as int),
            None => first_integer(
                arguments.model().entries(),
                key@,
                i64::MIN as int,
                i64::MAX as int,
            ) is None,
        },
{
    cbor_map_int(arguments, key)
}

// ---------------------------------------------------------------------------
// ciborium
// ---------------------------------------------------------------------------

/// ciborium's value type.
#[verifier::external_type_specification]
#[verifier::external_body]
pub struct ExCiboriumValue(ciborium::Value);

/// What a ciborium value holds.
pub uninterp spec fn cbor_contents(v: ciborium::Value) -> CborModel;

/// The text that ciborium's value type gives for debugging.
pub uninterp spec fn cbor_debug(v: CborModel) -> Seq<char>;

/// One level of a ciborium value. A float is held as its bits.
pub enum CborNode {
    Null,
    Bool(bool),
    Integer(i128),
    Float(u64),
    Text(String),
    Bytes(Vec<u8>),
    Array(Vec<ciborium::Value>),
    Table(Vec<(ciborium::Value, ciborium::Value)>),
    Tag(u64, Box<ciborium::Value>),
}

/// What the value made of one level holds.
pub open spec fn cbor_node_model(node: CborNode) -> CborModel {
    match node {
        CborNode::Null => CborModel::Null,
        CborNode::Bool(b) => CborModel::Bool(b),
        CborNode::Integer(n) => CborModel::Integer(n as int),
        CborNode::Float(bits) => CborModel::Float(bits),
        CborNode::Text(s) => CborModel::Text(s@),
        CborNode::Bytes(b) => CborModel::Bytes(b@),
        CborNode::Array(items) => CborModel::Array(
            Seq::new(items@.len(), |i: int| cbor_contents(items@[i])),
        ),
        CborNode::Table(entries) => CborModel::Table(
            Seq::new(
                entries@.len(),
                |i: int| (cbor_contents(entries@[i].0), cbor_contents(entries@[i].1)),
            ),
        ),
        CborNode::Tag(tag, inner) => CborModel::Tag(tag, Box::new(cbor_contents(*inner))),
    }
}

/// Takes a ciborium value apart by one level. Its integers are those that
/// ciborium's `Integer` can hold: every `u64`, and `-1 - n` for every `u64` n.
#[verifier::external_body]
fn split_cbor(v: ciborium::Value) -> (node: CborNode)
    ensures
        cbor_node_model(node) == cbor_contents(v),
        node matches CborNode::Integer(n) ==> -0x1_0000_0000_0000_0000 <= n
            < 0x1_0000_0000_0000_0000,
{
    match v {
        ciborium::Value::Bool(b) => CborNode::Bool(b),
        ciborium::Value::Integer(n) => CborNode::Integer(n.into()),
        ciborium::Value::Float(f) => CborNode::Float(f.to_bits()),
        ciborium::Value::Text(s) => CborNode::Text(s),
        ciborium::Value::Bytes(b) => CborNode::Bytes(b),
        ciborium::Value::Array(items) => CborNode::Array(items),
        ciborium::Value::Map(entries) => CborNode::Table(entries),
        ciborium::Value::Tag(tag, inner) => CborNode::Tag(tag, inner),
        _ => CborNode::Null,
    }
}

/// Puts a ciborium value together from one level, floats excepted. An integer is
/// one that ciborium's `Integer` can hold.
#[verifier::external_body]
fn join_cbor(node: CborNode) -> (v: ciborium::Value)
    requires
        !(node is Float),
        node matches CborNode::Integer(n) ==> -0x1_0000_0000_0000_0000 <= n
            < 0x1_0000_0000_0000_0000,
    ensures
        cbor_contents(v) == cbor_node_model(node),
{
    match node {
        CborNode::Null | CborNode::Float(_) => ciborium::Value::Null,
        CborNode::Bool(b) => ciborium::Value::Bool(b),
        CborNode::Integer(n) => ciborium::Value::Integer(n.try_into().unwrap()),
        CborNode::Text(s) => ciborium::Value::Text(s),
        CborNode::Bytes(b) => ciborium::Value::Bytes(b),
        CborNode::Array(items) => ciborium::Value::Array(items),
        CborNode::Table(entries) => ciborium::Value::Map(entries),
        CborNode::Tag(tag, inner) => ciborium::Value::Tag(tag, inner),
    }
}

/// The ciborium value of a float, which ciborium's `from_reader` reads from the
/// encoding of a double-precision float: a marker byte and the bits, most
/// significant byte first.
#[verifier::external_body]
fn float_cbor(bits: u64) -> (v: ciborium::Value)
    ensures
        cbor_contents(v) == CborModel::Float(bits),
{
    let mut encoded = vec![0xfb_u8];
    encoded.extend_from_slice(&bits.to_be_bytes());
    ciborium::from_reader(encoded.as_slice()).unwrap()
}

/// The text of ciborium's `Debug` for its value type.
#[verifier::external_body]
fn debug_cbor(v: &ciborium::Value) -> (s: String)
    ensures
        s@ == cbor_debug(cbor_contents(*v)),
{
    format!("{v:?}")
}

/// What a ciborium value says.
pub fn from_ciborium(v: ciborium::Value) -> (r: CborValue)
    ensures
        r.model() == cbor_contents(v),
    decreases cbor_contents(v),
{
    match split_cbor(v) {
        CborNode::Null => CborValue::Null,
        CborNode::Bool(b) => CborValue::Bool(b),
        CborNode::Integer(n) => CborValue::Integer(CborInteger::from_i128(n)),
        CborNode::Float(bits) => CborValue::Float(bits),
        CborNode::Text(s) => CborValue::Text(s),
        CborNode::Bytes(b) => CborValue::Bytes(b),
        CborNode::Array(items) => {
            let ghost all = Seq::new(items@.len(), |i: int| cbor_contents(items@[i]));
            let mut items = items;
            let mut out: Vec<CborValue> = Vec::new();
            let count = items.len();
            while out.len() < count
                invariant
                    out@.len() <= count,
                    count == all.len(),
                    items@.len() == count - out@.len(),
                    cbor_contents(v) == CborModel::Array(all),
                    forall|i: int|
                        0 <= i < items@.len() ==> cbor_contents(#[trigger] items@[i]) == all[
                            out@.len() + i
                        ],
                    models(out@) == all.take(out@.len() as int),
                decreases count - out@.len(),
            {
                let ghost done = out@;
                let ghost left = items@;
                let item = items.remove(0);
                proof {
                    assert(cbor_contents(item) == all[done.len() as int]);
                    assert(decreases_to!(cbor_contents(v) => cbor_contents(v)->Array_0));
                    assert(decreases_to!(all => all[done.len() as int]));
                }
                let value = from_ciborium(item);
                out.push(value);
                proof {
                    assert(models(out@) =~= all.take(out@.len() as int));
                    assert forall|i: int| 0 <= i < items@.len() implies cbor_contents(
                        #[trigger] items@[i],
                    ) == all[out@.len() + i] by {
                        assert(items@[i] == left[i + 1]);
                    }
                }
            }
            proof {
                assert(all.take(out@.len() as int) =~= all);
                lemma_array_model(out);
            }
            CborValue::Array(out)
        },
        CborNode::Table(entries) => {
            let ghost all = Seq::new(
                entries@.len(),
                |i: int| (cbor_contents(entries@[i].0), cbor_contents(entries@[i].1)),
            );
            let mut entries = entries;
            let mut out: Vec<(CborValue, CborValue)> = Vec::new();
            let count = entries.len();
            while out.len() < count
                invariant
                    out@.len() <= count,
                    count == all.len(),
                    entries@.len() == count - out@.len(),
                    cbor_contents(v) == CborModel::Table(all),
                    forall|i: int|
                        0 <= i < entries@.len() ==> (
                            cbor_contents((#[trigger] entries@[i]).0),
                            cbor_contents(entries@[i].1),
                        ) == all[out@.len() + i],
                    entry_models(out@) == all.take(out@.len() as int),
                decreases count - out@.len(),
            {
                let ghost done = out@;
                let ghost left = entries@;
                let (key, item) = entries.remove(0);
                proof {
                    let entry = all[done.len() as int];
                    assert((cbor_contents(left[0].0), cbor_contents(left[0].1)) == entry);
                    assert(decreases_to!(cbor_contents(v) => cbor_contents(v)->Table_0));
                    assert(decreases_to!(all => entry));
                    assert(decreases_to!(entry => entry.0));
                    assert(decreases_to!(entry => entry.1));
                }
                let key = from_ciborium(key);
                let value = from_ciborium(item);
                out.push((key, value));
                proof {
                    assert(entry_models(out@) =~= all.take(out@.len() as int));
                    assert forall|i: int| 0 <= i < entries@.len() implies (
                        cbor_contents((#[trigger] entries@[i]).0),
                        cbor_contents(entries@[i].1),
                    ) == all[out@.len() + i] by {
                        assert(entries@[i] == left[i + 1]);
                    }
                }
            }
            proof {
                assert(all.take(out@.len() as int) =~= all);
                lemma_table_model(out);
            }
            CborValue::Table(out)
        },
        CborNode::Tag(tag, inner) => {
            proof {
                assert(decreases_to!(cbor_contents(v) => cbor_contents(v)->Tag_1));
            }
            let value = from_ciborium(*inner);
            CborValue::Tag(tag, Box::new(value))
        },
    }
}

/// The ciborium value that says the same.
pub fn to_ciborium(v: &CborValue) -> (r: ciborium::Value)
    ensures
        cbor_contents(r) == v.model(),
    decreases v,
{
    match v {
        CborValue::Null => join_cbor(CborNode::Null),
        CborValue::Bool(b) => join_cbor(CborNode::Bool(*b)),
        CborValue::Integer(n) => join_cbor(CborNode::Integer(n.to_i128())),
        CborValue::Float(bits) => float_cbor(*bits),
        CborValue::Text(s) => join_cbor(CborNode::Text(s.clone())),
        CborValue::Bytes(b) => join_cbor(CborNode::Bytes(copy_bytes(b.as_slice()))),
        CborValue::Array(items) => {
            let mut out: Vec<ciborium::Value> = Vec::new();
            let mut i: usize = 0;
            while i < items.len()
                invariant
                    i <= items@.len(),
                    out@.len() == i,
                    *v == CborValue::Array(*items),
                    forall|j: int| 0 <= j < i ==> cbor_contents(#[trigger] out@[j]) == items@[j].model(),
                decreases items@.len() - i,
            {
                proof {
                    assert(decreases_to!(v => v->Array_0));
                    assert(decreases_to!(v->Array_0 => items@));
                    assert(decreases_to!(items@ => items@[i as int]));
                }
                let value = to_ciborium(&items[i]);
                out.push(value);
                i = i + 1;
            }
            proof {
                lemma_array_model(*items);
                assert(Seq::new(out@.len(), |j: int| cbor_contents(out@[j])) =~= models(items@));
            }
            join_cbor(CborNode::Array(out))
        },
        CborValue::Table(entries) => {
            let mut out: Vec<(ciborium::Value, ciborium::Value)> = Vec::new();
            let mut i: usize = 0;
            while i < entries.len()
                invariant
                    i <= entries@.len(),
                    out@.len() == i,
                    *v == CborValue::Table(*entries),
                    forall|j: int|
                        0 <= j < i ==> (
                            cbor_contents((#[trigger] out@[j]).0),
                            cbor_contents(out@[j].1),
                        ) == (entries@[j].0.model(), entries@[j].1.model()),
                decreases entries@.len() - i,
            {
                proof {
                    assert(decreases_to!(v => v->Table_0));
                    assert(decreases_to!(v->Table_0 => entries@));
                    assert(decreases_to!(entries@ => entries@[i as int]));
                    assert(decreases_to!(entries@[i as int] => entries@[i as int].0));
                    assert(decreases_to!(entries@[i as int] => entries@[i as int].1));
                }
                let entry = &entries[i];
                let key = to_ciborium(&entry.0);
                let value = to_ciborium(&entry.1);
                out.push((key, value));
                i = i + 1;
            }
            proof {
                lemma_table_model(*entries);
                assert(Seq::new(
                    out@.len(),
                    |j: int| (cbor_contents(out@[j].0), cbor_contents(out@[j].1)),
                ) =~= entry_models(entries@));
            }
            join_cbor(CborNode::Table(out))
        },
        CborValue::Tag(tag, inner) => {
            let value = to_ciborium(inner);
            join_cbor(CborNode::Tag(*tag, Box::new(value)))
        },
    }
}

/// A copy of the bytes.
fn copy_bytes(bytes: &[u8]) -> (out: Vec<u8>)
    ensures
        out@ == bytes@,
{
    let mut out: Vec<u8> = Vec::new();
    let mut i: usize = 0;
    while i < bytes.len()
        invariant
            i <= bytes@.len(),
            out@ == bytes@.take(i as int),
        decreases bytes@.len() - i,
    {
        out.push(bytes[i]);
        i = i + 1;
    }
    proof {
        assert(bytes@.take(i as int) =~= bytes@);
    }
    out
}

/// The text of a value for debugging.
pub fn debug_text(v: &CborValue) -> (s: String)
    ensures
        s@ == cbor_debug(v.model()),
{
    let value = to_ciborium(v);
    debug_cbor(&value)
}

impl CborValue {
    /// The same value again.
    pub fn duplicate(&self) -> (r: CborValue)
        ensures
            r.model() == self.model(),
        decreases self,
    {
        match self {
            CborValue::Null => CborValue::Null,
            CborValue::Bool(b) => CborValue::Bool(*b),
            CborValue::Integer(n) => CborValue::Integer(*n),
            CborValue::Float(bits) => CborValue::Float(*bits),
            CborValue::Text(s) => CborValue::Text(s.clone()),
            CborValue::Bytes(b) => CborValue::Bytes(copy_bytes(b.as_slice())),
            CborValue::Array(items) => {
                let mut out: Vec<CborValue> = Vec::new();
                let mut i: usize = 0;
                while i < items.len()
                    invariant
                        i <= items@.len(),
                        out@.len() == i,
                        *self == CborValue::Array(*items),
                        forall|j: int| 0 <= j < i ==> (#[trigger] out@[j]).model() == items@[j].model(),
                    decreases items@.len() - i,
                {
                    proof {
                        assert(decreases_to!(self => self->Array_0));
                        assert(decreases_to!(self->Array_0 => items@));
                        assert(decreases_to!(items@ => items@[i as int]));
                    }
                    let value = items[i].duplicate();
                    out.push(value);
                    i = i + 1;
                }
                proof {
                    lemma_array_model(*items);
                    lemma_array_model(out);
                    assert(models(out@) =~= models(items@));
                }
                CborValue::Array(out)
            },
            CborValue::Table(entries) => {
                let mut out: Vec<(CborValue, CborValue)> = Vec::new();
                let mut i: usize = 0;
                while i < entries.len()
                    invariant
                        i <= entries@.len(),
                        out@.len() == i,
                        *self == CborValue::Table(*entries),
                        forall|j: int|
                            0 <= j < i ==> ((#[trigger] out@[j]).0.model(), out@[j].1.model()) == (
                                entries@[j].0.model(),
                                entries@[j].1.model(),
                            ),
                    decreases entries@.len() - i,
                {
                    proof {
                        assert(decreases_to!(self => self->Table_0));
                        assert(decreases_to!(self->Table_0 => entries@));
                        assert(decreases_to!(entries@ => entries@[i as int]));
                        assert(decreases_to!(entries@[i as int] => entries@[i as int].0));
                        assert(decreases_to!(entries@[i as int] => entries@[i as int].1));
                    }
                    let entry = &entries[i];
                    let key = entry.0.duplicate();
                    let value = entry.1.duplicate();
                    out.push((key, value));
                    i = i + 1;
                }
                proof {
                    lemma_table_model(*entries);
                    lemma_table_model(out);
                    assert(entry_models(out@) =~= entry_models(entries@));
                }
                CborValue::Table(out)
            },
            CborValue::Tag(tag, inner) => CborValue::Tag(*tag, Box::new(inner.duplicate())),
        }
    }
}

// ---------------------------------------------------------------------------
// Laws
// ---------------------------------------------------------------------------

/// The text under a key is that of the first entry with that key and such a value,
/// and there is none only where no entry has them.
pub proof fn law_first_text_is_found(
    entries: Seq<(CborModel, CborModel)>,
    key: Seq<char>,
)
    ensures
        match first_text(entries, key) {
            Some(v) => exists|i: int|
                0 <= i < entries.len() && #[trigger] entries[i] == (
                    CborModel::Text(key),
                    CborModel::Text(v),
                ) && forall|j: int|
                    0 <= j < i ==> !((#[trigger] entries[j]).0 == CborModel::Text(key)
                        && entries[j].1 is Text),
            None => forall|j: int|
                0 <= j < entries.len() ==> !((#[trigger] entries[j]).0 == CborModel::Text(key)
                    && entries[j].1 is Text),
        },
    decreases entries.len(),
{
    if entries.len() > 0 {
        let rest = entries.drop_first();
        let here = entries[0].0 == CborModel::Text(key) && entries[0].1 is Text;
        if !here {
            law_first_text_is_found(rest, key);
            assert forall|j: int| 0 < j < entries.len() implies #[trigger] entries[j] == rest[j
                - 1] by {}
            if let Some(v) = first_text(rest, key) {
                let i = choose|i: int|
                    0 <= i < rest.len() && #[trigger] rest[i] == (
                        CborModel::Text(key),
                        CborModel::Text(v),
                    ) && forall|j: int|
                        0 <= j < i ==> !((#[trigger] rest[j]).0 == CborModel::Text(key)
                            && rest[j].1 is Text);
                assert(entries[i + 1] == rest[i]);
            }
        }
    }
}

/// The integer in the range under a key is that of the first entry with that key and such a value,
/// and there is none only where no entry has them.
pub proof fn law_first_integer_is_found(
    entries: Seq<(CborModel, CborModel)>,
    key: Seq<char>,
    low: int,
    high: int,
)
    ensures
        match first_integer(entries, key, low, high) {
            Some(v) => exists|i: int|
                0 <= i < entries.len() && #[trigger] entries[i] == (
                    CborModel::Text(key),
                    CborModel::Integer(v),
                ) && low <= v <= high && forall|j: int|
                    0 <= j < i ==> !((#[trigger] entries[j]).0 == CborModel::Text(key)
                        && entries[j].1 is Integer && low <= entries[j].1->Integer_0 <= high),
            None => forall|j: int|
                0 <= j < entries.len() ==> !((#[trigger] entries[j]).0 == CborModel::Text(key)
                    && entries[j].1 is Integer && low <= entries[j].1->Integer_0 <= high),
        },
    decreases entries.len(),
{
    if entries.len() > 0 {
        let rest = entries.drop_first();
        let here = entries[0].0 == CborModel::Text(key) && entries[0].1 is Integer && low <= entries[0].1->Integer_0 <= high;
        if !here {
            law_first_integer_is_found(rest, key, low, high);
            assert forall|j: int| 0 < j < entries.len() implies #[trigger] entries[j] == rest[j
                - 1] by {}
            if let Some(v) = first_integer(rest, key, low, high) {
                let i = choose|i: int|
                    0 <= i < rest.len() && #[trigger] rest[i] == (
                        CborModel::Text(key),
                        CborModel::Integer(v),
                    ) && low <= v <= high && forall|j: int|
                        0 <= j < i ==> !((#[trigger] rest[j]).0 == CborModel::Text(key)
                            && rest[j].1 is Integer && low <= rest[j].1->Integer_0 <= high);
                assert(entries[i + 1] == rest[i]);
            }
        }
    }
}

/// The truth value under a key is that of the first entry with that key and such a value,
/// and there is none only where no entry has them.
pub proof fn law_first_bool_is_found(
    entries: Seq<(CborModel, CborModel)>,
    key: Seq<char>,
)
    ensures
        match first_bool(entries, key) {
            Some(v) => exists|i: int|
                0 <= i < entries.len() && #[trigger] entries[i] == (
                    CborModel::Text(key),
                    CborModel::Bool(v),
                ) && forall|j: int|
                    0 <= j < i ==> !((#[trigger] entries[j]).0 == CborModel::Text(key)
                        && entries[j].1 is Bool),
            None => forall|j: int|
                0 <= j < entries.len() ==> !((#[trigger] entries[j]).0 == CborModel::Text(key)
                    && entries[j].1 is Bool),
        },
    decreases entries.len(),
{
    if entries.len() > 0 {
        let rest = entries.drop_first();
        let here = entries[0].0 == CborModel::Text(key) && entries[0].1 is Bool;
        if !here {
            law_first_bool_is_found(rest, key);
            assert forall|j: int| 0 < j < entries.len() implies #[trigger] entries[j] == rest[j
                - 1] by {}
            if let Some(v) = first_bool(rest, key) {
                let i = choose|i: int|
                    0 <= i < rest.len() && #[trigger] rest[i] == (
                        CborModel::Text(key),
                        CborModel::Bool(v),
                    ) && forall|j: int|
                        0 <= j < i ==> !((#[trigger] rest[j]).0 == CborModel::Text(key)
                            && rest[j].1 is Bool);
                assert(entries[i + 1] == rest[i]);
            }
        }
    }
}

/// The array under a key is that of the first entry with that key and such a value,
/// and there is none only where no entry has them.
pub proof fn law_first_array_is_found(
    entries: Seq<(CborModel, CborModel)>,
    key: Seq<char>,
)
    ensures
        match first_array(entries, key) {
            Some(v) => exists|i: int|
                0 <= i < entries.len() && #[trigger] entries[i] == (
                    CborModel::Text(key),
                    CborModel::Array(v),
                ) && forall|j: int|
                    0 <= j < i ==> !((#[trigger] entries[j]).0 == CborModel::Text(key)
                        && entries[j].1 is Array),
            None => forall|j: int|
                0 <= j < entries.len() ==> !((#[trigger] entries[j]).0 == CborModel::Text(key)
                    && entries[j].1 is Array),
        },
    decreases entries.len(),
{
    if entries.len() > 0 {
        let rest = entries.drop_first();
        let here = entries[0].0 == CborModel::Text(key) && entries[0].1 is Array;
        if !here {
            law_first_array_is_found(rest, key);
            assert forall|j: int| 0 < j < entries.len() implies #[trigger] entries[j] == rest[j
                - 1] by {}
            if let Some(v) = first_array(rest, key) {
                let i = choose|i: int|
                    0 <= i < rest.len() && #[trigger] rest[i] == (
                        CborModel::Text(key),
                        CborModel::Array(v),
                    ) && forall|j: int|
                        0 <= j < i ==> !((#[trigger] rest[j]).0 == CborModel::Text(key)
                            && rest[j].1 is Array);
                assert(entries[i + 1] == rest[i]);
            }
        }
    }
}

} // verus!
