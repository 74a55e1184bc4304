//! Conversion between JSON values and values of the wire protocol.

use crate::cbor::{
    cbor_debug, debug_text, entry_models, lemma_array_model, lemma_table_model, models, CborInteger,
    CborModel, CborValue,
};
use crate::json::{
    json_models, keys_ordered, lemma_json_array, lemma_json_object, member, member_models,
    JsonModel, JsonNumber, JsonValue,
};
use crate::text::{
    lemma_text_lt_irreflexive, lemma_text_lt_total, lemma_text_lt_transitive, str_eq, str_lt,
    text_lt,
};
use base64::Engine;
use vstd::prelude::*;

verus! {

// ---------------------------------------------------------------------------
// Meaning
// ---------------------------------------------------------------------------

/// The protocol value of a JSON number.
pub open spec fn number_to_cbor(n: JsonNumber) -> CborModel {
    match n {
        JsonNumber::Unsigned(u) => CborModel::Integer(u as int),
        JsonNumber::Negative(i) => CborModel::Integer(i as int),
        JsonNumber::Float(bits) => CborModel::Float(bits),
    }
}

/// The protocol value of a JSON value: objects become tables with text keys.
pub open spec fn to_cbor(v: JsonModel) -> CborModel
    decreases v,
{
    match v {
        JsonModel::Null => CborModel::Null,
        JsonModel::Bool(b) => CborModel::Bool(b),
        JsonModel::Number(n) => number_to_cbor(n),
        JsonModel::Text(s) => CborModel::Text(s),
        JsonModel::Array(items) => CborModel::Array(
            Seq::new(
                items.len(),
                |i: int|
                    if 0 <= i < items.len() {
                        to_cbor(items[i])
                    } else {
                        CborModel::Null
                    },
            ),
        ),
        JsonModel::Object(entries) => CborModel::Table(
            Seq::new(
                entries.len(),
                |i: int|
                    if 0 <= i < entries.len() {
                        (CborModel::Text(entries[i].0), to_cbor(entries[i].1))
                    } else {
                        (CborModel::Null, CborModel::Null)
                    },
            ),
        ),
    }
}

/// The standard base64 text of bytes, with padding.
pub uninterp spec fn base64_text(bytes: Seq<u8>) -> Seq<char>;

/// Whether the bits are those of a number, not of an infinity or of not-a-number:
/// the exponent is not all ones.
pub open spec fn is_finite(bits: u64) -> bool {
    (bits / 0x10_0000_0000_0000) % 0x800 != 0x7ff
}

/// The object key of a table key: a text as it is, another value as its debug
/// text.
pub open spec fn object_key(k: CborModel) -> Seq<char> {
    match k {
        CborModel::Text(s) => s,
        other => cbor_debug(other),
    }
}

/// The members with one more, in the order of the keys; a member with the same
/// key is replaced.
pub open spec fn insert_member(
    members: Seq<(Seq<char>, JsonModel)>,
    key: Seq<char>,
    value: JsonModel,
) -> Seq<(Seq<char>, JsonModel)>
    decreases members.len(),
{
    if members.len() == 0 || text_lt(key, members[0].0) {
        seq![(key, value)] + members
    } else if members[0].0 == key {
        seq![(key, value)] + members.drop_first()
    } else {
        seq![members[0]] + insert_member(members.drop_first(), key, value)
    }
}

/// The JSON number of an integer.
pub open spec fn integer_to_json(n: int) -> JsonModel {
    if n >= 0 {
        JsonModel::Number(JsonNumber::Unsigned(n as u64))
    } else {
        JsonModel::Number(JsonNumber::Negative(n as i64))
    }
}

/// The JSON value of a protocol value: bytes become base64 text, a float that is
/// no number becomes null, and a tag is dropped.
pub open spec fn to_json(v: CborModel) -> JsonModel
    decreases v, 0nat,
{
    match v {
        CborModel::Null => JsonModel::Null,
        CborModel::Bool(b) => JsonModel::Bool(b),
        CborModel::Integer(n) => integer_to_json(n),
        CborModel::Float(bits) => if is_finite(bits) {
            JsonModel::Number(JsonNumber::Float(bits))
        } else {
            JsonModel::Null
        },
        CborModel::Text(s) => JsonModel::Text(s),
        CborModel::Bytes(b) => JsonModel::Text(base64_text(b)),
        CborModel::Array(items) => JsonModel::Array(
            Seq::new(
                items.len(),
                |i: int|
                    if 0 <= i < items.len() {
                        to_json(items[i])
                    } else {
                        JsonModel::Null
                    },
            ),
        ),
        CborModel::Table(entries) => JsonModel::Object(members_of(entries, entries.len())),
        CborModel::Tag(_, inner) => to_json(*inner),
    }
}

/// The members of the object that the first `n` entries of a table make.
pub open spec fn members_of(entries: Seq<(CborModel, CborModel)>, n: nat) -> Seq<
    (Seq<char>, JsonModel),
>
    decreases entries, n,
{
    if n == 0 || n > entries.len() {
        Seq::empty()
    } else {
        insert_member(
            members_of(entries, (n - 1) as nat),
            object_key(entries[n - 1].0),
            to_json(entries[n - 1].1),
        )
    }
}

/// Whether every integer that goes into the JSON value is one that JSON numbers
/// can hold here: at least the smallest `i64`.
pub open spec fn fits_json(v: CborModel) -> bool
    decreases v,
{
    match v {
        CborModel::Integer(n) => i64::MIN <= n <= u64::MAX,
        CborModel::Array(items) => forall|i: int|
            0 <= i < items.len() ==> fits_json(#[trigger] items[i]),
        CborModel::Table(entries) => forall|i: int|
            0 <= i < entries.len() ==> fits_json((#[trigger] entries[i]).1),
        CborModel::Tag(_, inner) => fits_json(*inner),
        _ => true,
    }
}

// ---------------------------------------------------------------------------
// Conversion
// ---------------------------------------------------------------------------

/// The base64 crate's standard engine, `encode`. The result is a function of the
/// bytes.
#[verifier::external_body]
fn encode_base64(bytes: &[u8]) -> (s: String)
    ensures
        s@ == base64_text(bytes@),
{
    base64::engine::general_purpose::STANDARD.encode(bytes)
}

/// Converts a JSON value to a protocol value.
pub fn json_to_cbor(v: &JsonValue) -> (r: CborValue)
    ensures
        r.model() == to_cbor(v.model()),
    decreases v,
{
    match v {
        JsonValue::Null => CborValue::Null,
        JsonValue::Bool(b) => CborValue::Bool(*b),
        JsonValue::Number(n) => match n {
            JsonNumber::Unsigned(u) => CborValue::Integer(CborInteger::from_u64(*u)),
            JsonNumber::Negative(i) => CborValue::Integer(CborInteger::from_i64(*i)),
            JsonNumber::Float(bits) => CborValue::Float(*bits),
        },
        JsonValue::Text(s) => CborValue::Text(s.clone()),
        JsonValue::Array(items) => {
            let mut out: Vec<CborValue> = Vec::new();
            let mut i: usize = 0;
            while i < items.len()
                invariant
                    i <= items@.len(),
                    out@.len() == i,
                    *v == JsonValue::Array(*items),
                    forall|j: int|
                        0 <= j < i ==> (#[trigger] out@[j]).model() == to_cbor(items@[j].model()),
                decreases items@.len() - i,
            {
                proof {
                    assert(decreases_to!(v => v->Array_0));
                    assert(decreases_to!(v->Array_0 => items@));
                    assert(decreases_to!(items@ => items@[i as int]));
                }
                let value = json_to_cbor(&items[i]);
                out.push(value);
                i = i + 1;
            }
            proof {
                lemma_json_array(*items);
                lemma_array_model(out);
                let m = to_cbor(v.model());
                assert(m->Array_0 =~= models(out@));
            }
            CborValue::Array(out)
        },
        JsonValue::Object(entries) => {
            let mut out: Vec<(CborValue, CborValue)> = Vec::new();
            let mut i: usize = 0;
            while i < entries.len()
                invariant
                    i <= entries@.len(),
                    out@.len() == i,
                    *v == JsonValue::Object(*entries),
                    forall|j: int|
                        0 <= j < i ==> ((#[trigger] out@[j]).0.model(), out@[j].1.model()) == (
                            CborModel::Text(entries@[j].0@),
                            to_cbor(entries@[j].1.model()),
                        ),
                decreases entries@.len() - i,
            {
                proof {
                    assert(decreases_to!(v => v->Object_0));
                    assert(decreases_to!(v->Object_0 => entries@));
                    assert(decreases_to!(entries@ => entries@[i as int]));
                    assert(decreases_to!(entries@[i as int] => entries@[i as int].1));
                }
                let entry = &entries[i];
                let key = CborValue::Text(entry.0.clone());
                let value = json_to_cbor(&entry.1);
                out.push((key, value));
                i = i + 1;
            }
            proof {
                lemma_json_object(*entries);
                lemma_table_model(out);
                let m = to_cbor(v.model());
                assert(m->Table_0 =~= entry_models(out@));
            }
            CborValue::Table(out)
        },
    }
}

/// Adds a member, or replaces the one with the same key.
fn put_member(members: &mut Vec<(String, JsonValue)>, key: String, value: JsonValue)
    ensures
        member_models(final(members)@) == insert_member(
            member_models(old(members)@),
            key@,
            value.model(),
        ),
{
    let ghost all = member_models(members@);
    let mut i: usize = 0;
    proof {
        assert(all.skip(0) =~= all);
        assert(all.take(0) + insert_member(all, key@, value.model()) =~= insert_member(
            all,
            key@,
            value.model(),
        ));
    }
    while i < members.len() && !str_lt(key.as_str(), members[i].0.as_str()) && !str_eq(
        key.as_str(),
        members[i].0.as_str(),
    )
        invariant
            i <= members@.len(),
            all == member_models(members@),
            members@ == old(members)@,
            insert_member(all, key@, value.model()) == all.take(i as int) + insert_member(
                all.skip(i as int),
                key@,
                value.model(),
            ),
        decreases members@.len() - i,
    {
        proof {
            let rest = all.skip(i as int);
            assert(rest[0] == all[i as int]);
            assert(rest.drop_first() =~= all.skip(i + 1));
            assert(all.take(i as int) + (seq![rest[0]] + insert_member(
                rest.drop_first(),
                key@,
                value.model(),
            )) =~= all.take(i + 1) + insert_member(all.skip(i + 1), key@, value.model()));
        }
        i = i + 1;
    }
    let ghost rest = all.skip(i as int);
    if i < members.len() && str_eq(key.as_str(), members[i].0.as_str()) {
        proof {
            assert(rest[0] == all[i as int]);
            lemma_text_lt_irreflexive(key@);
        }
        members.set(i, (key, value));
        proof {
            assert(member_models(members@) =~= all.take(i as int) + (seq![(key@, value.model())]
                + rest.drop_first()));
        }
    } else {
        proof {
            if i < members@.len() {
                assert(rest[0] == all[i as int]);
            }
        }
        members.insert(i, (key, value));
        proof {
            assert(member_models(members@) =~= all.take(i as int) + (seq![(key@, value.model())]
                + rest));
        }
    }
}

proof fn lemma_items_fit(items: Seq<CborModel>, i: int)
    requires
        fits_json(CborModel::Array(items)),
        0 <= i < items.len(),
    ensures
        fits_json(items[i]),
{
    match CborModel::Array(items) {
        CborModel::Array(all) => {
            assert(fits_json(all[i]));
        },
        _ => {},
    }
}

proof fn lemma_entries_fit(entries: Seq<(CborModel, CborModel)>, i: int)
    requires
        fits_json(CborModel::Table(entries)),
        0 <= i < entries.len(),
    ensures
        fits_json(entries[i].1),
{
    match CborModel::Table(entries) {
        CborModel::Table(all) => {
            assert(fits_json(all[i].1));
        },
        _ => {},
    }
}

/// Converts a protocol value to a JSON value.
pub fn cbor_to_json(v: &CborValue) -> (r: JsonValue)
    requires
        fits_json(v.model()),
    ensures
        r.model() == to_json(v.model()),
    decreases v,
{
    match v {
        CborValue::Null => JsonValue::Null,
        CborValue::Bool(b) => JsonValue::Bool(*b),
        CborValue::Integer(i) => {
            let n = i.to_i128();
            if n >= 0 {
                JsonValue::Number(JsonNumber::Unsigned(n as u64))
            } else {
                JsonValue::Number(JsonNumber::Negative(n as i64))
            }
        },
        CborValue::Float(bits) => {
            if (*bits / 0x10_0000_0000_0000) % 0x800 != 0x7ff {
                JsonValue::Number(JsonNumber::Float(*bits))
            } else {
                JsonValue::Null
            }
        },
        CborValue::Text(s) => JsonValue::Text(s.clone()),
        CborValue::Bytes(bytes) => JsonValue::Text(encode_base64(bytes.as_slice())),
        CborValue::Array(items) => {
            let mut out: Vec<JsonValue> = Vec::new();
            let mut i: usize = 0;
            proof {
                lemma_array_model(*items);
            }
            while i < items.len()
                invariant
                    i <= items@.len(),
                    out@.len() == i,
                    *v == CborValue::Array(*items),
                    v.model() == CborModel::Array(models(items@)),
                    fits_json(v.model()),
                    forall|j: int|
                        0 <= j < i ==> (#[trigger] out@[j]).model() == to_json(items@[j].model()),
                decreases items@.len() - i,
            {
                proof {
                    assert(decreases_to!(v => v->Array_0));
                    assert(decreases_to!(v->Array_0 => items@));
                    assert(decreases_to!(items@ => items@[i as int]));
                    lemma_items_fit(models(items@), i as int);
                }
                let value = cbor_to_json(&items[i]);
                out.push(value);
                i = i + 1;
            }
            proof {
                lemma_json_array(out);
                let m = to_json(v.model());
                assert(m->Array_0 =~= json_models(out@));
            }
            JsonValue::Array(out)
        },
        CborValue::Table(entries) => {
            let mut members: Vec<(String, JsonValue)> = Vec::new();
            let mut i: usize = 0;
            let ghost all = entry_models(entries@);
            proof {
                lemma_table_model(*entries);
                assert(member_models(members@) =~= members_of(all, 0));
            }
            while i < entries.len()
                invariant
                    i <= entries@.len(),
                    *v == CborValue::Table(*entries),
                    all == entry_models(entries@),
                    v.model() == CborModel::Table(all),
                    fits_json(v.model()),
                    member_models(members@) == members_of(all, i as nat),
                decreases entries@.len() - i,
            {
                proof {
                    assert(decreases_to!(v => v->Table_0));
                    assert(decreases_to!(v->Table_0 => entries@));
                    assert(decreases_to!(entries@ => entries@[i as int]));
                    assert(decreases_to!(entries@[i as int] => entries@[i as int].1));
                    lemma_entries_fit(all, i as int);
                    assert(all[i as int] == (
                        entries@[i as int].0.model(),
                        entries@[i as int].1.model(),
                    ));
                }
                let entry = &entries[i];
                let key = match &entry.0 {
                    CborValue::Text(s) => s.clone(),
                    other => debug_text(other),
                };
                let value = cbor_to_json(&entry.1);
                put_member(&mut members, key, value);
                i = i + 1;
            }
            proof {
                lemma_json_object(members);
            }
            JsonValue::Object(members)
        },
        CborValue::Tag(_, inner) => cbor_to_json(inner),
    }
}

// ---------------------------------------------------------------------------
// Laws
// ---------------------------------------------------------------------------

/// Whether a JSON value is one that serde_json can hold: negative integers are
/// negative, floats are numbers, and the keys of objects come in their order,
/// none of them twice.
pub open spec fn valid_json(v: JsonModel) -> bool
    decreases v,
{
    match v {
        JsonModel::Number(JsonNumber::Negative(i)) => i < 0,
        JsonModel::Number(JsonNumber::Float(bits)) => is_finite(bits),
        JsonModel::Array(items) => forall|i: int|
            0 <= i < items.len() ==> valid_json(#[trigger] items[i]),
        JsonModel::Object(entries) => keys_ordered(entries) && forall|i: int|
            0 <= i < entries.len() ==> valid_json((#[trigger] entries[i]).1),
        _ => true,
    }
}

proof fn lemma_insert_last(
    members: Seq<(Seq<char>, JsonModel)>,
    key: Seq<char>,
    value: JsonModel,
)
    requires
        forall|i: int| 0 <= i < members.len() ==> text_lt((#[trigger] members[i]).0, key),
    ensures
        insert_member(members, key, value) == members.push((key, value)),
    decreases members.len(),
{
    if members.len() > 0 {
        let first = members[0].0;
        if text_lt(key, first) {
            lemma_text_lt_transitive(key, first, key);
            lemma_text_lt_irreflexive(key);
        }
        if first == key {
            lemma_text_lt_irreflexive(key);
        }
        let rest = members.drop_first();
        assert forall|i: int| 0 <= i < rest.len() implies text_lt((#[trigger] rest[i]).0, key) by {
            assert(rest[i] == members[i + 1]);
        }
        lemma_insert_last(rest, key, value);
        assert(seq![members[0]] + rest.push((key, value)) =~= members.push((key, value)));
    } else {
        assert(seq![(key, value)] + members =~= members.push((key, value)));
    }
}

/// A JSON value survives the way through the wire protocol and back.
pub proof fn law_json_survives_the_wire(v: JsonModel)
    requires
        valid_json(v),
    ensures
        to_json(to_cbor(v)) == v,
        fits_json(to_cbor(v)),
    decreases v,
{
    match v {
        JsonModel::Array(items) => {
            let m = to_cbor(v)->Array_0;
            assert forall|i: int| 0 <= i < items.len() implies to_json(#[trigger] m[i]) == items[i]
                && fits_json(m[i]) by {
                assert(valid_json(items[i]));
                assert(decreases_to!(v => v->Array_0));
                assert(decreases_to!(items => items[i]));
                law_json_survives_the_wire(items[i]);
            }
            assert(to_json(to_cbor(v))->Array_0 =~= items);
        },
        JsonModel::Object(entries) => {
            let t = to_cbor(v)->Table_0;
            assert forall|i: int| 0 <= i < entries.len() implies to_json((#[trigger] t[i]).1)
                == entries[i].1 && fits_json(t[i].1) && object_key(t[i].0) == entries[i].0 by {
                assert(valid_json(entries[i].1));
                assert(decreases_to!(v => v->Object_0));
                assert(decreases_to!(entries => entries[i]));
                assert(decreases_to!(entries[i] => entries[i].1));
                law_json_survives_the_wire(entries[i].1);
            }
            lemma_members_back(entries, t, entries.len());
            assert(entries.take(entries.len() as int) =~= entries);
        },
        _ => {},
    }
}

proof fn lemma_members_back(
    entries: Seq<(Seq<char>, JsonModel)>,
    t: Seq<(CborModel, CborModel)>,
    n: nat,
)
    requires
        n <= entries.len(),
        t.len() == entries.len(),
        keys_ordered(entries),
        forall|i: int|
            0 <= i < entries.len() ==> to_json((#[trigger] t[i]).1) == entries[i].1 && object_key(
                t[i].0,
            ) == entries[i].0,
    ensures
        members_of(t, n) == entries.take(n as int),
    decreases n,
{
    if n > 0 {
        let m = (n - 1) as nat;
        lemma_members_back(entries, t, m);
        let before = entries.take(m as int);
        assert forall|i: int| 0 <= i < before.len() implies text_lt(
            (#[trigger] before[i]).0,
            entries[m as int].0,
        ) by {
            assert(before[i] == entries[i]);
        }
        assert(to_json(t[m as int].1) == entries[m as int].1);
        lemma_insert_last(before, entries[m as int].0, entries[m as int].1);
        assert(before.push(entries[m as int]) =~= entries.take(n as int));
    } else {
        assert(entries.take(0) =~= Seq::<(Seq<char>, JsonModel)>::empty());
    }
}

/// Adding a member keeps the keys in their order; the member is then found under
/// its key, and the others under theirs.
pub proof fn law_members_stay_ordered(
    members: Seq<(Seq<char>, JsonModel)>,
    key: Seq<char>,
    value: JsonModel,
    other: Seq<char>,
)
    requires
        keys_ordered(members),
    ensures
        keys_ordered(insert_member(members, key, value)),
        member(insert_member(members, key, value), key) == Some(value),
        other != key ==> member(insert_member(members, key, value), other) == member(
            members,
            other,
        ),
    decreases members.len(),
{
    let out = insert_member(members, key, value);
    if members.len() == 0 || text_lt(key, members[0].0) {
        assert(out.drop_first() =~= members);
        assert forall|i: int, j: int| 0 <= i < j < out.len() implies text_lt(
            #[trigger] out[i].0,
            #[trigger] out[j].0,
        ) by {
            if i == 0 {
                if j > 1 {
                    assert(text_lt(members[0].0, members[j - 1].0));
                    lemma_text_lt_transitive(key, members[0].0, members[j - 1].0);
                }
            } else {
                assert(text_lt(members[i - 1].0, members[j - 1].0));
            }
        }
    } else {
        let rest = members.drop_first();
        assert(keys_ordered(rest)) by {
            assert forall|i: int, j: int| 0 <= i < j < rest.len() implies text_lt(
                #[trigger] rest[i].0,
                #[trigger] rest[j].0,
            ) by {
                assert(text_lt(members[i + 1].0, members[j + 1].0));
            }
        }
        if members[0].0 == key {
            assert(out.drop_first() =~= rest);
            assert forall|i: int, j: int| 0 <= i < j < out.len() implies text_lt(
                #[trigger] out[i].0,
                #[trigger] out[j].0,
            ) by {
                assert(text_lt(members[i].0, members[j].0));
            }
        } else {
            law_members_stay_ordered(rest, key, value, other);
            lemma_text_lt_total(key, members[0].0);
            let tail = insert_member(rest, key, value);
            assert(out.drop_first() =~= tail);
            lemma_above_insert(rest, key, value, members[0].0);
            assert forall|i: int, j: int| 0 <= i < j < out.len() implies text_lt(
                #[trigger] out[i].0,
                #[trigger] out[j].0,
            ) by {
                if i == 0 {
                    assert(text_lt(members[0].0, tail[j - 1].0));
                } else {
                    assert(text_lt(tail[i - 1].0, tail[j - 1].0));
                }
            }
        }
    }
}

proof fn lemma_above_insert(
    members: Seq<(Seq<char>, JsonModel)>,
    key: Seq<char>,
    value: JsonModel,
    low: Seq<char>,
)
    requires
        text_lt(low, key),
        forall|i: int| 0 <= i < members.len() ==> text_lt(low, (#[trigger] members[i]).0),
    ensures
        forall|i: int|
            0 <= i < insert_member(members, key, value).len() ==> text_lt(
                low,
                (#[trigger] insert_member(members, key, value)[i]).0,
            ),
    decreases members.len(),
{
    let out = insert_member(members, key, value);
    if members.len() > 0 && !text_lt(key, members[0].0) && members[0].0 != key {
        let rest = members.drop_first();
        assert forall|i: int| 0 <= i < rest.len() implies text_lt(low, (#[trigger] rest[i]).0) by {
            assert(rest[i] == members[i + 1]);
        }
        lemma_above_insert(rest, key, value, low);
        let tail = insert_member(rest, key, value);
        assert forall|i: int| 0 <= i < out.len() implies text_lt(low, (#[trigger] out[i]).0) by {
            if i > 0 {
                assert(out[i] == tail[i - 1]);
            }
        }
    } else {
        assert forall|i: int| 0 <= i < out.len() implies text_lt(low, (#[trigger] out[i]).0) by {
            if i > 0 {
                if members.len() > 0 && members[0].0 == key && !text_lt(key, members[0].0) {
                    assert(out[i] == members[i]);
                } else {
                    assert(out[i] == members[i - 1]);
                }
            }
        }
    }
}

proof fn lemma_members_of(entries: Seq<(CborModel, CborModel)>, n: nat, i: int)
    requires
        0 <= i < n <= entries.len(),
        forall|j: int|
            i < j < n ==> object_key((#[trigger] entries[j]).0) != object_key(entries[i].0),
    ensures
        keys_ordered(members_of(entries, n)),
        member(members_of(entries, n), object_key(entries[i].0)) == Some(to_json(entries[i].1)),
    decreases n,
{
    let before = members_of(entries, (n - 1) as nat);
    lemma_members_ordered(entries, (n - 1) as nat);
    law_members_stay_ordered(
        before,
        object_key(entries[n - 1].0),
        to_json(entries[n - 1].1),
        object_key(entries[i].0),
    );
    if i < n - 1 {
        lemma_members_of(entries, (n - 1) as nat, i);
    }
}

proof fn lemma_members_ordered(entries: Seq<(CborModel, CborModel)>, n: nat)
    requires
        n <= entries.len(),
    ensures
        keys_ordered(members_of(entries, n)),
    decreases n,
{
    if n > 0 {
        lemma_members_ordered(entries, (n - 1) as nat);
        law_members_stay_ordered(
            members_of(entries, (n - 1) as nat),
            object_key(entries[n - 1].0),
            to_json(entries[n - 1].1),
            object_key(entries[n - 1].0),
        );
    }
}

/// Every value of a table is found in the object under its key, a text key as it
/// is. Where a key comes twice, the value that comes last counts.
pub proof fn law_table_values_are_found_under_their_keys(
    entries: Seq<(CborModel, CborModel)>,
    i: int,
)
    requires
        0 <= i < entries.len(),
        forall|j: int|
            i < j < entries.len() ==> object_key((#[trigger] entries[j]).0) != object_key(
                entries[i].0,
            ),
    ensures
        to_json(CborModel::Table(entries)) is Object,
        keys_ordered(to_json(CborModel::Table(entries))->Object_0),
        member(to_json(CborModel::Table(entries))->Object_0, object_key(entries[i].0)) == Some(
            to_json(entries[i].1),
        ),
        entries[i].0 matches CborModel::Text(s) ==> object_key(entries[i].0) == s,
{
    lemma_members_of(entries, entries.len(), i);
}

/// Every item of a list is converted, in place.
pub proof fn law_lists_are_converted_item_by_item(items: Seq<CborModel>, i: int)
    requires
        0 <= i < items.len(),
    ensures
        to_json(CborModel::Array(items)) is Array,
        to_json(CborModel::Array(items))->Array_0.len() == items.len(),
        to_json(CborModel::Array(items))->Array_0[i] == to_json(items[i]),
{
}

/// An infinity, or what is not a number, has no JSON number. The sign and the
/// fraction do not matter, the exponent does.
pub proof fn law_only_numbers_are_numbers(negative: bool, exponent: u64, fraction: u64, bits: u64)
    requires
        exponent <= 0x7ff,
        fraction < 0x10_0000_0000_0000,
        bits == exponent * 0x10_0000_0000_0000 + fraction + if negative {
            0x8000_0000_0000_0000int
        } else {
            0
        },
    ensures
        exponent == 0x7ff ==> to_json(CborModel::Float(bits)) is Null,
        exponent < 0x7ff ==> to_json(CborModel::Float(bits)) == JsonModel::Number(
            JsonNumber::Float(bits),
        ),
{
}

/// Integers stay the same numbers, as far as JSON numbers reach here.
pub proof fn law_integers_stay_the_same(n: int)
    requires
        i64::MIN <= n <= u64::MAX,
    ensures
        to_json(CborModel::Integer(n)) matches JsonModel::Number(number) && match number {
            JsonNumber::Unsigned(u) => u == n,
            JsonNumber::Negative(i) => i == n && n < 0,
            JsonNumber::Float(_) => false,
        },
{
}

/// What both notations know is the same in both: nothing, truth, text, integers,
/// lists in their order, and members under their keys.
pub proof fn law_values_mean_the_same_in_both_notations(
    b: bool,
    s: Seq<char>,
    n: u64,
    k: i64,
    items: Seq<JsonModel>,
    entries: Seq<(Seq<char>, JsonModel)>,
    i: int,
)
    ensures
        to_cbor(JsonModel::Null) is Null,
        to_json(CborModel::Null) is Null,
        to_cbor(JsonModel::Bool(b)) == CborModel::Bool(b),
        to_json(CborModel::Bool(b)) == JsonModel::Bool(b),
        to_cbor(JsonModel::Text(s)) == CborModel::Text(s),
        to_json(CborModel::Text(s)) == JsonModel::Text(s),
        to_cbor(JsonModel::Number(JsonNumber::Unsigned(n))) == CborModel::Integer(n as int),
        to_cbor(JsonModel::Number(JsonNumber::Negative(k))) == CborModel::Integer(k as int),
        to_cbor(JsonModel::Number(JsonNumber::Float(n))) == CborModel::Float(n),
        to_cbor(JsonModel::Array(items)) matches CborModel::Array(all) && all.len() == items.len()
            && (0 <= i < items.len() ==> all[i] == to_cbor(items[i])),
        to_cbor(JsonModel::Object(entries)) matches CborModel::Table(all) && all.len()
            == entries.len() && (0 <= i < entries.len() ==> all[i] == (
            CborModel::Text(entries[i].0),
            to_cbor(entries[i].1),
        )),
{
}

/// Bytes become their base64 text, and a tag changes nothing.
pub proof fn law_bytes_and_tags_become_plain(bytes: Seq<u8>, tag: u64, inner: CborModel)
    ensures
        to_json(CborModel::Bytes(bytes)) == JsonModel::Text(base64_text(bytes)),
        to_json(CborModel::Tag(tag, Box::new(inner))) == to_json(inner),
{
}

} // verus!
