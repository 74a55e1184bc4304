use tau::cbor::{
    argument_array, argument_text, cbor_map_int, cbor_map_integer, cbor_map_text, debug_text,
    from_ciborium, make_text_entry, optional_argument_bool, optional_argument_int,
    optional_argument_text, to_ciborium, CborInteger, CborValue,
};
use tau::convert::{cbor_to_json, json_to_cbor};
use tau::json::{parse_json, write_text_object, JsonNumber, JsonValue};

fn text(s: &str) -> CborValue {
    CborValue::Text(s.to_owned())
}

fn round_trip(json: &str) -> String {
    let value = parse_json(json).unwrap();
    let back = cbor_to_json(&json_to_cbor(&value));
    assert_eq!(format!("{value:?}"), format!("{back:?}"));
    format!("{back:?}")
}

#[test]
fn json_survives_the_wire() {
    round_trip("null");
    round_trip("[true, false, 1, -1, 18446744073709551615, -9223372036854775808]");
    round_trip("{\"b\": {\"x\": []}, \"a\": \"\\u00e9\\n\"}");
    round_trip("1.5");
    round_trip("[1e300, -0.25]");
}

#[test]
fn members_come_in_the_order_of_their_keys() {
    match parse_json("{\"b\":1,\"a\":2,\"b\":3}").unwrap() {
        JsonValue::Object(members) => {
            let keys: Vec<&str> = members.iter().map(|m| m.0.as_str()).collect();
            assert_eq!(keys, vec!["a", "b"]);
            assert!(matches!(members[1].1, JsonValue::Number(JsonNumber::Unsigned(3))));
        }
        _ => panic!("expected an object"),
    }
    let table = CborValue::Table(vec![
        (text("b"), CborValue::Null),
        (text("a"), CborValue::Bool(true)),
        (text("b"), CborValue::Bool(false)),
    ]);
    assert_eq!(
        format!("{:?}", cbor_to_json(&table)),
        "Object([(\"a\", Bool(true)), (\"b\", Bool(false))])"
    );
}

#[test]
fn bytes_and_tags_become_plain_values() {
    let bytes = CborValue::Bytes(vec![0, 255, 16]);
    match cbor_to_json(&bytes) {
        JsonValue::Text(t) => assert_eq!(t, "AP8Q"),
        _ => panic!("expected a text"),
    }
    let padded = CborValue::Bytes(b"a".to_vec());
    match cbor_to_json(&padded) {
        JsonValue::Text(t) => assert_eq!(t, "YQ=="),
        _ => panic!("expected a text"),
    }
    let tagged = CborValue::Tag(1, Box::new(CborValue::Bool(true)));
    assert!(matches!(cbor_to_json(&tagged), JsonValue::Bool(true)));
    let nan = CborValue::Float(f64::NAN.to_bits());
    assert!(matches!(cbor_to_json(&nan), JsonValue::Null));
}

#[test]
fn keys_that_are_no_texts_are_shown() {
    let table = CborValue::Table(vec![(
        CborValue::Integer(CborInteger::from_u64(7)),
        CborValue::Null,
    )]);
    match cbor_to_json(&table) {
        JsonValue::Object(members) => {
            assert_eq!(members[0].0, "Integer(Integer(7))");
            assert_eq!(
                members[0].0,
                format!("{:?}", ciborium::Value::Integer(7.into()))
            );
        }
        _ => panic!("expected an object"),
    }
}

#[test]
fn values_are_shown_as_the_codec_shows_them() {
    assert_eq!(debug_text(&CborValue::Null), "Null");
    assert_eq!(
        debug_text(&CborValue::Table(vec![(text("a"), CborValue::Float(1.5f64.to_bits()))])),
        "Map([(Text(\"a\"), Float(1.5))])"
    );
    assert_eq!(debug_text(&CborValue::Bytes(vec![1])), "Bytes([1])");
    assert_eq!(
        debug_text(&CborValue::Tag(3, Box::new(CborValue::Array(Vec::new())))),
        "Tag(3, Array([]))"
    );
    let negative = CborValue::Integer(CborInteger::from_i64(-5));
    assert_eq!(debug_text(&negative), "Integer(Integer(-5))");
}

#[test]
fn values_pass_through_the_codec() {
    let stored = ciborium::Value::Map(vec![
        (ciborium::Value::Text("n".to_owned()), ciborium::Value::Integer((-7).into())),
        (
            ciborium::Value::Integer(u64::MAX.into()),
            ciborium::Value::Array(vec![
                ciborium::Value::Null,
                ciborium::Value::Bool(true),
                ciborium::Value::Bytes(vec![1, 2]),
                ciborium::Value::Float(-0.5),
            ]),
        ),
        (
            ciborium::Value::Tag(9, Box::new(ciborium::Value::Text("t".to_owned()))),
            ciborium::Value::Integer(
                ciborium::value::Integer::try_from(-18446744073709551616i128).unwrap(),
            ),
        ),
    ]);
    let value = from_ciborium(stored.clone());
    match &value {
        CborValue::Table(entries) => {
            assert_eq!(entries.len(), 3);
            match &entries[0].1 {
                CborValue::Integer(n) => assert_eq!(n.to_i128(), -7),
                _ => panic!("expected an integer"),
            }
            match &entries[2].1 {
                CborValue::Integer(n) => assert_eq!(n.to_i128(), -18446744073709551616),
                _ => panic!("expected an integer"),
            }
        }
        _ => panic!("expected a table"),
    }
    assert_eq!(to_ciborium(&value), stored);
    let nan = CborValue::Float(0x7ff8_0000_0000_1234);
    match from_ciborium(to_ciborium(&nan)) {
        CborValue::Float(bits) => assert_eq!(bits, 0x7ff8_0000_0000_1234),
        _ => panic!("expected a float"),
    }
    assert_eq!(CborInteger::from_i128(-1), CborInteger::from_i64(-1));
    assert_eq!(CborInteger::from_i128(18446744073709551615), CborInteger::from_u64(u64::MAX));
}

#[test]
fn broken_json_is_none() {
    assert!(parse_json("").is_none());
    assert!(parse_json("{").is_none());
    assert!(parse_json("1 2").is_none());
    assert!(parse_json("nul").is_none());
}

#[test]
fn text_objects_are_written_without_white_space() {
    let members = vec![
        ("a".to_owned(), "x\"y".to_owned()),
        ("b".to_owned(), "z".to_owned()),
    ];
    assert_eq!(write_text_object(members), "{\"a\":\"x\\\"y\",\"b\":\"z\"}");
}

#[test]
fn members_are_found_by_key() {
    let value = parse_json("{\"a\":{\"n\":7,\"t\":\"x\",\"m\":-7}}").unwrap();
    let a = value.get("a").unwrap();
    assert_eq!(a.get("n").unwrap().as_u64(), Some(7));
    assert_eq!(a.get("m").unwrap().as_u64(), None);
    assert_eq!(a.get("t").unwrap().as_text(), Some("x"));
    assert!(a.get("zz").is_none());
    assert!(value.get("n").is_none());
    assert!(a.get("n").unwrap().get("x").is_none());
}

#[test]
fn arguments_are_found_by_key_and_type() {
    let arguments = CborValue::Table(vec![
        (text("n"), text("not a number")),
        (text("n"), CborValue::Integer(CborInteger::from_i64(-3))),
        make_text_entry("t", "value"),
        (text("b"), CborValue::Bool(true)),
        (text("a"), CborValue::Array(vec![CborValue::Null])),
        (
            text("huge"),
            CborValue::Integer(CborInteger { negative: false, magnitude: u64::MAX }),
        ),
    ]);
    assert_eq!(cbor_map_text(&arguments, "t"), Some("value"));
    assert_eq!(cbor_map_text(&arguments, "b"), None);
    assert_eq!(cbor_map_int(&arguments, "n"), Some(-3));
    assert_eq!(cbor_map_int(&arguments, "huge"), None);
    assert_eq!(cbor_map_integer(&arguments, "huge"), Some(u64::MAX as i128));
    assert_eq!(optional_argument_int(&arguments, "n"), Some(-3));
    assert_eq!(optional_argument_text(&arguments, "t"), Some("value".to_owned()));
    assert_eq!(optional_argument_text(&arguments, "zz"), None);
    assert_eq!(optional_argument_bool(&arguments, "b"), Some(true));
    assert_eq!(argument_text(&arguments, "t"), Ok("value".to_owned()));
    assert_eq!(
        argument_text(&arguments, "zz"),
        Err("missing string argument: zz".to_owned())
    );
    assert_eq!(argument_array(&arguments, "a").unwrap().len(), 1);
    assert_eq!(
        argument_array(&arguments, "t").unwrap_err(),
        "missing array argument: t"
    );
}

#[test]
fn integers_keep_their_value() {
    assert_eq!(CborInteger::from_i64(i64::MIN).to_i128(), i64::MIN as i128);
    assert_eq!(CborInteger::from_u64(u64::MAX).to_i128(), u64::MAX as i128);
    assert_eq!(CborInteger::from_i64(0).to_i128(), 0);
    let copy = CborValue::Array(vec![text("x")]).duplicate();
    assert!(matches!(copy, CborValue::Array(items) if items.len() == 1));
}
