use portalz_integrator::codec::encode;
use portalz_integrator::models::{
    ApiDeclaration, ColumnDeclaration, DbType, NumberText, RangeConstraints, StringConstraints,
    TableDeclaration, TimestampText,
};
use portalz_integrator::parse::{decode, DecodeError};

fn uuid_column(name: &str) -> ColumnDeclaration {
    ColumnDeclaration {
        name: name.to_string(),
        db_type: DbType::Uuid,
        is_nullable: false,
    }
}

fn full_declaration() -> ApiDeclaration {
    ApiDeclaration {
        name: "inventory-api".to_string(),
        db_name: "inventory".to_string(),
        tables: vec![
            TableDeclaration {
                name: "items".to_string(),
                columns: vec![
                    uuid_column("id"),
                    ColumnDeclaration {
                        name: "label".to_string(),
                        db_type: DbType::String(StringConstraints {
                            min_length: Some(1),
                            max_length: Some(64),
                        }),
                        is_nullable: false,
                    },
                    ColumnDeclaration {
                        name: "count".to_string(),
                        db_type: DbType::Int(RangeConstraints {
                            min_range: Some(0),
                            max_range: None,
                        }),
                        is_nullable: true,
                    },
                    ColumnDeclaration {
                        name: "weight".to_string(),
                        db_type: DbType::Float(RangeConstraints {
                            min_range: Some(NumberText { text: "0.5".to_string() }),
                            max_range: Some(NumberText { text: "-1e3".to_string() }),
                        }),
                        is_nullable: true,
                    },
                    ColumnDeclaration {
                        name: "added_at".to_string(),
                        db_type: DbType::DateTime(RangeConstraints {
                            min_range: Some(TimestampText {
                                text: "2020-01-01T00:00:00Z".to_string(),
                            }),
                            max_range: None,
                        }),
                        is_nullable: false,
                    },
                    ColumnDeclaration {
                        name: "active".to_string(),
                        db_type: DbType::Boolean,
                        is_nullable: false,
                    },
                ],
            },
            TableDeclaration { name: "audit".to_string(), columns: vec![] },
        ],
    }
}

#[test]
fn round_trip_full_declaration() {
    let d = full_declaration();
    let wire = encode(&d);
    let back = decode(wire.as_bytes()).expect("canonical document must decode");
    assert_eq!(back, d);
}

#[test]
fn round_trip_minimal_declaration() {
    let d = ApiDeclaration {
        name: "a".to_string(),
        db_name: String::new(),
        tables: vec![],
    };
    let wire = encode(&d);
    assert_eq!(wire, "{\"name\":\"a\",\"db_name\":\"\",\"tables\":[]}");
    assert_eq!(decode(wire.as_bytes()).unwrap(), d);
}

#[test]
fn scenario_orders_api() {
    let bytes = b"{\"name\":\"orders-api\",\"db_name\":\"orders\",\"tables\":[{\"name\":\"orders\",\"columns\":[{\"name\":\"id\",\"db_type\":{\"type\":\"Uuid\"},\"is_nullable\":false}]}]}";
    let d = decode(bytes).expect("scenario document must decode");
    assert_eq!(d.name, "orders-api");
    assert_eq!(d.db_name, "orders");
    assert_eq!(d.tables.len(), 1);
    assert_eq!(d.tables[0].name, "orders");
    assert_eq!(d.tables[0].columns.len(), 1);
    assert_eq!(d.tables[0].columns[0].name, "id");
    assert_eq!(d.tables[0].columns[0].db_type, DbType::Uuid);
    assert!(!d.tables[0].columns[0].is_nullable);
    // Re-encoding gives the same bytes back.
    assert_eq!(encode(&d).as_bytes(), bytes);
}

#[test]
fn malformed_json_is_rejected() {
    assert_eq!(decode(b"not json at all"), Err(DecodeError::MalformedDocument));
    assert_eq!(decode(b"{\"name\":\"x\""), Err(DecodeError::MalformedDocument));
    assert_eq!(decode(b""), Err(DecodeError::MalformedDocument));
}

#[test]
fn invalid_utf8_is_rejected() {
    assert_eq!(decode(&[0xff, 0xfe, b'{']), Err(DecodeError::InvalidUtf8));
}

#[test]
fn unknown_type_tag_is_rejected() {
    let bytes = b"{\"name\":\"x\",\"db_name\":\"y\",\"tables\":[{\"name\":\"t\",\"columns\":[{\"name\":\"c\",\"db_type\":{\"type\":\"Binary\"},\"is_nullable\":false}]}]}";
    assert_eq!(decode(bytes), Err(DecodeError::MalformedDocument));
}

#[test]
fn payload_behind_payload_free_tag_is_rejected() {
    let uuid_with_payload = b"{\"name\":\"x\",\"db_name\":\"y\",\"tables\":[{\"name\":\"t\",\"columns\":[{\"name\":\"c\",\"db_type\":{\"type\":\"Uuid\",\"min_length\":3},\"is_nullable\":false}]}]}";
    assert_eq!(decode(uuid_with_payload), Err(DecodeError::MalformedDocument));
    let boolean_with_payload = b"{\"name\":\"x\",\"db_name\":\"y\",\"tables\":[{\"name\":\"t\",\"columns\":[{\"name\":\"c\",\"db_type\":{\"type\":\"Boolean\",\"min_range\":null},\"is_nullable\":true}]}]}";
    assert_eq!(decode(boolean_with_payload), Err(DecodeError::MalformedDocument));
}

#[test]
fn inverted_bounds_are_accepted() {
    let bytes = b"{\"name\":\"x\",\"db_name\":\"y\",\"tables\":[{\"name\":\"t\",\"columns\":[{\"name\":\"c\",\"db_type\":{\"type\":\"String\",\"min_length\":5,\"max_length\":2},\"is_nullable\":false}]}]}";
    let d = decode(bytes).expect("ordering of bounds is not checked");
    match &d.tables[0].columns[0].db_type {
        DbType::String(c) => {
            assert_eq!(c.min_length, Some(5));
            assert_eq!(c.max_length, Some(2));
        },
        other => panic!("unexpected type: {:?}", other),
    }
    assert_eq!(encode(&d).as_bytes(), &bytes[..]);
}

#[test]
fn numbers_follow_the_canonical_form() {
    let zero = b"{\"name\":\"x\",\"db_name\":\"y\",\"tables\":[{\"name\":\"t\",\"columns\":[{\"name\":\"c\",\"db_type\":{\"type\":\"Int\",\"min_range\":0,\"max_range\":null},\"is_nullable\":false}]}]}";
    let d = decode(zero).expect("zero is a canonical number");
    match &d.tables[0].columns[0].db_type {
        DbType::Int(c) => {
            assert_eq!(c.min_range, Some(0));
            assert_eq!(c.max_range, None);
        },
        other => panic!("unexpected type: {:?}", other),
    }
    let leading_zero = b"{\"name\":\"x\",\"db_name\":\"y\",\"tables\":[{\"name\":\"t\",\"columns\":[{\"name\":\"c\",\"db_type\":{\"type\":\"Int\",\"min_range\":01,\"max_range\":null},\"is_nullable\":false}]}]}";
    assert_eq!(decode(leading_zero), Err(DecodeError::MalformedDocument));
    let too_big = b"{\"name\":\"x\",\"db_name\":\"y\",\"tables\":[{\"name\":\"t\",\"columns\":[{\"name\":\"c\",\"db_type\":{\"type\":\"Int\",\"min_range\":99999999999999999999999999,\"max_range\":null},\"is_nullable\":false}]}]}";
    assert_eq!(decode(too_big), Err(DecodeError::MalformedDocument));
}

#[test]
fn float_and_datetime_texts_round_trip() {
    let bytes = b"{\"name\":\"x\",\"db_name\":\"y\",\"tables\":[{\"name\":\"t\",\"columns\":[{\"name\":\"f\",\"db_type\":{\"type\":\"Float\",\"min_range\":-2.5,\"max_range\":1e9},\"is_nullable\":false},{\"name\":\"d\",\"db_type\":{\"type\":\"DateTime\",\"min_range\":\"2023-05-01T10:00:00Z\",\"max_range\":null},\"is_nullable\":true}]}]}";
    let d = decode(bytes).expect("float and datetime payloads must decode");
    match &d.tables[0].columns[0].db_type {
        DbType::Float(c) => {
            assert_eq!(c.min_range.as_ref().unwrap().text, "-2.5");
            assert_eq!(c.max_range.as_ref().unwrap().text, "1e9");
        },
        other => panic!("unexpected type: {:?}", other),
    }
    match &d.tables[0].columns[1].db_type {
        DbType::DateTime(c) => {
            assert_eq!(c.min_range.as_ref().unwrap().text, "2023-05-01T10:00:00Z");
            assert_eq!(c.max_range, None);
        },
        other => panic!("unexpected type: {:?}", other),
    }
    assert_eq!(encode(&d).as_bytes(), &bytes[..]);
}

#[test]
fn non_json_numbers_are_rejected() {
    // Tokens the JSON grammar refuses: truncated exponents, double dots,
    // leading plus, lone minus, leading zeros.
    for bad in ["5e+", "1e", "1.", "1.2.3", "+1", "-", "01.5", "--1", ".5"] {
        let doc = format!(
            "{{\"name\":\"x\",\"db_name\":\"y\",\"tables\":[{{\"name\":\"t\",\"columns\":[{{\"name\":\"c\",\"db_type\":{{\"type\":\"Float\",\"min_range\":{},\"max_range\":null}},\"is_nullable\":false}}]}}]}}",
            bad
        );
        assert_eq!(
            decode(doc.as_bytes()),
            Err(DecodeError::MalformedDocument),
            "token {:?} must be rejected",
            bad
        );
    }
    // A full JSON number with fraction, exponent and sign is accepted.
    let good = b"{\"name\":\"x\",\"db_name\":\"y\",\"tables\":[{\"name\":\"t\",\"columns\":[{\"name\":\"c\",\"db_type\":{\"type\":\"Float\",\"min_range\":0.5e+10,\"max_range\":null},\"is_nullable\":false}]}]}";
    let d = decode(good).expect("0.5e+10 is a JSON number");
    match &d.tables[0].columns[0].db_type {
        DbType::Float(c) => assert_eq!(c.min_range.as_ref().unwrap().text, "0.5e+10"),
        other => panic!("unexpected type: {:?}", other),
    }
}

#[test]
fn timestamps_must_have_rfc3339_shape() {
    for bad in ["hello", "2020-01-01", "2020-01-01T00:00:00", "2020-01-01 00:00:00Z", "2020-01-01T00:00:00+0200", "2020-01-01T00:00:00.Z"] {
        let doc = format!(
            "{{\"name\":\"x\",\"db_name\":\"y\",\"tables\":[{{\"name\":\"t\",\"columns\":[{{\"name\":\"c\",\"db_type\":{{\"type\":\"DateTime\",\"min_range\":\"{}\",\"max_range\":null}},\"is_nullable\":false}}]}}]}}",
            bad
        );
        assert_eq!(
            decode(doc.as_bytes()),
            Err(DecodeError::MalformedDocument),
            "timestamp {:?} must be rejected",
            bad
        );
    }
    let good = b"{\"name\":\"x\",\"db_name\":\"y\",\"tables\":[{\"name\":\"t\",\"columns\":[{\"name\":\"c\",\"db_type\":{\"type\":\"DateTime\",\"min_range\":\"2020-01-01T00:00:00.123+02:00\",\"max_range\":\"1999-12-31T23:59:59Z\"},\"is_nullable\":false}]}]}";
    let d = decode(good).expect("fractional seconds and numeric offsets are accepted");
    match &d.tables[0].columns[0].db_type {
        DbType::DateTime(c) => {
            assert_eq!(c.min_range.as_ref().unwrap().text, "2020-01-01T00:00:00.123+02:00");
            assert_eq!(c.max_range.as_ref().unwrap().text, "1999-12-31T23:59:59Z");
        },
        other => panic!("unexpected type: {:?}", other),
    }
    assert_eq!(encode(&d).as_bytes(), &good[..]);
}

#[test]
fn trailing_garbage_is_rejected() {
    let bytes = b"{\"name\":\"a\",\"db_name\":\"\",\"tables\":[]} ";
    assert_eq!(decode(bytes), Err(DecodeError::MalformedDocument));
}

#[test]
fn whitespace_is_not_part_of_the_convention() {
    let bytes = b"{ \"name\":\"a\",\"db_name\":\"\",\"tables\":[]}";
    assert_eq!(decode(bytes), Err(DecodeError::MalformedDocument));
}

#[test]
fn lone_or_unknown_escapes_are_rejected() {
    // A backslash must introduce one of the two escapes, `\"` or `\\`.
    let bad_escape = b"{\"name\":\"a\\nb\",\"db_name\":\"\",\"tables\":[]}";
    assert_eq!(decode(bad_escape), Err(DecodeError::MalformedDocument));
    let unterminated = b"{\"name\":\"a\\";
    assert_eq!(decode(unterminated), Err(DecodeError::MalformedDocument));
}

#[test]
fn non_ascii_names_round_trip() {
    let d = ApiDeclaration {
        name: "caf\u{e9}-api".to_string(),
        db_name: "donn\u{e9}es".to_string(),
        tables: vec![],
    };
    let wire = encode(&d);
    assert_eq!(decode(wire.as_bytes()).unwrap(), d);
}

#[test]
fn quoted_names_round_trip() {
    // The encoder escapes `"` and `\`; the decoder reads the escapes back,
    // so such names round-trip like any others.
    let d = ApiDeclaration {
        name: "a\"b".to_string(),
        db_name: "c\\d".to_string(),
        tables: vec![],
    };
    let wire = encode(&d);
    assert_eq!(wire, "{\"name\":\"a\\\"b\",\"db_name\":\"c\\\\d\",\"tables\":[]}");
    assert_eq!(decode(wire.as_bytes()).unwrap(), d);
}
