use laws::errors::DbError;
use laws::json::JsonValue;
use laws::keys::Key;
use laws::keys::KeyDatatype;
use laws::keys::extract_key;
use laws::keys::str_eq;
use laws::keys::str_lt;
use laws::keys::validate;
use laws::validation::check_key_fields_exist;
use laws::validation::check_string_fields_exist;

fn obj(fields: Vec<(&str, JsonValue)>) -> JsonValue {
    JsonValue::Obj(fields.into_iter().map(|(k, v)| (k.to_string(), v)).collect())
}

fn text(s: &str) -> JsonValue {
    JsonValue::Text(s.to_string())
}

#[test]
fn datatype_wire_names() {
    assert_eq!(KeyDatatype::Null(()).to_str(), "Null");
    assert_eq!(KeyDatatype::Boolean(true).to_str(), "Boolean");
    assert_eq!(KeyDatatype::SignedInt(-4).to_str(), "SignedInt");
    assert_eq!(KeyDatatype::UnsignedInt(4).to_str(), "UnsignedInt");
    assert_eq!(KeyDatatype::Text("x".to_string()).to_str(), "String");
}

#[test]
fn datatype_codes() {
    assert_eq!(KeyDatatype::Null(()).to_int(), 0);
    assert_eq!(KeyDatatype::Boolean(false).to_int(), 1);
    assert_eq!(KeyDatatype::SignedInt(0).to_int(), 2);
    assert_eq!(KeyDatatype::UnsignedInt(0).to_int(), 3);
    assert_eq!(KeyDatatype::Text(String::new()).to_int(), 5);
}

#[test]
fn datatype_code_round_trip() {
    for code in [0u8, 1, 2, 3, 5] {
        assert_eq!(KeyDatatype::from_int(code).to_int(), code);
    }
    // unknown codes fall back to Null
    assert_eq!(KeyDatatype::from_int(4).to_int(), 0);
    assert_eq!(KeyDatatype::from_int(77).to_int(), 0);
}

#[test]
fn datatype_name_round_trip() {
    for name in ["Null", "Boolean", "SignedInt", "UnsignedInt", "String"] {
        assert_eq!(KeyDatatype::from_str(name).to_str(), name);
    }
    // unknown names fall back to Null
    assert_eq!(KeyDatatype::from_str("Float").to_str(), "Null");
    assert_eq!(KeyDatatype::from_str("").to_str(), "Null");
}

#[test]
fn string_comparisons() {
    assert!(str_eq("abc", "abc"));
    assert!(!str_eq("abc", "abd"));
    assert!(str_lt("abc", "abd"));
    assert!(str_lt("ab", "abc"));
    assert!(!str_lt("abc", "abc"));
    assert!(!str_lt("b", "abc"));
}

#[test]
fn key_ordering_within_variant() {
    let a = KeyDatatype::SignedInt(-2);
    let b = KeyDatatype::SignedInt(7);
    assert!(a.key_lt(&b));
    assert!(!b.key_lt(&a));
    assert!(!a.key_lt(&a));
    let s = KeyDatatype::Text("apple".to_string());
    let t = KeyDatatype::Text("banana".to_string());
    assert!(s.key_lt(&t));
    assert!(s.key_eq(&KeyDatatype::Text("apple".to_string())));
    assert!(!s.key_eq(&t));
}

#[test]
fn extract_key_reads_typed_value() {
    let key = Key { name: "grade".to_string(), datatype: KeyDatatype::UnsignedInt(0) };
    let doc = obj(vec![("grade", JsonValue::Int(9)), ("name", text("Amy"))]);
    let got = extract_key(&key, &doc).unwrap();
    assert!(got.key_eq(&KeyDatatype::UnsignedInt(9)));
}

#[test]
fn extract_key_missing_field() {
    let key = Key { name: "grade".to_string(), datatype: KeyDatatype::UnsignedInt(0) };
    let doc = obj(vec![("name", text("Amy"))]);
    let e = extract_key(&key, &doc).unwrap_err();
    assert!(matches!(e, DbError::MissingFields(_)));
    assert_eq!(
        e.message(),
        "Missing Fields! Field grade must exist and be of type UnsignedInt."
    );
}

#[test]
fn extract_key_wrong_type_is_missing_fields() {
    let key = Key { name: "grade".to_string(), datatype: KeyDatatype::UnsignedInt(0) };
    let doc = obj(vec![("grade", text("nine"))]);
    let e = extract_key(&key, &doc).unwrap_err();
    assert!(matches!(e, DbError::MissingFields(_)));
}

#[test]
fn extract_key_negative_not_unsigned() {
    let key = Key { name: "n".to_string(), datatype: KeyDatatype::UnsignedInt(0) };
    let doc = obj(vec![("n", JsonValue::Int(-1))]);
    assert!(matches!(
        extract_key(&key, &doc),
        Err(DbError::MissingFields(_))
    ));
    let signed = Key { name: "n".to_string(), datatype: KeyDatatype::SignedInt(0) };
    let got = extract_key(&signed, &doc).unwrap();
    assert!(got.key_eq(&KeyDatatype::SignedInt(-1)));
}

#[test]
fn extract_key_rejects_non_object() {
    let key = Key { name: "grade".to_string(), datatype: KeyDatatype::UnsignedInt(0) };
    let e = extract_key(&key, &JsonValue::Int(3)).unwrap_err();
    assert!(matches!(e, DbError::BadInput(_)));
    assert_eq!(e.message(), "Bad Input! Payload must be a valid JSON object!");
}

#[test]
fn extract_key_null_datatype_asks_nothing() {
    let key = Key { name: "whatever".to_string(), datatype: KeyDatatype::Null(()) };
    let doc = obj(vec![("other", JsonValue::Bool(true))]);
    let got = extract_key(&key, &doc).unwrap();
    assert!(got.key_eq(&KeyDatatype::Null(())));
}

#[test]
fn validate_accepts_each_variant() {
    let doc = obj(vec![
        ("b", JsonValue::Bool(true)),
        ("s", JsonValue::Int(-3)),
        ("u", JsonValue::Int(3)),
        ("t", text("x")),
    ]);
    let cases = vec![
        ("b", KeyDatatype::Boolean(false)),
        ("s", KeyDatatype::SignedInt(0)),
        ("u", KeyDatatype::UnsignedInt(0)),
        ("t", KeyDatatype::Text(String::new())),
    ];
    for (name, datatype) in cases {
        let key = Key { name: name.to_string(), datatype };
        assert!(validate(&key, &doc).is_ok());
    }
}

#[test]
fn check_string_fields_reports_first_failure() {
    let doc = obj(vec![("a", text("x")), ("b", JsonValue::Int(1))]);
    assert!(check_string_fields_exist(&doc, &["a"]).is_ok());
    let missing = check_string_fields_exist(&doc, &["a", "c"]).unwrap_err();
    assert!(matches!(missing, DbError::MissingFields(_)));
    assert_eq!(missing.message(), "Missing Fields! c field is missing or null");
    let not_string = check_string_fields_exist(&doc, &["a", "b"]).unwrap_err();
    assert!(matches!(not_string, DbError::BadInput(_)));
    assert_eq!(not_string.message(), "Bad Input! b field must be a string");
}

#[test]
fn check_key_fields_requires_descriptors() {
    let good = obj(vec![(
        "primary_key",
        obj(vec![("name", text("grade")), ("datatype", text("UnsignedInt"))]),
    )]);
    assert!(check_key_fields_exist(&good, &["primary_key"]).is_ok());

    let absent = check_key_fields_exist(&good, &["sort_key"]).unwrap_err();
    assert!(matches!(absent, DbError::MissingFields(_)));

    let not_object = obj(vec![("primary_key", text("grade"))]);
    let e = check_key_fields_exist(&not_object, &["primary_key"]).unwrap_err();
    assert!(matches!(e, DbError::BadInput(_)));
    assert_eq!(e.message(), "Bad Input! primary_key must be a valid JSON object");

    let incomplete = obj(vec![("primary_key", obj(vec![("name", text("grade"))]))]);
    let e = check_key_fields_exist(&incomplete, &["primary_key"]).unwrap_err();
    assert!(matches!(e, DbError::MissingFields(_)));
    assert_eq!(e.message(), "Missing Fields! datatype field is missing or null");
}

#[test]
fn json_accessors() {
    let doc = obj(vec![("a", JsonValue::Int(5)), ("b", JsonValue::Null)]);
    assert!(doc.is_object());
    assert!(doc.get("a").unwrap().is_i64());
    assert!(doc.get("a").unwrap().is_u64());
    assert_eq!(doc.get("a").unwrap().as_i64(), Some(5));
    assert_eq!(doc.get("a").unwrap().as_u64(), Some(5));
    assert!(doc.get("missing").is_none());
    assert!(JsonValue::Int(-1).is_i64());
    assert!(!JsonValue::Int(-1).is_u64());
    assert!(!JsonValue::Int(i128::from(u64::MAX) + 1).is_u64());
    let copy = doc.deep_clone();
    assert_eq!(copy, doc);
}
