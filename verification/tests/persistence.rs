use laws::database::Database;
use laws::json::JsonValue;
use laws::storage::Storage;

fn obj(fields: Vec<(&str, JsonValue)>) -> JsonValue {
    JsonValue::Obj(fields.into_iter().map(|(k, v)| (k.to_string(), v)).collect())
}

fn text(s: &str) -> JsonValue {
    JsonValue::Text(s.to_string())
}

fn key_desc(name: &str, datatype: &str) -> JsonValue {
    obj(vec![("name", text(name)), ("datatype", text(datatype))])
}

fn populated_db() -> Database {
    let mut db = Database::empty("./data".to_string());
    db.create_table(obj(vec![
        ("table_name", text("students")),
        ("primary_key", key_desc("grade", "UnsignedInt")),
        ("sort_key", key_desc("id", "UnsignedInt")),
    ]))
    .unwrap();
    db.create_table(obj(vec![
        ("table_name", text("words")),
        ("primary_key", key_desc("bucket", "String")),
        ("sort_key", key_desc("word", "String")),
    ]))
    .unwrap();
    for id in [2i128, 1, 3] {
        db.create_document(
            &"students".to_string(),
            obj(vec![
                ("grade", JsonValue::Int(9)),
                ("id", JsonValue::Int(id)),
                ("name", text("someone")),
            ]),
        )
        .unwrap();
    }
    db.create_document(
        &"words".to_string(),
        obj(vec![("bucket", text("b")), ("word", text("pear"))]),
    )
    .unwrap();
    db
}

#[test]
fn snapshot_then_reload_recovers_every_table() {
    let db = populated_db();
    let snapshot = db.snapshot_value();
    let db2 = Database::from_snapshot("./elsewhere".to_string(), &snapshot).unwrap();
    assert_eq!(db.read_db().unwrap(), db2.read_db().unwrap());
    for name in ["students", "words"] {
        let name = name.to_string();
        assert_eq!(db.read_table(&name).unwrap(), db2.read_table(&name).unwrap());
    }
    // and the reloaded store snapshots to the same value again
    assert_eq!(db2.snapshot_value(), snapshot);
}

#[test]
fn snapshot_of_empty_store_is_empty_array() {
    let db = Database::empty("./data".to_string());
    assert_eq!(db.snapshot_value(), JsonValue::Arr(vec![]));
    let db2 = Database::from_snapshot("./data".to_string(), &JsonValue::Arr(vec![])).unwrap();
    assert_eq!(db2.read_db().unwrap(), obj(vec![("tables", JsonValue::Arr(vec![]))]));
}

#[test]
fn from_snapshot_rejects_non_array() {
    match Database::from_snapshot("./data".to_string(), &JsonValue::Int(1)) {
        Ok(_) => panic!("a non-array snapshot must be rejected"),
        Err(e) => assert!(matches!(e, laws::errors::DbError::BadInput(_))),
    }
}

#[test]
fn from_snapshot_rejects_bad_table_definition() {
    let snapshot = JsonValue::Arr(vec![obj(vec![("table_name", text("students"))])]);
    match Database::from_snapshot("./data".to_string(), &snapshot) {
        Ok(_) => panic!("a bad table definition must fail the load"),
        Err(e) => assert!(matches!(e, laws::errors::DbError::MissingFields(_))),
    }
}

#[test]
fn storage_surface_is_inert() {
    let mut st = Storage::new();
    st.create_bucket(&"b".to_string());
    st.read_bucket(&"b".to_string());
    st.delete_bucket(&"b".to_string());
}
