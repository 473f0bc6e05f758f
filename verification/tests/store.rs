use laws::database::Database;
use laws::errors::DbError;
use laws::json::JsonValue;
use laws::table::Table;

fn obj(fields: Vec<(&str, JsonValue)>) -> JsonValue {
    JsonValue::Obj(fields.into_iter().map(|(k, v)| (k.to_string(), v)).collect())
}

fn text(s: &str) -> JsonValue {
    JsonValue::Text(s.to_string())
}

fn key_desc(name: &str, datatype: &str) -> JsonValue {
    obj(vec![("name", text(name)), ("datatype", text(datatype))])
}

fn students_def() -> JsonValue {
    obj(vec![
        ("table_name", text("students")),
        ("primary_key", key_desc("grade", "UnsignedInt")),
        ("sort_key", key_desc("id", "UnsignedInt")),
    ])
}

fn amy() -> JsonValue {
    obj(vec![("grade", JsonValue::Int(9)), ("id", JsonValue::Int(1)), ("name", text("Amy"))])
}

fn amy_query() -> JsonValue {
    obj(vec![("grade", JsonValue::Int(9)), ("id", JsonValue::Int(1))])
}

fn students_db() -> Database {
    let mut db = Database::empty("./data".to_string());
    assert_eq!(db.create_table(students_def()).unwrap(), JsonValue::Null);
    db
}

#[test]
fn create_table_returns_null() {
    let mut db = Database::empty("./data".to_string());
    let r = db.create_table(students_def()).unwrap();
    assert_eq!(r, JsonValue::Null);
    let names = db.read_db().unwrap();
    assert_eq!(names, obj(vec![("tables", JsonValue::Arr(vec![text("students")]))]));
}

#[test]
fn create_document_returns_null() {
    let mut db = students_db();
    let r = db.create_document(&"students".to_string(), amy()).unwrap();
    assert_eq!(r, JsonValue::Null);
}

#[test]
fn read_document_returns_stored_document() {
    let mut db = students_db();
    db.create_document(&"students".to_string(), amy()).unwrap();
    let got = db.read_document(&"students".to_string(), amy_query()).unwrap();
    assert_eq!(got, amy());
}

#[test]
fn update_document_merges_fields() {
    let mut db = students_db();
    db.create_document(&"students".to_string(), amy()).unwrap();
    let patch = obj(vec![
        ("grade", JsonValue::Int(9)),
        ("id", JsonValue::Int(1)),
        ("name", text("Amy B.")),
    ]);
    let r = db.update_document(&"students".to_string(), patch.deep_clone()).unwrap();
    assert_eq!(r, JsonValue::Null);
    let got = db.read_document(&"students".to_string(), amy_query()).unwrap();
    assert_eq!(got, patch);
}

#[test]
fn update_document_adds_new_fields() {
    let mut db = students_db();
    db.create_document(&"students".to_string(), amy()).unwrap();
    let patch = obj(vec![
        ("grade", JsonValue::Int(9)),
        ("id", JsonValue::Int(1)),
        ("club", text("chess")),
    ]);
    db.update_document(&"students".to_string(), patch).unwrap();
    let got = db.read_document(&"students".to_string(), amy_query()).unwrap();
    let expected = obj(vec![
        ("grade", JsonValue::Int(9)),
        ("id", JsonValue::Int(1)),
        ("name", text("Amy")),
        ("club", text("chess")),
    ]);
    assert_eq!(got, expected);
}

#[test]
fn update_document_without_stored_document_upserts() {
    let mut db = students_db();
    let r = db.update_document(&"students".to_string(), amy()).unwrap();
    assert_eq!(r, JsonValue::Null);
    let got = db.read_document(&"students".to_string(), amy_query()).unwrap();
    assert_eq!(got, amy());
}

#[test]
fn delete_document_then_read_returns_null() {
    let mut db = students_db();
    db.create_document(&"students".to_string(), amy()).unwrap();
    let r = db.delete_document(&"students".to_string(), amy_query()).unwrap();
    assert_eq!(r, JsonValue::Null);
    let got = db.read_document(&"students".to_string(), amy_query()).unwrap();
    assert_eq!(got, JsonValue::Null);
}

#[test]
fn read_never_inserted_returns_null_not_error() {
    let mut db = students_db();
    let got = db.read_document(&"students".to_string(), amy_query()).unwrap();
    assert_eq!(got, JsonValue::Null);
    db.create_document(&"students".to_string(), amy()).unwrap();
    let other = obj(vec![("grade", JsonValue::Int(9)), ("id", JsonValue::Int(2))]);
    assert_eq!(db.read_document(&"students".to_string(), other).unwrap(), JsonValue::Null);
    let other_partition = obj(vec![("grade", JsonValue::Int(10)), ("id", JsonValue::Int(1))]);
    assert_eq!(
        db.read_document(&"students".to_string(), other_partition).unwrap(),
        JsonValue::Null
    );
}

#[test]
fn delete_absent_document_is_not_an_error() {
    let mut db = students_db();
    let r = db.delete_document(&"students".to_string(), amy_query()).unwrap();
    assert_eq!(r, JsonValue::Null);
}

#[test]
fn create_document_twice_same_payload_is_idempotent() {
    let mut db = students_db();
    db.create_document(&"students".to_string(), amy()).unwrap();
    let before = db.read_table(&"students".to_string()).unwrap();
    db.create_document(&"students".to_string(), amy()).unwrap();
    let after = db.read_table(&"students".to_string()).unwrap();
    assert_eq!(before, after);
}

#[test]
fn create_document_twice_second_payload_wins() {
    let mut db = students_db();
    db.create_document(&"students".to_string(), amy()).unwrap();
    let second = obj(vec![
        ("grade", JsonValue::Int(9)),
        ("id", JsonValue::Int(1)),
        ("name", text("Amy the Second")),
    ]);
    db.create_document(&"students".to_string(), second.deep_clone()).unwrap();
    let got = db.read_document(&"students".to_string(), amy_query()).unwrap();
    assert_eq!(got, second);
}

#[test]
fn document_op_with_missing_key_field_leaves_state_unchanged() {
    let mut db = students_db();
    db.create_document(&"students".to_string(), amy()).unwrap();
    let before = db.read_table(&"students".to_string()).unwrap();
    let bad = obj(vec![("grade", JsonValue::Int(9)), ("name", text("Bob"))]);
    let e = db.create_document(&"students".to_string(), bad).unwrap_err();
    assert!(matches!(e, DbError::MissingFields(_)));
    let wrong_type = obj(vec![("grade", text("nine")), ("id", JsonValue::Int(2))]);
    let e = db.create_document(&"students".to_string(), wrong_type).unwrap_err();
    assert!(matches!(e, DbError::MissingFields(_)));
    let after = db.read_table(&"students".to_string()).unwrap();
    assert_eq!(before, after);
}

#[test]
fn create_table_with_missing_pieces_leaves_map_unchanged() {
    let mut db = students_db();
    let before = db.read_db().unwrap();

    let no_name = obj(vec![
        ("primary_key", key_desc("grade", "UnsignedInt")),
        ("sort_key", key_desc("id", "UnsignedInt")),
    ]);
    assert!(matches!(db.create_table(no_name), Err(DbError::MissingFields(_))));

    let no_primary = obj(vec![
        ("table_name", text("courses")),
        ("sort_key", key_desc("id", "UnsignedInt")),
    ]);
    assert!(matches!(db.create_table(no_primary), Err(DbError::MissingFields(_))));

    let no_sort = obj(vec![
        ("table_name", text("courses")),
        ("primary_key", key_desc("grade", "UnsignedInt")),
    ]);
    assert!(matches!(db.create_table(no_sort), Err(DbError::MissingFields(_))));

    let name_not_string = obj(vec![
        ("table_name", JsonValue::Int(4)),
        ("primary_key", key_desc("grade", "UnsignedInt")),
        ("sort_key", key_desc("id", "UnsignedInt")),
    ]);
    assert!(matches!(db.create_table(name_not_string), Err(DbError::BadInput(_))));

    let key_not_object = obj(vec![
        ("table_name", text("courses")),
        ("primary_key", text("grade")),
        ("sort_key", key_desc("id", "UnsignedInt")),
    ]);
    assert!(matches!(db.create_table(key_not_object), Err(DbError::BadInput(_))));

    let after = db.read_db().unwrap();
    assert_eq!(before, after);
}

#[test]
fn absent_table_reports_table_not_found() {
    let mut db = students_db();
    let name = "courses".to_string();
    assert!(matches!(db.read_table(&name), Err(DbError::TableNotFound(_))));
    assert!(matches!(db.delete_table(&name), Err(DbError::TableNotFound(_))));
    assert!(matches!(
        db.create_document(&name, amy()),
        Err(DbError::TableNotFound(_))
    ));
    let e = db.read_document(&name, amy_query()).unwrap_err();
    assert!(matches!(e, DbError::TableNotFound(_)));
    assert_eq!(e.message(), "Table Not Found! Table does not exist");
    assert!(matches!(
        db.update_document(&name, amy()),
        Err(DbError::TableNotFound(_))
    ));
    assert!(matches!(
        db.delete_document(&name, amy_query()),
        Err(DbError::TableNotFound(_))
    ));
}

#[test]
fn delete_table_removes_it() {
    let mut db = students_db();
    let name = "students".to_string();
    assert_eq!(db.delete_table(&name).unwrap(), JsonValue::Null);
    assert!(matches!(db.read_table(&name), Err(DbError::TableNotFound(_))));
    assert_eq!(db.read_db().unwrap(), obj(vec![("tables", JsonValue::Arr(vec![]))]));
}

#[test]
fn create_table_replaces_same_name() {
    let mut db = students_db();
    db.create_document(&"students".to_string(), amy()).unwrap();
    db.create_table(students_def()).unwrap();
    // the replacing table starts empty
    let got = db.read_document(&"students".to_string(), amy_query()).unwrap();
    assert_eq!(got, JsonValue::Null);
    let names = db.read_db().unwrap();
    assert_eq!(names, obj(vec![("tables", JsonValue::Arr(vec![text("students")]))]));
}

#[test]
fn read_table_lists_documents_sorted_by_sort_value() {
    let mut db = students_db();
    let name = "students".to_string();
    for id in [3i128, 1, 2] {
        let doc = obj(vec![("grade", JsonValue::Int(9)), ("id", JsonValue::Int(id))]);
        db.create_document(&name, doc).unwrap();
    }
    let snap = db.read_table(&name).unwrap();
    let expected_docs = JsonValue::Arr(vec![
        obj(vec![("grade", JsonValue::Int(9)), ("id", JsonValue::Int(1))]),
        obj(vec![("grade", JsonValue::Int(9)), ("id", JsonValue::Int(2))]),
        obj(vec![("grade", JsonValue::Int(9)), ("id", JsonValue::Int(3))]),
    ]);
    let expected = obj(vec![
        ("table_name", text("students")),
        ("primary_key", key_desc("grade", "UnsignedInt")),
        ("sort_key", key_desc("id", "UnsignedInt")),
        ("data", expected_docs),
    ]);
    assert_eq!(snap, expected);
}

#[test]
fn table_new_bulk_loads_embedded_data() {
    let def = obj(vec![
        ("table_name", text("students")),
        ("primary_key", key_desc("grade", "UnsignedInt")),
        ("sort_key", key_desc("id", "UnsignedInt")),
        (
            "data",
            JsonValue::Arr(vec![
                obj(vec![("grade", JsonValue::Int(9)), ("id", JsonValue::Int(2))]),
                obj(vec![("grade", JsonValue::Int(9)), ("id", JsonValue::Int(1))]),
            ]),
        ),
    ]);
    let t = Table::new(&def).unwrap();
    let snap = t.read_table().unwrap();
    let expected_docs = JsonValue::Arr(vec![
        obj(vec![("grade", JsonValue::Int(9)), ("id", JsonValue::Int(1))]),
        obj(vec![("grade", JsonValue::Int(9)), ("id", JsonValue::Int(2))]),
    ]);
    let expected = obj(vec![
        ("table_name", text("students")),
        ("primary_key", key_desc("grade", "UnsignedInt")),
        ("sort_key", key_desc("id", "UnsignedInt")),
        ("data", expected_docs),
    ]);
    assert_eq!(snap, expected);
}

#[test]
fn table_new_bulk_load_last_document_wins() {
    let def = obj(vec![
        ("table_name", text("students")),
        ("primary_key", key_desc("grade", "UnsignedInt")),
        ("sort_key", key_desc("id", "UnsignedInt")),
        (
            "data",
            JsonValue::Arr(vec![
                obj(vec![
                    ("grade", JsonValue::Int(9)),
                    ("id", JsonValue::Int(1)),
                    ("name", text("first")),
                ]),
                obj(vec![
                    ("grade", JsonValue::Int(9)),
                    ("id", JsonValue::Int(1)),
                    ("name", text("second")),
                ]),
            ]),
        ),
    ]);
    let t = Table::new(&def).unwrap();
    let got = t.read_document(amy_query()).unwrap();
    assert_eq!(
        got,
        obj(vec![
            ("grade", JsonValue::Int(9)),
            ("id", JsonValue::Int(1)),
            ("name", text("second")),
        ])
    );
}

#[test]
fn table_new_failed_bulk_load_leaves_table_empty() {
    let def = obj(vec![
        ("table_name", text("students")),
        ("primary_key", key_desc("grade", "UnsignedInt")),
        ("sort_key", key_desc("id", "UnsignedInt")),
        (
            "data",
            JsonValue::Arr(vec![
                obj(vec![("grade", JsonValue::Int(9)), ("id", JsonValue::Int(1))]),
                obj(vec![("grade", JsonValue::Int(9))]),
            ]),
        ),
    ]);
    let t = Table::new(&def).unwrap();
    let got = t.read_document(amy_query()).unwrap();
    assert_eq!(got, JsonValue::Null);
}

#[test]
fn distinct_partitions_all_readable() {
    let mut db = students_db();
    let name = "students".to_string();
    for grade in 1i128..=5 {
        let doc = obj(vec![
            ("grade", JsonValue::Int(grade)),
            ("id", JsonValue::Int(1)),
            ("name", text("x")),
        ]);
        db.create_document(&name, doc).unwrap();
    }
    for grade in 1i128..=5 {
        let q = obj(vec![("grade", JsonValue::Int(grade)), ("id", JsonValue::Int(1))]);
        let got = db.read_document(&name, q).unwrap();
        let expected = obj(vec![
            ("grade", JsonValue::Int(grade)),
            ("id", JsonValue::Int(1)),
            ("name", text("x")),
        ]);
        assert_eq!(got, expected);
    }
}

#[test]
fn distinct_sort_keys_no_lost_updates() {
    let mut db = students_db();
    let name = "students".to_string();
    for id in 1i128..=5 {
        let doc = obj(vec![("grade", JsonValue::Int(9)), ("id", JsonValue::Int(id))]);
        db.create_document(&name, doc).unwrap();
    }
    for id in 1i128..=5 {
        let q = obj(vec![("grade", JsonValue::Int(9)), ("id", JsonValue::Int(id))]);
        let got = db.read_document(&name, q).unwrap();
        assert_eq!(got, obj(vec![("grade", JsonValue::Int(9)), ("id", JsonValue::Int(id))]));
    }
}

#[test]
fn text_keyed_table_orders_lexicographically() {
    let def = obj(vec![
        ("table_name", text("words")),
        ("primary_key", key_desc("bucket", "String")),
        ("sort_key", key_desc("word", "String")),
    ]);
    let mut t = Table::new(&def).unwrap();
    for w in ["pear", "apple", "plum"] {
        t.create_document(obj(vec![("bucket", text("b")), ("word", text(w))])).unwrap();
    }
    let snap = t.read_table().unwrap();
    let expected_docs = JsonValue::Arr(vec![
        obj(vec![("bucket", text("b")), ("word", text("apple"))]),
        obj(vec![("bucket", text("b")), ("word", text("pear"))]),
        obj(vec![("bucket", text("b")), ("word", text("plum"))]),
    ]);
    let expected = obj(vec![
        ("table_name", text("words")),
        ("primary_key", key_desc("bucket", "String")),
        ("sort_key", key_desc("word", "String")),
        ("data", expected_docs),
    ]);
    assert_eq!(snap, expected);
}
