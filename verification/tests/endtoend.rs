// end to end tests
use docdb::{
    delete_document, get_document, new_database, search_index, set_document, tv, JsonValue, QP,
};

fn num(i: i64) -> JsonValue {
    JsonValue::Number((i as f64).to_bits())
}

fn s(text: &str) -> JsonValue {
    JsonValue::String(text.to_string())
}

fn obj(fields: Vec<(&str, JsonValue)>) -> JsonValue {
    JsonValue::Object(fields.into_iter().map(|(k, v)| (k.to_string(), v)).collect())
}

fn person() -> JsonValue {
    obj(vec![
        ("name", s("John Doe")),
        ("age", num(43)),
        (
            "phones",
            JsonValue::Array(vec![s("+44 1234567"), s("+44 2345678")]),
        ),
        (
            "pets",
            obj(vec![
                (
                    "frankie",
                    obj(vec![("species", s("cat")), ("age", num(3))]),
                ),
                (
                    "bennie",
                    obj(vec![("species", s("cat")), ("age", num(9))]),
                ),
            ]),
        ),
    ])
}

#[test]
fn insert_and_readback() {
    let tmp_dir = tempfile::tempdir().unwrap();
    let mut db = new_database(tmp_dir.path().to_str().unwrap()).unwrap();

    let v = person();
    let expected = person();
    let key = "foo".to_string();

    assert!(
        set_document(&mut db, &key, &v).is_ok(),
        "doc should have been inserted"
    );
    assert!(
        get_document(&db, &key).is_ok_and(|o| o.is_some_and(|doc| {
            assert_eq!(doc, expected);
            true
        }))
    );
}

#[test]
fn test_delete() -> Result<(), sled::Error> {
    let tmp_dir = tempfile::tempdir().unwrap();
    let mut db = new_database(tmp_dir.path().to_str().unwrap()).unwrap();
    let v = obj(vec![("name", s("John Doe")), ("age", num(43))]);
    let docid = "foo".to_string();

    assert!(
        set_document(&mut db, &docid, &v).is_ok(),
        "doc should have been inserted"
    );
    assert!(
        get_document(&db, &docid).is_ok_and(|x| x.is_some()),
        "document was not deleted"
    );
    assert!(
        delete_document(&mut db, &docid).is_ok(),
        "doc should have been deleted"
    );

    // Check we cannot get it by ID
    assert!(
        get_document(&db, &docid).is_ok_and(|x| x.is_none()),
        "document was not deleted"
    );
    // Or search for it
    assert!(
        search_index(
            &db,
            vec![QP::E { p: vec![tv("name")], v: tv("John Doe") }],
        )
        .is_ok_and(|result| result.results.len() == 0),
        "document id found via search"
    );
    assert!(
        search_index(&db, vec![QP::E { p: vec![tv("age")], v: tv(43) }])
            .is_ok_and(|result| result.results.len() == 0),
        "document id found via search"
    );

    Ok(())
}

#[test]
fn overwrite_cleans_old_index_entries() {
    // After overwriting a document, predicates that only the old body
    // satisfied no longer find it.
    let tmp_dir = tempfile::tempdir().unwrap();
    let mut db = new_database(tmp_dir.path().to_str().unwrap()).unwrap();
    set_document(&mut db, "d", &obj(vec![("name", s("mike"))])).unwrap();
    set_document(&mut db, "d", &obj(vec![("name", s("john"))])).unwrap();

    let old = search_index(&db, vec![QP::E { p: vec![tv("name")], v: tv("mike") }]).unwrap();
    assert_eq!(Vec::<String>::new(), old.results);
    let new = search_index(&db, vec![QP::E { p: vec![tv("name")], v: tv("john") }]).unwrap();
    assert_eq!(vec!["d".to_string()], new.results);
}

#[test]
fn set_rejects_bad_values() {
    let tmp_dir = tempfile::tempdir().unwrap();
    let mut db = new_database(tmp_dir.path().to_str().unwrap()).unwrap();
    // NaN numbers are not accepted.
    let nan = obj(vec![("x", JsonValue::Number(f64::NAN.to_bits()))]);
    assert!(matches!(
        set_document(&mut db, "d", &nan),
        Err(docdb::DocDbError::BadValue)
    ));
    // Strings holding a reserved separator byte are not accepted.
    let sep = obj(vec![("x", s("a\u{0000}b"))]);
    assert!(matches!(
        set_document(&mut db, "d", &sep),
        Err(docdb::DocDbError::BadValue)
    ));
    // Doc ids holding a reserved separator byte are not accepted.
    assert!(matches!(
        set_document(&mut db, "a\u{0001}b", &obj(vec![("x", num(1))])),
        Err(docdb::DocDbError::BadValue)
    ));
    // An object with a repeated field name is not accepted.
    let dup = JsonValue::Object(vec![
        ("x".to_string(), num(1)),
        ("x".to_string(), num(2)),
    ]);
    assert!(matches!(
        set_document(&mut db, "d", &dup),
        Err(docdb::DocDbError::BadValue)
    ));
    // Nothing was stored along the way.
    assert!(get_document(&db, "d").is_ok_and(|x| x.is_none()));
}

#[test]
fn body_round_trips_every_kind() {
    // Null, booleans, numbers, strings, arrays and nested objects all
    // come back exactly as stored.
    let tmp_dir = tempfile::tempdir().unwrap();
    let mut db = new_database(tmp_dir.path().to_str().unwrap()).unwrap();
    let body = obj(vec![
        ("null", JsonValue::Null),
        ("t", JsonValue::Bool(true)),
        ("f", JsonValue::Bool(false)),
        ("n", JsonValue::Number((-12.5f64).to_bits())),
        ("s", s("hällo wörld")),
        (
            "arr",
            JsonValue::Array(vec![JsonValue::Null, num(7), s("x")]),
        ),
        ("o", obj(vec![("inner", JsonValue::Array(vec![]))])),
    ]);
    let expected = obj(vec![
        ("null", JsonValue::Null),
        ("t", JsonValue::Bool(true)),
        ("f", JsonValue::Bool(false)),
        ("n", JsonValue::Number((-12.5f64).to_bits())),
        ("s", s("hällo wörld")),
        (
            "arr",
            JsonValue::Array(vec![JsonValue::Null, num(7), s("x")]),
        ),
        ("o", obj(vec![("inner", JsonValue::Array(vec![]))])),
    ]);
    set_document(&mut db, "k", &body).unwrap();
    let back = get_document(&db, "k").unwrap().unwrap();
    assert_eq!(back, expected);
}

#[test]
fn delete_absent_document_is_ok() {
    // Absence is treated as success, so deleting twice equals deleting
    // once.
    let tmp_dir = tempfile::tempdir().unwrap();
    let mut db = new_database(tmp_dir.path().to_str().unwrap()).unwrap();
    assert!(delete_document(&mut db, "nobody").is_ok());
    set_document(&mut db, "foo", &obj(vec![("age", num(1))])).unwrap();
    assert!(delete_document(&mut db, "foo").is_ok());
    assert!(delete_document(&mut db, "foo").is_ok());
    assert!(get_document(&db, "foo").is_ok_and(|x| x.is_none()));
}
