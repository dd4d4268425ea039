use docdb::{new_database, search_index, set_document, tv, DocDbError, JsonValue, QP};
use tempfile::tempdir;

fn num(i: i64) -> JsonValue {
    JsonValue::Number((i as f64).to_bits())
}

fn s(text: &str) -> JsonValue {
    JsonValue::String(text.to_string())
}

fn obj(fields: Vec<(&str, JsonValue)>) -> JsonValue {
    JsonValue::Object(fields.into_iter().map(|(k, v)| (k.to_string(), v)).collect())
}

fn insert_test_data(db: &mut sled::Db) -> Result<(), DocDbError> {
    set_document(
        db,
        "doc1",
        &obj(vec![
            ("a", obj(vec![("b", num(1))])),
            ("name", s("mike")),
            ("age", num(40)),
            ("pet", JsonValue::Array(vec![s("cat"), s("cat"), s("dog")])),
        ]),
    )?;
    set_document(
        db,
        "doc2",
        &obj(vec![
            ("a", obj(vec![("c", num(2))])),
            ("name", s("john")),
            ("age", num(24)),
        ]),
    )?;
    set_document(
        db,
        "doc3",
        &obj(vec![
            ("a", obj(vec![("c", num(2))])),
            ("name", s("john")),
            ("age", num(110)),
            ("pet", JsonValue::Array(vec![s("wombat")])),
        ]),
    )?;
    Ok(())
}

#[test]
fn query_eq() -> Result<(), DocDbError> {
    let tmp_dir = tempdir().unwrap();
    let mut db = new_database(tmp_dir.path().to_str().unwrap()).unwrap();
    insert_test_data(&mut db)?;

    let ids = search_index(&db, vec![QP::E { p: vec![tv("name")], v: tv("john") }])?;
    assert_eq!(vec!["doc2".to_string(), "doc3".to_string()], ids.results);

    let ids = search_index(
        &db,
        vec![
            QP::E { p: vec![tv("name")], v: tv("john") },
            QP::E { p: vec![tv("age")], v: tv(110) },
            QP::E { p: vec![tv("a"), tv("c")], v: tv(2) },
        ],
    )?;
    assert_eq!(vec!["doc3".to_string()], ids.results);

    let ids = search_index(
        &db,
        vec![
            QP::E { p: vec![tv("name")], v: tv("john") },
            QP::E { p: vec![tv("age")], v: tv(110) },
            QP::E { p: vec![tv("a"), tv("c")], v: tv(1) }, // this results in no matches
        ],
    )?;
    assert_eq!(Vec::<String>::new(), ids.results);

    Ok(())
}

#[test]
fn query_array_eq() -> Result<(), DocDbError> {
    let tmp_dir = tempdir().unwrap();
    let mut db = new_database(tmp_dir.path().to_str().unwrap()).unwrap();
    insert_test_data(&mut db)?;

    set_document(
        &mut db,
        "arrayed",
        &obj(vec![(
            "arrs",
            JsonValue::Array(vec![
                obj(vec![(
                    "animals",
                    JsonValue::Array(vec![s("cat"), s("wombat"), s("possum")]),
                )]),
                obj(vec![
                    ("animals", s("shark")),
                    (
                        "nums",
                        JsonValue::Array(vec![num(1), num(2), num(3), num(4), num(5)]),
                    ),
                ]),
            ]),
        )]),
    )?;
    set_document(
        &mut db,
        "arrayed2",
        &obj(vec![(
            "arrs",
            JsonValue::Array(vec![
                obj(vec![("animals", s("shark"))]),
                obj(vec![
                    ("animals", s("shark")),
                    (
                        "nums",
                        JsonValue::Array(vec![num(1), num(2), num(3), num(4), num(5)]),
                    ),
                ]),
            ]),
        )]),
    )?;

    let ids = search_index(
        &db,
        vec![QP::E { p: vec![tv("arrs"), tv(0), tv("animals"), tv(0)], v: tv("cat") }],
    )?;
    assert_eq!(vec!["arrayed".to_string()], ids.results);

    let ids = search_index(
        &db,
        vec![QP::E { p: vec![tv("arrs"), tv(0), tv("animals"), tv(2)], v: tv("possum") }],
    )?;
    assert_eq!(vec!["arrayed".to_string()], ids.results);

    let ids = search_index(
        &db,
        vec![QP::E { p: vec![tv("arrs"), tv(1), tv("animals"), tv(2)], v: tv("possum") }],
    )?;
    assert_eq!(Vec::<String>::new(), ids.results);

    let ids = search_index(
        &db,
        vec![QP::E { p: vec![tv("arrs"), tv(0), tv("animals")], v: tv("shark") }],
    )?;
    assert_eq!(vec!["arrayed2".to_string()], ids.results);

    let ids = search_index(
        &db,
        vec![QP::E { p: vec![tv("arrs"), tv(1), tv("nums"), tv(2)], v: tv(3) }],
    )?;
    assert_eq!(vec!["arrayed".to_string(), "arrayed2".to_string()], ids.results);

    let ids = search_index(
        &db,
        vec![QP::E { p: vec![tv("arrs"), tv(0), tv("nums"), tv(2)], v: tv(3) }],
    )?;
    assert_eq!(Vec::<String>::new(), ids.results);

    let ids = search_index(
        &db,
        // check that we can change schema from array to string
        vec![QP::E { p: vec![tv("arrs"), tv(0), tv("animals")], v: tv("shark") }],
    )?;
    assert_eq!(vec!["arrayed2".to_string()], ids.results);

    Ok(())
}

#[test]
fn query_gte() -> Result<(), DocDbError> {
    let tmp_dir = tempdir().unwrap();
    let mut db = new_database(tmp_dir.path().to_str().unwrap()).unwrap();
    insert_test_data(&mut db)?;

    let ids = search_index(&db, vec![QP::GTE { p: vec![tv("name")], v: tv("john") }])?;
    assert_eq!(
        vec!["doc1".to_string(), "doc2".to_string(), "doc3".to_string()],
        ids.results
    );
    let ids = search_index(
        &db,
        vec![
            QP::GTE { p: vec![tv("name")], v: tv("john") },
            QP::GTE { p: vec![tv("age")], v: tv(50) },
        ],
    )?;
    assert_eq!(vec!["doc3".to_string()], ids.results);

    set_document(
        &mut db,
        "arrayed",
        &obj(vec![(
            "arr",
            JsonValue::Array(vec![num(1), num(2), s("foo"), num(4)]),
        )]),
    )?;
    let ids = search_index(&db, vec![QP::GTE { p: vec![tv("arr"), tv(2)], v: tv(-1) }])?;
    assert_eq!(vec!["arrayed".to_string()], ids.results);
    let ids = search_index(&db, vec![QP::GTE { p: vec![tv("arr"), tv(2)], v: tv(-1) }])?;
    assert_eq!(vec!["arrayed".to_string()], ids.results);
    let ids = search_index(&db, vec![QP::GTE { p: vec![tv("arr"), tv(2)], v: tv("bar") }])?;
    assert_eq!(vec!["arrayed".to_string()], ids.results);

    Ok(())
}

#[test]
fn query_gt() -> Result<(), DocDbError> {
    let tmp_dir = tempdir().unwrap();
    let mut db = new_database(tmp_dir.path().to_str().unwrap()).unwrap();
    insert_test_data(&mut db)?;

    let ids = search_index(&db, vec![QP::GT { p: vec![tv("name")], v: tv("john") }])?;
    assert_eq!(vec!["doc1".to_string()], ids.results);
    Ok(())
}

#[test]
fn query_lt() -> Result<(), DocDbError> {
    let tmp_dir = tempdir().unwrap();
    let mut db = new_database(tmp_dir.path().to_str().unwrap()).unwrap();
    insert_test_data(&mut db)?;

    let ids = search_index(&db, vec![QP::LT { p: vec![tv("age")], v: tv(40) }])?;
    assert_eq!(vec!["doc2".to_string()], ids.results);
    Ok(())
}

#[test]
fn query_lte() -> Result<(), DocDbError> {
    let tmp_dir = tempdir().unwrap();
    let mut db = new_database(tmp_dir.path().to_str().unwrap()).unwrap();
    insert_test_data(&mut db)?;

    let ids = search_index(&db, vec![QP::LTE { p: vec![tv("age")], v: tv(40) }])?;
    assert_eq!(vec!["doc1".to_string(), "doc2".to_string()], ids.results);
    Ok(())
}

#[test]
fn query_search_short_circuit_empty_scan() -> Result<(), DocDbError> {
    let tmp_dir = tempdir().unwrap();
    let mut db = new_database(tmp_dir.path().to_str().unwrap()).unwrap();
    insert_test_data(&mut db)?;

    let ids = search_index(
        &db,
        vec![
            QP::LTE { p: vec![tv("age")], v: tv(4) },
            QP::E { p: vec![tv("name")], v: tv("john") },
        ],
    )?;
    assert_eq!(0, ids.results.len(), "wrong result count");
    assert_eq!(1, ids.stats.scans, "index scans not short circuited");
    let ids = search_index(
        &db,
        vec![
            QP::E { p: vec![tv("name")], v: tv("john") },
            QP::LTE { p: vec![tv("age")], v: tv(4) },
        ],
    )?;
    assert_eq!(0, ids.results.len(), "wrong result count");
    // age is moved to the start as queries are internally ordered
    // by field name before being executed.
    assert_eq!(1, ids.stats.scans, "index scans not short circuited");
    Ok(())
}

#[test]
fn query_search_collapse_scans() -> Result<(), DocDbError> {
    let tmp_dir = tempdir().unwrap();
    let mut db = new_database(tmp_dir.path().to_str().unwrap()).unwrap();
    insert_test_data(&mut db)?;

    let ids = search_index(
        &db,
        vec![
            QP::LTE { p: vec![tv("age")], v: tv(40) },
            QP::E { p: vec![tv("age")], v: tv(40) },
            QP::E { p: vec![tv("age")], v: tv(40) },
            QP::E { p: vec![tv("age2")], v: tv(4) },
            QP::E { p: vec![tv("age2")], v: tv(4) },
        ],
    )?;
    assert_eq!(0, ids.results.len(), "wrong result count");
    assert_eq!(2, ids.stats.scans, "index scans collapsed for same field");
    Ok(())
}
