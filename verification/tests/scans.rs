use docdb::{
    new_database, scan, scan_range_eq, scan_range_gt, scan_range_gte, scan_range_lt,
    scan_range_lte, set_document, tv, DocDbError, JsonValue,
};
use tempfile::tempdir;

fn num(i: i64) -> JsonValue {
    JsonValue::Number((i as f64).to_bits())
}

fn s(text: &str) -> JsonValue {
    JsonValue::String(text.to_string())
}

fn obj(fields: Vec<(&str, JsonValue)>) -> JsonValue {
    JsonValue::Object(fields.into_iter().map(|(k, v)| (k.to_string(), v)).collect())
}

fn insert_test_data(db: &mut sled::Db) -> Result<(), DocDbError> {
    set_document(
        db,
        "doc1",
        &obj(vec![
            ("a", obj(vec![("b", num(1))])),
            ("name", s("mike")),
            ("age", num(40)),
        ]),
    )?;
    set_document(
        db,
        "doc2",
        &obj(vec![
            ("a", obj(vec![("c", num(2))])),
            ("name", s("john")),
            ("age", num(24)),
        ]),
    )?;
    set_document(
        db,
        "doc3",
        &obj(vec![
            ("a", obj(vec![("c", num(2))])),
            ("name", s("john")),
            ("age", num(110)),
        ]),
    )?;
    Ok(())
}

#[test]
fn lookup_eq_test() -> Result<(), DocDbError> {
    let tmp_dir = tempdir().unwrap();
    let mut db = new_database(tmp_dir.path().to_str().unwrap()).unwrap();
    insert_test_data(&mut db)?;

    let (s_, e) = scan_range_eq(vec![tv("name")], tv("john")).unwrap();
    let ids = scan(&db, &s_, &e)?;
    assert_eq!(vec!["doc2", "doc3"], ids);
    let (s_, e) = scan_range_eq(vec![tv("a"), tv("b")], tv(1)).unwrap();
    let ids = scan(&db, &s_, &e)?;
    assert_eq!(vec!["doc1"], ids);
    let (s_, e) = scan_range_eq(vec![tv("a"), tv("b")], tv(2)).unwrap();
    let ids = scan(&db, &s_, &e)?;
    assert_eq!(Vec::<String>::new(), ids);
    let (s_, e) = scan_range_eq(vec![tv("a"), tv("c")], tv(2)).unwrap();
    let ids = scan(&db, &s_, &e)?;
    assert_eq!(vec!["doc2", "doc3"], ids);

    Ok(())
}

#[test]
fn lookup_gte_test() -> Result<(), DocDbError> {
    let tmp_dir = tempdir().unwrap();
    let mut db = new_database(tmp_dir.path().to_str().unwrap()).unwrap();
    insert_test_data(&mut db)?;

    let (s_, e) = scan_range_gte(vec![tv("age")], tv(25)).unwrap();
    let ids = scan(&db, &s_, &e)?;
    assert_eq!(vec!["doc1", "doc3"], ids);
    let (s_, e) = scan_range_gte(vec![tv("name")], tv("mi")).unwrap();
    let ids = scan(&db, &s_, &e)?;
    assert_eq!(vec!["doc1"], ids);
    // Expected IDs are sorted in index order intentionally
    let (s_, e) = scan_range_gte(vec![tv("name")], tv("john")).unwrap();
    let ids = scan(&db, &s_, &e)?;
    assert_eq!(vec!["doc2", "doc3", "doc1"], ids);
    let (s_, e) = scan_range_gte(vec![tv("name")], tv(100_000_000)).unwrap();
    let ids = scan(&db, &s_, &e)?;
    assert_eq!(vec!["doc2", "doc3", "doc1"], ids);
    let (s_, e) = scan_range_gte(vec![tv("name")], tv(false)).unwrap();
    let ids = scan(&db, &s_, &e)?;
    assert_eq!(vec!["doc2", "doc3", "doc1"], ids);
    let (s_, e) = scan_range_gte(vec![tv("name")], tv(true)).unwrap();
    let ids = scan(&db, &s_, &e)?;
    assert_eq!(vec!["doc2", "doc3", "doc1"], ids);
    let (s_, e) = scan_range_gte(vec![tv("name")], tv("azzzzzzzzz")).unwrap();
    let ids = scan(&db, &s_, &e)?;
    assert_eq!(vec!["doc2", "doc3", "doc1"], ids);

    let (s_, e) = scan_range_gte(vec![tv("age")], tv("a")).unwrap();
    let ids = scan(&db, &s_, &e)?;
    assert_eq!(Vec::<String>::new(), ids);
    let (s_, e) = scan_range_gte(vec![tv("age")], tv(false)).unwrap();
    let ids = scan(&db, &s_, &e)?;
    assert_eq!(vec!["doc2", "doc1", "doc3"], ids);
    let (s_, e) = scan_range_gte(vec![tv("age")], tv(true)).unwrap();
    let ids = scan(&db, &s_, &e)?;
    assert_eq!(vec!["doc2", "doc1", "doc3"], ids);

    Ok(())
}

#[test]
fn lookup_gt_test() -> Result<(), DocDbError> {
    let tmp_dir = tempdir().unwrap();
    let mut db = new_database(tmp_dir.path().to_str().unwrap()).unwrap();
    insert_test_data(&mut db)?;

    let (s_, e) = scan_range_gt(vec![tv("age")], tv(24)).unwrap();
    let ids = scan(&db, &s_, &e)?;
    assert_eq!(vec!["doc1", "doc3"], ids);
    let (s_, e) = scan_range_gt(vec![tv("name")], tv("mi")).unwrap();
    let ids = scan(&db, &s_, &e)?;
    assert_eq!(vec!["doc1"], ids);
    // Expected IDs are sorted in index order intentionally
    let (s_, e) = scan_range_gt(vec![tv("name")], tv("john")).unwrap();
    let ids = scan(&db, &s_, &e)?;
    assert_eq!(vec!["doc1"], ids);
    let (s_, e) = scan_range_gt(vec![tv("name")], tv(100_000_000)).unwrap();
    let ids = scan(&db, &s_, &e)?;
    assert_eq!(vec!["doc2", "doc3", "doc1"], ids);
    let (s_, e) = scan_range_gt(vec![tv("name")], tv(false)).unwrap();
    let ids = scan(&db, &s_, &e)?;
    assert_eq!(vec!["doc2", "doc3", "doc1"], ids);
    let (s_, e) = scan_range_gt(vec![tv("name")], tv(true)).unwrap();
    let ids = scan(&db, &s_, &e)?;
    assert_eq!(vec!["doc2", "doc3", "doc1"], ids);
    let (s_, e) = scan_range_gt(vec![tv("name")], tv("azzzzzzzzz")).unwrap();
    let ids = scan(&db, &s_, &e)?;
    assert_eq!(vec!["doc2", "doc3", "doc1"], ids);

    let (s_, e) = scan_range_gt(vec![tv("age")], tv("a")).unwrap();
    let ids = scan(&db, &s_, &e)?;
    assert_eq!(Vec::<String>::new(), ids);
    let (s_, e) = scan_range_gt(vec![tv("age")], tv(false)).unwrap();
    let ids = scan(&db, &s_, &e)?;
    assert_eq!(vec!["doc2", "doc1", "doc3"], ids);
    let (s_, e) = scan_range_gt(vec![tv("age")], tv(true)).unwrap();
    let ids = scan(&db, &s_, &e)?;
    assert_eq!(vec!["doc2", "doc1", "doc3"], ids);

    Ok(())
}

#[test]
fn lookup_lt_test() -> Result<(), DocDbError> {
    let tmp_dir = tempdir().unwrap();
    let mut db = new_database(tmp_dir.path().to_str().unwrap()).unwrap();
    insert_test_data(&mut db)?;

    let (s_, e) = scan_range_lt(vec![tv("age")], tv(40)).unwrap();
    let ids = scan(&db, &s_, &e)?;
    assert_eq!(vec!["doc2"], ids);
    let (s_, e) = scan_range_lt(vec![tv("name")], tv("mi")).unwrap();
    let ids = scan(&db, &s_, &e)?;
    assert_eq!(vec!["doc2", "doc3"], ids);
    // Expected IDs are sorted in index order intentionally
    let (s_, e) = scan_range_lt(vec![tv("name")], tv("johna")).unwrap();
    let ids = scan(&db, &s_, &e)?;
    assert_eq!(vec!["doc2", "doc3"], ids);
    let (s_, e) = scan_range_lt(vec![tv("name")], tv("zaaaaaaaaaa")).unwrap();
    let ids = scan(&db, &s_, &e)?;
    assert_eq!(vec!["doc2", "doc3", "doc1"], ids);

    let (s_, e) = scan_range_lt(vec![tv("age")], tv("a")).unwrap();
    let ids = scan(&db, &s_, &e)?;
    assert_eq!(vec!["doc2", "doc1", "doc3"], ids);
    let (s_, e) = scan_range_lt(vec![tv("age")], tv(false)).unwrap();
    let ids = scan(&db, &s_, &e)?;
    assert_eq!(Vec::<String>::new(), ids);
    let (s_, e) = scan_range_lt(vec![tv("age")], tv(true)).unwrap();
    let ids = scan(&db, &s_, &e)?;
    assert_eq!(Vec::<String>::new(), ids);

    Ok(())
}

#[test]
fn lookup_lte_test() -> Result<(), DocDbError> {
    let tmp_dir = tempdir().unwrap();
    let mut db = new_database(tmp_dir.path().to_str().unwrap()).unwrap();
    insert_test_data(&mut db)?;

    let (s_, e) = scan_range_lte(vec![tv("age")], tv(40)).unwrap();
    let ids = scan(&db, &s_, &e)?;
    assert_eq!(vec!["doc2", "doc1"], ids);
    let (s_, e) = scan_range_lte(vec![tv("name")], tv("mi")).unwrap();
    let ids = scan(&db, &s_, &e)?;
    assert_eq!(vec!["doc2", "doc3"], ids);
    // Expected IDs are sorted in index order intentionally
    let (s_, e) = scan_range_lte(vec![tv("name")], tv("johna")).unwrap();
    let ids = scan(&db, &s_, &e)?;
    assert_eq!(vec!["doc2", "doc3"], ids);
    let (s_, e) = scan_range_lte(vec![tv("name")], tv("zaaaaaaaaaa")).unwrap();
    let ids = scan(&db, &s_, &e)?;
    assert_eq!(vec!["doc2", "doc3", "doc1"], ids);

    let (s_, e) = scan_range_lte(vec![tv("age")], tv("a")).unwrap();
    let ids = scan(&db, &s_, &e)?;
    assert_eq!(vec!["doc2", "doc1", "doc3"], ids);
    let (s_, e) = scan_range_lte(vec![tv("age")], tv(false)).unwrap();
    let ids = scan(&db, &s_, &e)?;
    assert_eq!(Vec::<String>::new(), ids);
    let (s_, e) = scan_range_lte(vec![tv("age")], tv(true)).unwrap();
    let ids = scan(&db, &s_, &e)?;
    assert_eq!(Vec::<String>::new(), ids);

    Ok(())
}
