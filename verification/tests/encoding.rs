use docdb::{
    encode_document_key, encode_index_key, path_length, path_prefix, tv, TaggableValue,
};

const KEY_DOCUMENT: u8 = 1;

#[test]
fn test_encode_document_key() {
    let tests = vec![
        ("foo".to_string(), vec![44, 0x66, 0x6f, 0x6f]),
        (
            "møkå".to_string(),
            vec![44, 0x6d, 0xc3, 0xb8, 0x6b, 0xc3, 0xa5],
        ),
    ];
    for t in tests {
        let mut expected = vec![KEY_DOCUMENT, 0x00];
        expected.extend(t.1);
        assert_eq!(encode_document_key(&t.0), expected);
    }
}

#[test]
fn test_encode_null() {
    assert_eq!(TaggableValue::Null.encode().unwrap(), vec![0x28]);
}

#[test]
fn test_encode_bool() {
    assert_eq!(tv(true).encode().unwrap(), vec![0x2a]);
    assert_eq!(tv(false).encode().unwrap(), vec![0x29]);
}

#[test]
fn test_encode_number() {
    assert_eq!(
        tv(-1).encode().unwrap(),
        vec![
            0x2b, // number tag
            0x40, 0x0f, 0xff, 0xff, 0xff, 0xff, 0xff, 0xff // -1
        ]
    );
}

#[test]
fn test_encode_number_ordering() {
    let tests = vec![(1, 2), (-1, 1), (123, 321), (0, 1), (-1, 0)];
    for t in tests {
        assert!(tv(t.0).encode().unwrap() < tv(t.1).encode().unwrap());
    }
}

#[test]
fn test_encode_string() {
    assert_eq!(
        tv("foo").encode().unwrap(),
        vec![
            0x2c, // string tag
            0x66, 0x6f, 0x6f, // foo
        ]
    );
}

#[test]
fn test_encode_key() {
    assert_eq!(
        encode_index_key("foo", &vec![tv("phones"), tv(1)], &tv("+44 2345678")).unwrap(),
        vec![
            2,  // index namespace
            0,  // separator
            44, // string tag
            112, 104, 111, 110, 101, 115, // phones
            1,   // path separator
            43,  // number tag
            191, 240, 0, 0, 0, 0, 0, 0, // 1.0
            0,  // sep
            44, // string
            43, 52, 52, 32, 50, 51, 52, 53, 54, 55, 56, // phone no
            0,  // sep
            44, // string
            102, 111, 111 // foo
        ]
    )
}

#[test]
fn test_encode_key2() {
    assert_eq!(
        encode_index_key(
            "foo",
            &vec![tv("pets"), tv("bennie"), tv("age")],
            &tv(9),
        )
        .unwrap(),
        vec![
            2,  // index namespace
            0,  // separator
            44, // string
            112, 101, 116, 115, // pets
            1,   // path sep
            44,  // string
            98, 101, 110, 110, 105, 101, // bennie
            1,   // path sep
            44,  // string
            97, 103, 101, // age
            0,   // sep
            43,  // number
            192, 34, 0, 0, 0, 0, 0, 0, // 9
            0,  // sep
            44, // string
            102, 111, 111 // foo
        ]
    )
}

#[test]
fn test_encode_array_key() {
    assert_eq!(
        encode_index_key("foo", &vec![tv("pet"), tv(1)], &tv("cat")).unwrap(),
        vec![
            2, 0, // index key
            44, 112, 101, 116, 1, // string pet
            43, 191, 240, 0, 0, 0, 0, 0, 0, 0, // number 1.0
            44, 99, 97, 116, 0, // string cat
            44, 102, 111, 111 // string foo
        ],
    )
}

#[test]
fn test_index_key_path_prefix() {
    let k = encode_index_key("foo", &vec![tv("pet"), tv(1)], &tv("cat")).unwrap();
    let expected = vec![
        2, 0, // index key
        44, 112, 101, 116, 1, // string pet + path sep
        43, 191, 240, 0, 0, 0, 0, 0, 0, // number 1.0 (no sep)
    ];
    assert_eq!(path_length(&k[2..]).unwrap(), expected.len() - 2);
    assert_eq!(path_prefix(&k).unwrap(), &expected[2..]);
}

#[test]
fn test_index_key_path_prefix2() {
    let k = encode_index_key(
        "foo",
        &vec![tv("pet"), tv("pet"), tv("pet"), tv("pet"), tv(1)],
        &tv("cat"),
    )
    .unwrap();
    let expected = vec![
        2, 0, // index key
        44, 112, 101, 116, 1, // string pet + path sep
        44, 112, 101, 116, 1, // string pet + path sep
        44, 112, 101, 116, 1, // string pet + path sep
        44, 112, 101, 116, 1, // string pet + path sep
        43, 191, 240, 0, 0, 0, 0, 0, 0, // number 1.0 (no sep)
    ];
    assert_eq!(path_length(&k[2..]).unwrap(), expected.len() - 2);
    assert_eq!(path_prefix(&k).unwrap(), &expected[2..]);
}

#[test]
fn test_encode_inter_type_ordering() {
    // false, true, 0, "a" encode in ascending byte order.
    let f = tv(false).encode().unwrap();
    let t = tv(true).encode().unwrap();
    let zero = tv(0).encode().unwrap();
    let a = tv("a").encode().unwrap();
    assert!(f < t);
    assert!(t < zero);
    assert!(zero < a);
    let null = TaggableValue::Null.encode().unwrap();
    assert!(null < f);
}

#[test]
fn test_encode_rejects_nan() {
    let nan = TaggableValue::Number(f64::NAN.to_bits());
    assert!(nan.encode().is_err());
}

#[test]
fn test_encode_rejects_separator_bytes() {
    let bad = TaggableValue::String("a\u{0000}b".to_string());
    assert!(bad.encode().is_err());
    let bad2 = TaggableValue::String("a\u{0001}b".to_string());
    assert!(bad2.encode().is_err());
}
