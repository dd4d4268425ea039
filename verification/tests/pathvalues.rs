use docdb::{get_path_values, JsonValue, TaggableValue};

fn num(f: f64) -> JsonValue {
    JsonValue::Number(f.to_bits())
}

fn s(text: &str) -> JsonValue {
    JsonValue::String(text.to_string())
}

fn tnum(f: f64) -> TaggableValue {
    TaggableValue::Number(f.to_bits())
}

fn ts(text: &str) -> TaggableValue {
    TaggableValue::String(text.to_string())
}

#[test]
fn test_get_path_value() {
    // Fields stand in ascending name order, as a map-backed JSON
    // object iterates them.
    let v = JsonValue::Object(vec![
        ("age".to_string(), num(43.0)),
        ("name".to_string(), s("John Doe")),
        (
            "pets".to_string(),
            JsonValue::Object(vec![
                (
                    "bennie".to_string(),
                    JsonValue::Object(vec![
                        ("age".to_string(), num(9.0)),
                        ("species".to_string(), s("cat")),
                    ]),
                ),
                (
                    "frankie".to_string(),
                    JsonValue::Object(vec![
                        ("age".to_string(), num(3.0)),
                        ("species".to_string(), s("cat")),
                    ]),
                ),
            ]),
        ),
        (
            "phones".to_string(),
            JsonValue::Array(vec![s("+44 1234567"), s("+44 2345678")]),
        ),
    ]);
    let path_values = get_path_values(&v);
    let expected = vec![
        (
            vec![ts("phones"), tnum(1.0)],
            ts("+44 2345678"),
        ),
        (
            vec![ts("phones"), tnum(0.0)],
            ts("+44 1234567"),
        ),
        (
            vec![ts("pets"), ts("frankie"), ts("species")],
            ts("cat"),
        ),
        (
            vec![ts("pets"), ts("frankie"), ts("age")],
            tnum(3.0),
        ),
        (
            vec![ts("pets"), ts("bennie"), ts("species")],
            ts("cat"),
        ),
        (
            vec![ts("pets"), ts("bennie"), ts("age")],
            tnum(9.0),
        ),
        (vec![ts("name")], ts("John Doe")),
        (vec![ts("age")], tnum(43.0)),
    ];

    assert_eq!(path_values, expected);
}

#[test]
fn test_get_path_value_scalar_top_level() {
    // A scalar document indexes under the empty path.
    let v = s("hello");
    let path_values = get_path_values(&v);
    assert_eq!(path_values, vec![(vec![], ts("hello"))]);
}
