use conditional_ado::decimal::parse_index;
use conditional_ado::error::PathError;
use conditional_ado::json::JSON;
use conditional_ado::strings::split_path;
use conditional_ado::value::Value;

fn key_text(key: serde_cw_value::Value) -> String {
    match key {
        serde_cw_value::Value::String(s) => s,
        other => panic!("a key that is no text: {:?}", other),
    }
}

fn library_value(v: serde_cw_value::Value) -> Value {
    match v {
        serde_cw_value::Value::Bool(b) => Value::Bool(b),
        serde_cw_value::Value::U8(n) => Value::Integer(n.into()),
        serde_cw_value::Value::U16(n) => Value::Integer(n.into()),
        serde_cw_value::Value::U32(n) => Value::Integer(n.into()),
        serde_cw_value::Value::U64(n) => Value::Integer(n.into()),
        serde_cw_value::Value::I8(n) => Value::Integer(n.into()),
        serde_cw_value::Value::I16(n) => Value::Integer(n.into()),
        serde_cw_value::Value::I32(n) => Value::Integer(n.into()),
        serde_cw_value::Value::I64(n) => Value::Integer(n.into()),
        serde_cw_value::Value::Char(c) => Value::String(c.to_string()),
        serde_cw_value::Value::String(s) => Value::String(s),
        serde_cw_value::Value::Unit => Value::Null,
        serde_cw_value::Value::Option(None) => Value::Null,
        serde_cw_value::Value::Option(Some(inner)) => library_value(*inner),
        serde_cw_value::Value::Newtype(inner) => library_value(*inner),
        serde_cw_value::Value::Seq(items) => {
            Value::Sequence(items.into_iter().map(library_value).collect())
        }
        serde_cw_value::Value::Map(entries) => Value::Object(
            entries
                .into_iter()
                .map(|(k, v)| (key_text(k), library_value(v)))
                .collect(),
        ),
        serde_cw_value::Value::Bytes(bytes) => {
            Value::Sequence(bytes.into_iter().map(|b| Value::Integer(b.into())).collect())
        }
    }
}

fn parse_json(json_str: &str) -> JSON {
    let parsed: serde_cw_value::Value = serde_json_wasm::from_str(json_str).unwrap();
    JSON::from(library_value(parsed))
}

fn numbers(list: &[i128]) -> Value {
    Value::Sequence(list.iter().map(|n| Value::Integer(*n)).collect())
}

#[test]
fn test_vector_get() {
    // Parse JSON string with a vector
    let json_str = r#"{
            "data": [10, 20, 30]
        }"#;
    let parsed_json = parse_json(json_str);

    // Get a vector value
    let data = parsed_json.get("data").unwrap();
    assert_eq!(
        data,
        &Value::Sequence(vec![
            Value::Integer(10),
            Value::Integer(20),
            Value::Integer(30)
        ])
    );
}

#[test]
fn test_vector_update() {
    // Parse JSON string with a vector
    let json_str = r#"{
            "data": [10, 20, 30]
        }"#;
    let mut parsed_json = parse_json(json_str);

    // Update a vector value
    let new_data = Value::Sequence(vec![Value::Integer(40), Value::Integer(50)]);
    parsed_json.update("data", new_data).unwrap();

    // Get the updated vector value
    let updated_data = parsed_json.get("data").unwrap();
    assert_eq!(
        updated_data,
        &Value::Sequence(vec![Value::Integer(40), Value::Integer(50)])
    );
}

#[test]
fn test_nested_array_update() {
    // Parse JSON string with an array of nested objects
    let json_str = r#"
        {
            "data": [
                {
                    "numbers": [10, 20, 30]
                },
                {
                    "numbers": [40, 50, 60]
                }
            ]
        }"#;

    let mut parsed_json = parse_json(json_str);

    // Get the array of nested objects
    let array_value = parsed_json.get("data").unwrap();
    assert_eq!(
        array_value,
        &Value::Sequence(vec![
            Value::Object(vec![(
                "numbers".to_string(),
                Value::Sequence(vec![
                    Value::Integer(10),
                    Value::Integer(20),
                    Value::Integer(30)
                ]),
            )]),
            Value::Object(vec![(
                "numbers".to_string(),
                Value::Sequence(vec![
                    Value::Integer(40),
                    Value::Integer(50),
                    Value::Integer(60)
                ]),
            )])
        ])
    );
    println!("{parsed_json:?}");

    // Update the array value in the nested object at index 1
    let new_value = Value::Sequence(vec![Value::Integer(70), Value::Integer(80)]);
    parsed_json
        .update("data.1.numbers", new_value.clone())
        .unwrap();
    println!("{parsed_json:?}");

    // Get the updated array value in the nested object at index 1
    let updated_array_value = parsed_json.get("data.1.numbers").unwrap();
    assert_eq!(updated_array_value, &new_value);

    parsed_json
        .update("data.1.numbers.1", Value::Integer(10))
        .unwrap();
    println!("{parsed_json:?}");

    // Get the updated array value in the nested object at index 1
    let updated_array_value = parsed_json.get("data.1.numbers.1").unwrap();
    assert_eq!(updated_array_value, &Value::Integer(10));
}

#[test]
fn update_leaves_siblings_untouched() {
    let mut doc = parse_json(r#"{"data":[{"numbers":[10,20,30]},{"numbers":[40,50,60]}],"other":true}"#);
    doc.update("data.1.numbers.1", Value::Integer(10)).unwrap();
    assert_eq!(doc.get("data.0.numbers"), Some(&numbers(&[10, 20, 30])));
    assert_eq!(doc.get("data.1.numbers"), Some(&numbers(&[40, 10, 60])));
    assert_eq!(doc.get("data.1.numbers.0"), Some(&Value::Integer(40)));
    assert_eq!(doc.get("data.1.numbers.2"), Some(&Value::Integer(60)));
    assert_eq!(doc.get("other"), Some(&Value::Bool(true)));
}

#[test]
fn get_finds_nothing_without_failing() {
    let doc = parse_json(r#"{"data":[10,20,30],"name":"x","none":null}"#);
    assert_eq!(doc.get("missing"), None);
    assert_eq!(doc.get("data.3"), None);
    assert_eq!(doc.get("data.x"), None);
    assert_eq!(doc.get("data.-1"), None);
    assert_eq!(doc.get("data.1.deeper"), None);
    assert_eq!(doc.get("name.0"), None);
    assert_eq!(doc.get("none.key"), None);
    assert_eq!(doc.get(""), None);
    assert_eq!(doc.get("data."), None);
    assert_eq!(doc.get("data.2"), Some(&Value::Integer(30)));
    assert_eq!(doc.get("data.+2"), Some(&Value::Integer(30)));
    assert_eq!(doc.get("data.02"), Some(&Value::Integer(30)));
    assert_eq!(doc.get("none"), Some(&Value::Null));
}

#[test]
fn get_on_a_scalar_document() {
    let doc = JSON::from(Value::Integer(7));
    assert_eq!(doc.get(""), None);
    assert_eq!(doc.get("a"), None);
    assert_eq!(doc.value(), &Value::Integer(7));
}

#[test]
fn update_inserts_a_new_key_in_order() {
    let mut doc = parse_json(r#"{"b":1,"d":2}"#);
    doc.update("c", Value::Integer(3)).unwrap();
    doc.update("a", Value::Integer(4)).unwrap();
    doc.update("e", Value::Integer(5)).unwrap();
    doc.update("d", Value::Integer(6)).unwrap();
    assert_eq!(
        doc.value(),
        &Value::Object(vec![
            ("a".to_string(), Value::Integer(4)),
            ("b".to_string(), Value::Integer(1)),
            ("c".to_string(), Value::Integer(3)),
            ("d".to_string(), Value::Integer(6)),
            ("e".to_string(), Value::Integer(5)),
        ])
    );
    assert_eq!(doc.to_json_string(), r#"{"a":4,"b":1,"c":3,"d":6,"e":5}"#);
}

#[test]
fn update_makes_missing_objects_on_the_way() {
    let mut doc = parse_json(r#"{"a":{}}"#);
    doc.update("a.b.c", Value::Integer(1)).unwrap();
    assert_eq!(doc.get("a.b.c"), Some(&Value::Integer(1)));
    assert_eq!(doc.to_json_string(), r#"{"a":{"b":{"c":1}}}"#);
    doc.update("x.y", Value::Bool(false)).unwrap();
    assert_eq!(doc.to_json_string(), r#"{"a":{"b":{"c":1}},"x":{"y":false}}"#);
}

#[test]
fn update_refuses_an_index_out_of_bounds() {
    let mut doc = parse_json(r#"{"data":[10,20,30]}"#);
    let before = doc.clone();
    assert_eq!(
        doc.update("data.3", Value::Integer(1)),
        Err(PathError::IndexOutOfBounds)
    );
    assert_eq!(
        doc.update("data.7.x", Value::Integer(1)),
        Err(PathError::IndexOutOfBounds)
    );
    assert_eq!(doc.value(), before.value());
}

#[test]
fn update_refuses_a_segment_that_is_no_index() {
    let mut doc = parse_json(r#"{"data":[10,20,30]}"#);
    assert_eq!(
        doc.update("data.first", Value::Integer(1)),
        Err(PathError::InvalidIndex)
    );
    assert_eq!(
        doc.update("data.-1", Value::Integer(1)),
        Err(PathError::InvalidIndex)
    );
    assert_eq!(
        doc.update("data.", Value::Integer(1)),
        Err(PathError::InvalidIndex)
    );
    assert_eq!(
        doc.update("data.99999999999999999999999999", Value::Integer(1)),
        Err(PathError::InvalidIndex)
    );
    assert_eq!(doc.get("data"), Some(&numbers(&[10, 20, 30])));
}

#[test]
fn update_refuses_to_step_into_a_scalar() {
    let mut doc = parse_json(r#"{"name":"x","n":1,"t":true,"none":null}"#);
    assert_eq!(
        doc.update("name.first", Value::Integer(1)),
        Err(PathError::InvalidStructure)
    );
    assert_eq!(
        doc.update("n.a.b", Value::Integer(1)),
        Err(PathError::InvalidStructure)
    );
    assert_eq!(
        doc.update("t.0", Value::Integer(1)),
        Err(PathError::InvalidStructure)
    );
    assert_eq!(
        doc.update("none.x", Value::Integer(1)),
        Err(PathError::InvalidStructure)
    );
    let mut scalar = JSON::from(Value::Integer(7));
    assert_eq!(
        scalar.update("a", Value::Integer(1)),
        Err(PathError::InvalidStructure)
    );
}

#[test]
fn what_is_written_is_read_back() {
    let mut doc = parse_json(r#"{"a":[{"b":[1,2]},3],"c":"text"}"#);
    for (path, value) in [
        ("a.0.b.1", Value::String("new".to_string())),
        ("a.1", Value::Null),
        ("c", numbers(&[1])),
        ("d.e.f", Value::Bool(true)),
        ("", Value::Integer(0)),
    ] {
        doc.update(path, value.clone()).unwrap();
        assert_eq!(doc.get(path), Some(&value));
    }
}

#[test]
fn paths_split_at_every_dot() {
    assert_eq!(split_path("a.b.c"), vec!["a", "b", "c"]);
    assert_eq!(split_path("abc"), vec!["abc"]);
    assert_eq!(split_path(""), vec![""]);
    assert_eq!(split_path("."), vec!["", ""]);
    assert_eq!(split_path("a..b."), vec!["a", "", "b", ""]);
    assert_eq!(split_path("é.ü"), vec!["é", "ü"]);
    for path in ["a.b.c", "", ".", "a..b.", ".x", "data.1.numbers.1"] {
        let expected: Vec<String> = path.split('.').map(|s| s.to_string()).collect();
        assert_eq!(split_path(path), expected);
    }
}

#[test]
fn indices_are_read_as_the_machine_reads_them() {
    assert_eq!(parse_index("0"), Some(0));
    assert_eq!(parse_index("42"), Some(42));
    assert_eq!(parse_index("+42"), Some(42));
    assert_eq!(parse_index("0042"), Some(42));
    assert_eq!(parse_index(""), None);
    assert_eq!(parse_index("+"), None);
    assert_eq!(parse_index("-1"), None);
    assert_eq!(parse_index("-0"), None);
    assert_eq!(parse_index("1a"), None);
    assert_eq!(parse_index(" 1"), None);
    assert_eq!(parse_index("１"), None);
    let max = usize::MAX.to_string();
    assert_eq!(parse_index(&max), Some(usize::MAX));
    for text in [
        "0",
        "7",
        "+7",
        "-7",
        "007",
        "",
        "+",
        "++1",
        "1_000",
        "18446744073709551615",
        "18446744073709551616",
        "99999999999999999999999999",
        "x",
    ] {
        assert_eq!(parse_index(text), text.parse::<usize>().ok());
    }
}

#[test]
fn text_is_written_as_compact_json() {
    let doc = parse_json(
        r#" { "b" : [ 1 , -2 , true , false , null , "x" ] , "a" : { "k" : "v" } , "e" : [ ] , "o" : { } } "#,
    );
    assert_eq!(
        doc.to_json_string(),
        r#"{"a":{"k":"v"},"b":[1,-2,true,false,null,"x"],"e":[],"o":{}}"#
    );
    assert_eq!(Value::Null.to_json_string(), "null");
    assert_eq!(Value::Integer(-17).to_json_string(), "-17");
    assert_eq!(Value::String("a".to_string()).to_json_string(), "\"a\"");
    assert_eq!(Value::String("a".to_string()).to_text(), "a");
    assert_eq!(Value::Bool(true).to_text(), "true");
    assert_eq!(numbers(&[1, 2]).to_text(), "[1,2]");
}

#[test]
fn text_is_escaped_as_the_serializer_does() {
    for text in [
        "plain",
        "",
        "quote \" inside",
        "back \\ slash",
        "line\nbreak\r\ttab",
        "\u{0008}\u{000C}",
        "\u{0000}\u{0001}\u{001f}\u{001e}\u{000b}",
        "unicode é ü 漢字 🙂",
        "/ slash",
        "\u{007f}",
    ] {
        let expected = serde_json_wasm::to_string(text).unwrap();
        assert_eq!(Value::String(text.to_string()).to_json_string(), expected);
        let key = Value::Object(vec![(text.to_string(), Value::Null)]);
        let mut map = std::collections::BTreeMap::new();
        map.insert(text.to_string(), ());
        assert_eq!(key.to_json_string(), serde_json_wasm::to_string(&map).unwrap());
    }
    assert_eq!(
        Value::String("\u{0001}\u{001f}".to_string()).to_json_string(),
        "\"\\u0001\\u001F\""
    );
}

#[test]
fn text_agrees_with_the_serializer_on_documents() {
    for json in [
        r#"{"data":[10,20,30]}"#,
        r#"{"z":1,"a":{"y":[{"x":"\n"},[],{}],"b":null},"m":-5}"#,
        r#"[1,[2,[3,[4]]],"five",{"six":6}]"#,
        r#"18446744073709551615"#,
        r#"-9223372036854775808"#,
        r#""only a text""#,
        r#"null"#,
    ] {
        let outside: serde_cw_value::Value = serde_json_wasm::from_str(json).unwrap();
        let expected = serde_json_wasm::to_string(&outside).unwrap();
        assert_eq!(library_value(outside).to_json_string(), expected);
    }
}

#[test]
fn a_copy_holds_the_same() {
    let doc = parse_json(r#"{"a":[{"b":[1,2]},3],"c":"text","d":null}"#);
    let copy = doc.clone();
    assert_eq!(doc.value(), copy.value());
    assert_eq!(doc.value().clone(), library_value(serde_json_wasm::from_str(r#"{"a":[{"b":[1,2]},3],"c":"text","d":null}"#).unwrap()));
}
