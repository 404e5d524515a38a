use json_parser::{bool, parse, ws, JSONNumber, JSONValue};

/// The double that a parsed number denotes.
fn as_f64(n: &JSONNumber) -> f64 {
    let mut text = String::new();
    if n.negative {
        text.push('-');
    }
    text.extend(n.integer.iter());
    if !n.fraction.is_empty() {
        text.push('.');
        text.extend(n.fraction.iter());
    }
    if !n.exponent.is_empty() {
        text.push('e');
        if n.exponent_negative {
            text.push('-');
        }
        text.extend(n.exponent.iter());
    }
    text.parse::<f64>().unwrap()
}

/// The doubles of an array of numbers.
fn as_f64s(v: &JSONValue) -> Vec<f64> {
    match v {
        JSONValue::Array(items) => items
            .iter()
            .map(|item| match item {
                JSONValue::Number(n) => as_f64(n),
                other => panic!("not a number: {:?}", other),
            })
            .collect(),
        other => panic!("not an array: {:?}", other),
    }
}

fn number_of(v: &JSONValue) -> f64 {
    match v {
        JSONValue::Number(n) => as_f64(n),
        other => panic!("not a number: {:?}", other),
    }
}

#[test]
fn ws_empty() {
    let result = ws("");
    assert_eq!(result, "");
}

#[test]
fn ws_space() {
    let result = ws("\u{0020}");
    assert_eq!(result, "");
}

#[test]
fn ws_linefeed() {
    let result = ws("\u{000A}");
    assert_eq!(result, "");
}

#[test]
fn ws_tab() {
    let result = ws("\u{0009}");
    assert_eq!(result, "");
}

#[test]
fn ws_carriage_return() {
    let result = ws("\u{000D}");
    assert_eq!(result, "");
}

#[test]
fn bool_true() {
    match bool("true") {
        Ok((_, v)) => assert_eq!(v, JSONValue::True),
        Err(_) => panic!("Expected true"),
    }
}

#[test]
fn bool_false() {
    match bool("false") {
        Ok((_, v)) => assert_eq!(v, JSONValue::False),
        Err(_) => panic!("Expected false"),
    }
}

#[test]
fn json_bool_true() {
    match parse("true") {
        Ok(v) => assert_eq!(v, JSONValue::True),
        Err(_) => panic!("Expected true"),
    }
}

#[test]
fn json_bool_false() {
    match parse("false") {
        Ok(v) => assert_eq!(v, JSONValue::False),
        Err(_) => panic!("Expected false"),
    }
}

#[test]
fn json_null() {
    match parse("null") {
        Ok(v) => assert_eq!(v, JSONValue::Null),
        Err(_) => panic!("Expected null"),
    }
}

#[test]
fn json_integer_positive() {
    match parse("123") {
        Ok(v) => assert_eq!(number_of(&v), 123.0),
        Err(_) => panic!("Expected 123"),
    }
}

#[test]
fn json_integer_negative() {
    match parse("-123") {
        Ok(v) => assert_eq!(number_of(&v), -123.0),
        Err(_) => panic!("Expected -123"),
    }
}

#[test]
fn json_float_positive() {
    match parse("123.456") {
        Ok(v) => assert_eq!(number_of(&v), 123.456),
        Err(_) => panic!("Expected 123.456"),
    }
}

#[test]
fn json_float_negative() {
    match parse("-123.456") {
        Ok(v) => assert_eq!(number_of(&v), -123.456),
        Err(_) => panic!("Expected -123.456"),
    }
}

#[test]
fn json_float_negative_exp() {
    match parse("-123.456e-2") {
        Ok(v) => assert_eq!(number_of(&v), -1.23456),
        Err(_) => panic!("Expected -1.23456"),
    }
}

#[test]
fn json_float_positive_exp() {
    match parse("123.456e2") {
        Ok(v) => assert_eq!(number_of(&v), 12345.6),
        Err(_) => panic!("Expected 12345.6"),
    }
}

#[test]
fn json_basic_string() {
    match parse(r#""Hello, World!""#) {
        Ok(v) => assert_eq!(v, JSONValue::String("Hello, World!".to_string())),
        Err(_) => panic!("Expected \"Hello, World!\""),
    }
}

#[test]
fn json_escaped_newline() {
    let src = r#" 
        
        "hi there\nthis is a test"
        
        "#;

    let expected = "hi there\nthis is a test";

    match parse(src) {
        Ok(v) => {
            assert_eq!(v, JSONValue::String(expected.to_string()));
        }
        Err(_) => panic!("Expected \"hi there\nthis is a test\""),
    }
}

#[test]
fn json_list_of_numbers() {
    let src = r#"[1, 2, 3, 4, 5]"#;

    let expected = vec![1.0, 2.0, 3.0, 4.0, 5.0];

    match parse(src) {
        Ok(v) => {
            assert_eq!(as_f64s(&v), expected);
        }
        Err(_) => panic!("Expected [1, 2, 3, 4, 5]"),
    }
}

#[test]
fn json_empty_list() {
    let src = r#"[]"#;

    let expected = JSONValue::Array(vec![]);

    match parse(src) {
        Ok(v) => {
            assert_eq!(v, expected);
        }
        Err(_) => panic!("Expected []"),
    }
}
