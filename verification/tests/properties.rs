use json_parser::decimal::decimal;
use json_parser::strings::quoted;
use json_parser::value::insert_member;
use json_parser::{
    array, bool, digit, digits, element, elements, exponent, fraction, integer, member, members,
    null, number, object, onenine, parse, string, value, ws, JSONNumber, JSONParseError,
    JSONValue,
};

fn chars(text: &str) -> Vec<char> {
    text.chars().collect()
}

/// A number value from its written parts.
fn num(negative: bool, integer: &str, fraction: &str, exponent_negative: bool, exponent: &str) -> JSONValue {
    JSONValue::Number(JSONNumber {
        negative,
        integer: chars(integer),
        fraction: chars(fraction),
        exponent_negative,
        exponent: chars(exponent),
    })
}

fn whole(text: &str) -> JSONValue {
    num(false, text, "", false, "")
}

fn text(s: &str) -> JSONValue {
    JSONValue::String(s.to_string())
}

/// The double that a parsed number denotes.
fn to_f64(v: &JSONValue) -> f64 {
    match v {
        JSONValue::Number(n) => {
            let mut written = String::new();
            if n.negative {
                written.push('-');
            }
            written.extend(n.integer.iter());
            if !n.fraction.is_empty() {
                written.push('.');
                written.extend(n.fraction.iter());
            }
            if !n.exponent.is_empty() {
                written.push('e');
                if n.exponent_negative {
                    written.push('-');
                }
                written.extend(n.exponent.iter());
            }
            written.parse::<f64>().unwrap()
        }
        other => panic!("not a number: {:?}", other),
    }
}

#[test]
fn keywords_yield_their_values() {
    assert_eq!(parse("null"), Ok(JSONValue::Null));
    assert_eq!(parse("true"), Ok(JSONValue::True));
    assert_eq!(parse("false"), Ok(JSONValue::False));
}

#[test]
fn keywords_consume_exactly_their_characters() {
    assert_eq!(null("null, 1"), Ok((", 1", JSONValue::Null)));
    assert_eq!(bool("true]"), Ok(("]", JSONValue::True)));
    assert_eq!(bool("falsetto"), Ok(("tto", JSONValue::False)));
    assert_eq!(value("null}"), Ok(("}", JSONValue::Null)));
    assert_eq!(value("true"), Ok(("", JSONValue::True)));
}

#[test]
fn keywords_must_be_whole() {
    assert_eq!(null("nul"), Err(JSONParseError::NotFound));
    assert_eq!(bool("tru"), Err(JSONParseError::NotFound));
    assert_eq!(bool("fals"), Err(JSONParseError::NotFound));
    assert_eq!(bool("True"), Err(JSONParseError::NotFound));
    assert_eq!(parse("nil"), Err(JSONParseError::NotFound));
}

#[test]
fn integers_keep_sign_and_digits() {
    for n in [0i64, 1, 7, 10, 42, 123, 1000, 65535, 9007199254740992, i64::MAX] {
        let written = decimal(n as u128);
        assert_eq!(written, n.to_string());
        let parsed = parse(&written).unwrap();
        assert_eq!(parsed, whole(&written));
        assert_eq!(to_f64(&parsed), n as f64);

        let negated = format!("-{}", written);
        let parsed = parse(&negated).unwrap();
        assert_eq!(parsed, num(true, &written, "", false, ""));
        assert_eq!(to_f64(&parsed), -(n as f64));
    }
}

#[test]
fn integers_of_any_length_are_kept() {
    let long = "123456789012345678901234567890";
    assert_eq!(parse(long), Ok(whole(long)));
    assert_eq!(to_f64(&parse(long).unwrap()), 123456789012345678901234567890.0);
}

#[test]
fn negative_zero_and_negative_fraction_keep_the_sign() {
    assert_eq!(parse("-0"), Ok(num(true, "0", "", false, "")));
    assert_eq!(parse("-0.5"), Ok(num(true, "0", "5", false, "")));
    assert_eq!(to_f64(&parse("-0.5").unwrap()), -0.5);
}

#[test]
fn fraction_and_exponent_combine() {
    assert_eq!(parse("123.456e2"), Ok(num(false, "123", "456", false, "2")));
    assert_eq!(to_f64(&parse("123.456e2").unwrap()), 12345.6);
    assert_eq!(parse("-123.456e-2"), Ok(num(true, "123", "456", true, "2")));
    assert_eq!(to_f64(&parse("-123.456e-2").unwrap()), -1.23456);
    assert_eq!(parse("1E+2"), Ok(num(false, "1", "", false, "2")));
    assert_eq!(to_f64(&parse("1E+2").unwrap()), 100.0);
    assert_eq!(parse("0.001"), Ok(num(false, "0", "001", false, "")));
    assert_eq!(parse("2e0010"), Ok(num(false, "2", "", false, "0010")));
}

#[test]
fn number_parts() {
    assert_eq!(onenine("12"), Ok(("2", '1')));
    assert_eq!(onenine("9"), Ok(("", '9')));
    assert_eq!(onenine("0"), Err(JSONParseError::NotFound));
    assert_eq!(onenine(""), Err(JSONParseError::NotFound));
    assert_eq!(onenine("a"), Err(JSONParseError::NotFound));
    assert_eq!(digit("05"), Ok(("5", '0')));
    assert_eq!(digit("5x"), Ok(("x", '5')));
    assert_eq!(digit("x"), Err(JSONParseError::NotFound));
    assert_eq!(digit(""), Err(JSONParseError::NotFound));
    assert_eq!(digits("0123,"), Ok((",", chars("0123"))));
    assert_eq!(digits("7"), Ok(("", chars("7"))));
    assert_eq!(digits(",1"), Err(JSONParseError::NotFound));
    assert_eq!(digits(""), Err(JSONParseError::NotFound));
    assert_eq!(integer("-12.5"), Ok((".5", (true, chars("12")))));
    assert_eq!(integer("120"), Ok(("", (false, chars("120")))));
    assert_eq!(integer("0"), Ok(("", (false, chars("0")))));
    assert_eq!(integer("-"), Err(JSONParseError::NotFound));
    assert_eq!(integer("+1"), Err(JSONParseError::NotFound));
    assert_eq!(integer(".5"), Err(JSONParseError::NotFound));
    assert_eq!(fraction(".25e1"), Ok(("e1", chars("25"))));
    assert_eq!(fraction("e1"), Ok(("e1", chars(""))));
    assert_eq!(fraction(""), Ok(("", chars(""))));
    assert_eq!(fraction(".x"), Err(JSONParseError::NotFound));
    assert_eq!(exponent("e10,"), Ok((",", (false, chars("10")))));
    assert_eq!(exponent("E-3"), Ok(("", (true, chars("3")))));
    assert_eq!(exponent("e+07"), Ok(("", (false, chars("07")))));
    assert_eq!(exponent("]"), Ok(("]", (false, chars("")))));
    assert_eq!(exponent("e"), Err(JSONParseError::NotFound));
    assert_eq!(exponent("e+"), Err(JSONParseError::NotFound));
    assert_eq!(exponent("E-x"), Err(JSONParseError::NotFound));
}

#[test]
fn leading_zero_ends_the_number() {
    assert_eq!(number("007"), Ok(("07", whole("0"))));
    assert_eq!(integer("007"), Ok(("07", (false, chars("0")))));
    assert_eq!(parse("[007]"), Err(JSONParseError::MissingClosing(3)));
    assert_eq!(parse("[01]"), Err(JSONParseError::MissingClosing(2)));
}

#[test]
fn malformed_fraction_or_exponent_fails_the_number() {
    assert_eq!(number("1."), Err(JSONParseError::NotFound));
    assert_eq!(number("1.e5"), Err(JSONParseError::NotFound));
    assert_eq!(number("1e"), Err(JSONParseError::NotFound));
    assert_eq!(number("1.5e-"), Err(JSONParseError::NotFound));
    assert_eq!(number("-"), Err(JSONParseError::NotFound));
    assert_eq!(number(".5"), Err(JSONParseError::NotFound));
    assert_eq!(number("+5"), Err(JSONParseError::NotFound));
    assert_eq!(parse("1."), Err(JSONParseError::NotFound));
    assert_eq!(parse("[1.]"), Err(JSONParseError::NotFound));
}

#[test]
fn non_ascii_digits_are_no_digits() {
    assert_eq!(digit("\u{0663}"), Err(JSONParseError::NotFound));
    assert_eq!(onenine("\u{00bd}"), Err(JSONParseError::NotFound));
    assert_eq!(number("\u{ff11}"), Err(JSONParseError::NotFound));
    assert_eq!(digits("1\u{0662}"), Ok(("\u{0662}", chars("1"))));
}

#[test]
fn every_escape_is_decoded() {
    let src = r#""\" \\ \/ \b \f \n \r \t""#;
    let expected = "\" \\ / \u{0008} \u{000c} \n \r \t";
    assert_eq!(parse(src), Ok(text(expected)));
    assert_eq!(string(src), Ok(("", text(expected))));
    assert_eq!(quoted(src), Ok(("", expected.to_string())));
}

#[test]
fn each_escape_alone() {
    assert_eq!(quoted(r#""\"""#), Ok(("", "\"".to_string())));
    assert_eq!(quoted(r#""\\""#), Ok(("", "\\".to_string())));
    assert_eq!(quoted(r#""\/""#), Ok(("", "/".to_string())));
    assert_eq!(quoted(r#""\b""#), Ok(("", "\u{0008}".to_string())));
    assert_eq!(quoted(r#""\f""#), Ok(("", "\u{000c}".to_string())));
    assert_eq!(quoted(r#""\n""#), Ok(("", "\n".to_string())));
    assert_eq!(quoted(r#""\r""#), Ok(("", "\r".to_string())));
    assert_eq!(quoted(r#""\t""#), Ok(("", "\t".to_string())));
}

#[test]
fn plain_string_is_the_slice_between_the_quotes() {
    assert_eq!(string(r#""abc" tail"#), Ok((" tail", text("abc"))));
    assert_eq!(string(r#""""#), Ok(("", text(""))));
    assert_eq!(string("\"h\u{e9}llo \u{2603} \u{1f600}\"!"), Ok(("!", text("h\u{e9}llo \u{2603} \u{1f600}"))));
    assert_eq!(string("\"line\nfeed\""), Ok(("", text("line\nfeed"))));
    assert_eq!(string("\"a/b\""), Ok(("", text("a/b"))));
}

#[test]
fn escaped_quote_does_not_end_the_string() {
    assert_eq!(string(r#""a\"b"c"#), Ok(("c", text("a\"b"))));
    assert_eq!(string(r#""a\\"b"#), Ok(("b", text("a\\"))));
}

#[test]
fn string_needs_an_opening_quote() {
    assert_eq!(string("abc\""), Err(JSONParseError::NotFound));
    assert_eq!(string(""), Err(JSONParseError::NotFound));
    assert_eq!(string(" \"a\""), Err(JSONParseError::NotFound));
}

#[test]
fn unsupported_escape_is_an_unexpected_character() {
    assert_eq!(string(r#""a\qb""#), Err(JSONParseError::UnexpectedChar(2)));
    assert_eq!(string(r#""\u0041""#), Err(JSONParseError::UnexpectedChar(5)));
    assert_eq!(string(r#""\x"#), Err(JSONParseError::UnexpectedChar(0)));
    assert_eq!(parse(r#"["\a"]"#), Err(JSONParseError::UnexpectedChar(2)));
}

#[test]
fn failure_counts_bytes_not_characters() {
    assert_eq!(string("\"\\\u{e9}\u{e9}\""), Err(JSONParseError::UnexpectedChar(3)));
    assert_eq!(string("\"\\q\u{2603}\""), Err(JSONParseError::UnexpectedChar(4)));
    assert_eq!(string("\"\u{2603}\u{2603}"), Err(JSONParseError::MissingClosing(6)));
    assert_eq!(parse("[\"\u{e9}\" \u{e9}"), Err(JSONParseError::MissingClosing(2)));
}

#[test]
fn unterminated_string_is_a_missing_closing() {
    assert_eq!(parse("\"abc"), Err(JSONParseError::MissingClosing(3)));
    assert_eq!(string("\"abc"), Err(JSONParseError::MissingClosing(3)));
    assert_eq!(string("\""), Err(JSONParseError::MissingClosing(0)));
    assert_eq!(string("\"abc\\"), Err(JSONParseError::MissingClosing(4)));
    assert_eq!(string("\"abc\\\""), Err(JSONParseError::MissingClosing(5)));
}

#[test]
fn unterminated_array_is_a_missing_closing() {
    assert_eq!(parse("[1,2"), Err(JSONParseError::MissingClosing(0)));
    assert_eq!(parse("[1,2 "), Err(JSONParseError::MissingClosing(0)));
    assert_eq!(parse("[1 2]"), Err(JSONParseError::MissingClosing(2)));
    assert_eq!(array("[1;2]"), Err(JSONParseError::MissingClosing(3)));
    assert_eq!(parse("[[1,2]"), Err(JSONParseError::MissingClosing(0)));
}

#[test]
fn unterminated_object_is_a_missing_closing() {
    assert_eq!(parse("{\"a\":1"), Err(JSONParseError::MissingClosing(0)));
    assert_eq!(parse("{\"a\":1 \"b\":2}"), Err(JSONParseError::MissingClosing(6)));
    assert_eq!(object("{\"a\":[1}"), Err(JSONParseError::MissingClosing(1)));
}

#[test]
fn empty_containers() {
    assert_eq!(parse("[]"), Ok(JSONValue::Array(vec![])));
    assert_eq!(parse("{}"), Ok(JSONValue::Object(vec![])));
    assert_eq!(parse("[ \n ]"), Ok(JSONValue::Array(vec![])));
    assert_eq!(parse("{\t}"), Ok(JSONValue::Object(vec![])));
    assert_eq!(array("[]]"), Ok(("]", JSONValue::Array(vec![]))));
    assert_eq!(object("{}x"), Ok(("x", JSONValue::Object(vec![]))));
}

#[test]
fn array_keeps_the_order() {
    let expected = JSONValue::Array(vec![whole("1"), whole("2"), whole("3"), whole("4"), whole("5")]);
    assert_eq!(parse("[1, 2, 3, 4, 5]"), Ok(expected));
    let mixed = JSONValue::Array(vec![
        JSONValue::Null,
        JSONValue::True,
        text("x"),
        JSONValue::Array(vec![JSONValue::False]),
        JSONValue::Object(vec![]),
    ]);
    assert_eq!(parse(r#"[null,true,"x",[false],{}]"#), Ok(mixed));
}

#[test]
fn list_rules() {
    assert_eq!(elements("1 , 2 ]"), Ok(("]", vec![whole("1"), whole("2")])));
    assert_eq!(elements("]"), Err(JSONParseError::NotFound));
    assert_eq!(elements("1, ]"), Err(JSONParseError::UnexpectedChar(1)));
    assert_eq!(element("  7  ,"), Ok((",", whole("7"))));
    assert_eq!(element("   "), Err(JSONParseError::NotFound));
    assert_eq!(member(" \"k\" : 1 }"), Ok(("}", ("k".to_string(), whole("1")))));
    assert_eq!(member("k:1"), Err(JSONParseError::NotFound));
    assert_eq!(member("\"k\":"), Err(JSONParseError::NotFound));
    assert_eq!(
        members("\"a\":1,\"a\":2}"),
        Ok(("}", vec![("a".to_string(), whole("1")), ("a".to_string(), whole("2"))]))
    );
    assert_eq!(members("\"a\":1,}"), Err(JSONParseError::UnexpectedChar(1)));
}

#[test]
fn trailing_comma_is_a_hard_failure() {
    assert_eq!(parse("[1,]"), Err(JSONParseError::UnexpectedChar(1)));
    assert_eq!(parse("{\"a\":1,}"), Err(JSONParseError::UnexpectedChar(1)));
    assert_eq!(parse("[1, \n ]"), Err(JSONParseError::UnexpectedChar(1)));
    assert_eq!(parse("[1,"), Err(JSONParseError::UnexpectedChar(0)));
    assert_eq!(parse("[[1,],2]"), Err(JSONParseError::UnexpectedChar(4)));
    assert_eq!(parse("[1,,2]"), Err(JSONParseError::UnexpectedChar(3)));
}

#[test]
fn missing_colon_is_an_unexpected_character() {
    assert_eq!(parse("{\"a\" 1}"), Err(JSONParseError::UnexpectedChar(2)));
    assert_eq!(parse("{\"a\""), Err(JSONParseError::UnexpectedChar(0)));
    assert_eq!(member("\"a\"=1"), Err(JSONParseError::UnexpectedChar(2)));
}

#[test]
fn nothing_recognisable_is_not_found() {
    assert_eq!(parse(""), Err(JSONParseError::NotFound));
    assert_eq!(parse("   \n"), Err(JSONParseError::NotFound));
    assert_eq!(parse("?"), Err(JSONParseError::NotFound));
    assert_eq!(parse("[x]"), Err(JSONParseError::NotFound));
    assert_eq!(parse("{x}"), Err(JSONParseError::NotFound));
    assert_eq!(value(" 1"), Err(JSONParseError::NotFound));
}

#[test]
fn later_member_replaces_earlier_one() {
    let parsed = parse("{\"a\":1,\"a\":2}").unwrap();
    assert_eq!(parsed.get("a"), Some(&whole("2")));
    assert_eq!(parsed, JSONValue::Object(vec![("a".to_string(), whole("2"))]));

    let parsed = parse(r#"{"a":1,"b":2,"a":3,"c":4,"b":5}"#).unwrap();
    assert_eq!(parsed.get("a"), Some(&whole("3")));
    assert_eq!(parsed.get("b"), Some(&whole("5")));
    assert_eq!(parsed.get("c"), Some(&whole("4")));
    assert_eq!(parsed.get("d"), None);
    match parsed {
        JSONValue::Object(members) => assert_eq!(members.len(), 3),
        other => panic!("not an object: {:?}", other),
    }
}

#[test]
fn get_looks_into_objects_only() {
    assert_eq!(parse("[1]").unwrap().get("0"), None);
    assert_eq!(parse("\"a\"").unwrap().get("a"), None);
    assert_eq!(parse("{}").unwrap().get(""), None);
    let parsed = parse(r#"{"": null, "k\n": {"in": true}}"#).unwrap();
    assert_eq!(parsed.get(""), Some(&JSONValue::Null));
    let inner = parsed.get("k\n").unwrap();
    assert_eq!(inner.get("in"), Some(&JSONValue::True));
    assert_eq!(parsed.get("in"), None);
}

#[test]
fn insert_member_replaces_or_appends() {
    let mut members = vec![];
    insert_member(&mut members, "a".to_string(), whole("1"));
    insert_member(&mut members, "b".to_string(), whole("2"));
    insert_member(&mut members, "a".to_string(), whole("3"));
    assert_eq!(
        members,
        vec![("a".to_string(), whole("3")), ("b".to_string(), whole("2"))]
    );
}

#[test]
fn whitespace_changes_nothing() {
    assert_eq!(parse("  \n\t [ 1 , 2 ] \r\n"), parse("[1,2]"));
    assert_eq!(
        parse("  \n\t [ 1 , 2 ] \r\n"),
        Ok(JSONValue::Array(vec![whole("1"), whole("2")]))
    );
    assert_eq!(
        parse(" { \"a\" \n:\t[ ] ,\r\n \"b\" : null } "),
        parse("{\"a\":[],\"b\":null}")
    );
    assert_eq!(element(" 1 \n x"), Ok(("x", whole("1"))));
}

#[test]
fn only_the_four_whitespace_characters_are_skipped() {
    assert_eq!(ws(" \n\t\r x \n"), "x \n");
    assert_eq!(ws("x"), "x");
    assert_eq!(ws("\u{a0}x"), "\u{a0}x");
    assert_eq!(ws("\u{b}x"), "\u{b}x");
    assert_eq!(ws("\u{c} x"), "\u{c} x");
    assert_eq!(ws(ws("  \t a ")), ws("  \t a "));
}

#[test]
fn what_follows_the_value_is_ignored() {
    assert_eq!(parse("1 2"), Ok(whole("1")));
    assert_eq!(parse("007"), Ok(whole("0")));
    assert_eq!(parse("nullnull"), Ok(JSONValue::Null));
    assert_eq!(parse("[] ]"), Ok(JSONValue::Array(vec![])));
}

#[test]
fn hard_failure_inside_is_not_tried_as_another_kind() {
    assert_eq!(value("[\"a"), Err(JSONParseError::MissingClosing(1)));
    assert_eq!(value("{\"a\":\"\\z\"}"), Err(JSONParseError::UnexpectedChar(2)));
    assert_eq!(parse("[1,{\"k\":[true,\"x]}]"), Err(JSONParseError::MissingClosing(4)));
}

#[test]
fn nested_document_parses_the_same_each_time() {
    let src = r#"
    {
        "statuses": [
            {
                "id": 505874924095815681,
                "text": "line one\nline two \"quoted\" \\ done",
                "coordinates": [-65.613616999999977, 43.420273000000009],
                "retweeted": false,
                "user": { "name": "a/b", "followers": 1.5e3, "tags": [], "meta": {} },
                "place": null
            },
            { "id": 0, "text": "", "coordinates": [], "retweeted": true, "user": null }
        ],
        "count": 2,
        "ratio": -0.25E-2
    }
    "#;
    let first = parse(src).unwrap();
    let second = parse(src).unwrap();
    assert_eq!(first, second);

    let statuses = first.get("statuses").unwrap();
    match statuses {
        JSONValue::Array(items) => {
            assert_eq!(items.len(), 2);
            assert_eq!(items[0].get("id"), Some(&whole("505874924095815681")));
            assert_eq!(
                items[0].get("text"),
                Some(&text("line one\nline two \"quoted\" \\ done"))
            );
            let user = items[0].get("user").unwrap();
            assert_eq!(to_f64(user.get("followers").unwrap()), 1500.0);
            assert_eq!(user.get("tags"), Some(&JSONValue::Array(vec![])));
            assert_eq!(items[1].get("retweeted"), Some(&JSONValue::True));
        }
        other => panic!("not an array: {:?}", other),
    }
    assert_eq!(to_f64(first.get("ratio").unwrap()), -0.0025);
}

#[test]
fn large_document_parses() {
    let mut src = String::from("[");
    for i in 0..2000 {
        if i > 0 {
            src.push(',');
        }
        src.push_str(&format!(
            "{{\"type\":\"Feature\",\"id\":{},\"geometry\":{{\"coordinates\":[[{}.5,-{}.25e-1],[null,true,false]]}}}}",
            i, i, i
        ));
    }
    src.push(']');
    let first = parse(&src).unwrap();
    match &first {
        JSONValue::Array(items) => {
            assert_eq!(items.len(), 2000);
            assert_eq!(items[1999].get("id"), Some(&whole("1999")));
        }
        other => panic!("not an array: {:?}", other),
    }
    assert_eq!(parse(&src).unwrap(), first);
}

#[test]
fn deep_nesting_parses() {
    let depth = 200;
    let src = format!("{}{}", "[".repeat(depth), "]".repeat(depth));
    let mut v = parse(&src).unwrap();
    let mut seen = 0;
    loop {
        match v {
            JSONValue::Array(mut items) => {
                seen += 1;
                match items.pop() {
                    Some(inner) => v = inner,
                    None => break,
                }
            }
            other => panic!("not an array: {:?}", other),
        }
    }
    assert_eq!(seen, depth);
}

#[test]
fn decimal_writes_base_ten() {
    assert_eq!(decimal(0), "0");
    assert_eq!(decimal(9), "9");
    assert_eq!(decimal(10), "10");
    assert_eq!(decimal(12345), "12345");
    assert_eq!(decimal(u128::MAX), u128::MAX.to_string());
}

#[test]
fn failure_reports_its_unread_bytes() {
    assert_eq!(JSONParseError::NotFound.remaining(), 0);
    assert_eq!(JSONParseError::Error(7).remaining(), 7);
    assert_eq!(JSONParseError::UnexpectedChar(3).remaining(), 3);
    assert_eq!(JSONParseError::MissingClosing(12).remaining(), 12);
}
