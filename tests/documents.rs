use std::collections::HashMap;

use cibola::json::{from_str, JSONValue};
use cibola::parse::{check_number_literal, Error, ParseContext};

fn text(s: &str) -> JSONValue {
    JSONValue::Text(s.to_owned())
}

fn number(lit: &str) -> JSONValue {
    JSONValue::Number(lit.to_owned())
}

fn members(v: &JSONValue) -> HashMap<String, &JSONValue> {
    match v {
        JSONValue::Object(fields) => fields.iter().map(|(k, v)| (k.clone(), v)).collect(),
        _ => panic!("not an object: {:?}", v),
    }
}

fn as_f64(v: &JSONValue) -> f64 {
    match v {
        JSONValue::Number(lit) => lit.parse::<f64>().unwrap(),
        _ => panic!("not a number: {:?}", v),
    }
}

#[test]
fn scenario_object_with_array() {
    let v = from_str(r#"{"a": 1, "b": [true, false, null]}"#).unwrap();
    let m = members(&v);
    assert_eq!(m.len(), 2);
    assert_eq!(as_f64(m["a"]), 1.0);
    assert_eq!(
        *m["b"],
        JSONValue::Array(vec![JSONValue::Bool(true), JSONValue::Bool(false), JSONValue::Null])
    );
}

#[test]
fn scenario_escaped_newline() {
    let v = from_str(r#"{"s": "line\nbreak"}"#).unwrap();
    let m = members(&v);
    assert_eq!(*m["s"], text("line\nbreak"));
    match m["s"] {
        JSONValue::Text(s) => assert_eq!(s.len(), 10),
        _ => panic!("not a text"),
    }
}

#[test]
fn scenario_trailing_comma_array() {
    let v = from_str("[1, 2, 3,]").unwrap();
    match &v {
        JSONValue::Array(items) => {
            let xs: Vec<f64> = items.iter().map(as_f64).collect();
            assert_eq!(xs, vec![1.0, 2.0, 3.0]);
        }
        _ => panic!("not an array"),
    }
}

#[test]
fn scenario_bare_scalar_is_invalid_document() {
    assert_eq!(from_str("42"), Err(Error::InvalidDocument));
    assert_eq!(from_str("  \"text\""), Err(Error::InvalidDocument));
    assert_eq!(from_str("true"), Err(Error::InvalidDocument));
    assert_eq!(from_str(""), Err(Error::InvalidDocument));
    assert_eq!(from_str("   "), Err(Error::InvalidDocument));
}

#[test]
fn scenario_truncated_literal() {
    let r = from_str(r#"{"a": tru}"#);
    assert_eq!(r, Err(Error::UnexpectedByte { offset: 9 }));
    assert_eq!(from_str(r#"{"a": tru"#), Err(Error::UnexpectedEndOfInput));
}

#[test]
fn scenario_negative_exponent() {
    let v = from_str(r#"{"x": -3.14e-2}"#).unwrap();
    let m = members(&v);
    assert_eq!(*m["x"], number("-3.14e-2"));
    assert_eq!(as_f64(m["x"]), -0.0314);
}

#[test]
fn empty_object_and_array() {
    assert_eq!(from_str("{}"), Ok(JSONValue::Object(vec![])));
    assert_eq!(from_str("[]"), Ok(JSONValue::Array(vec![])));
    assert_eq!(from_str(" { \n } "), Ok(JSONValue::Object(vec![])));
    assert_eq!(from_str("[\t]"), Ok(JSONValue::Array(vec![])));
}

#[test]
fn trailing_comma_object() {
    assert_eq!(
        from_str(r#"{"k": null,}"#),
        Ok(JSONValue::Object(vec![("k".to_owned(), JSONValue::Null)]))
    );
    assert_eq!(from_str("[[],]"), Ok(JSONValue::Array(vec![JSONValue::Array(vec![])])));
}

#[test]
fn all_escapes_decode_to_single_bytes() {
    let v = from_str(r#"["\n\t\r\"\\\/\b\f"]"#).unwrap();
    assert_eq!(v, JSONValue::Array(vec![text("\n\t\r\"\\/\u{8}\u{c}")]));
    let v = from_str(r#"["a\/b", "\\\\", "x\"y"]"#).unwrap();
    assert_eq!(v, JSONValue::Array(vec![text("a/b"), text("\\\\"), text("x\"y")]));
}

#[test]
fn unknown_escape_is_illegal() {
    assert_eq!(from_str(r#"["a\qb"]"#), Err(Error::IllegalEscape { offset: 4 }));
    assert_eq!(from_str(r#"["\u0041"]"#), Err(Error::IllegalEscape { offset: 3 }));
}

#[test]
fn unterminated_string_ends_input() {
    assert_eq!(from_str(r#"["abc"#), Err(Error::UnexpectedEndOfInput));
    assert_eq!(from_str(r#"["ab\"#), Err(Error::UnexpectedEndOfInput));
    assert_eq!(from_str("[1, 2"), Err(Error::UnexpectedEndOfInput));
    assert_eq!(from_str("{\"a\""), Err(Error::UnexpectedEndOfInput));
}

#[test]
fn unexpected_bytes_are_located() {
    assert_eq!(from_str("[1, @]"), Err(Error::UnexpectedByte { offset: 4 }));
    assert_eq!(from_str(r#"{"a" 1}"#), Err(Error::UnexpectedByte { offset: 5 }));
    assert_eq!(from_str("{a: 1}"), Err(Error::UnexpectedByte { offset: 1 }));
    assert_eq!(from_str("[nul!]"), Err(Error::UnexpectedByte { offset: 4 }));
}

#[test]
fn malformed_numbers_are_invalid() {
    assert_eq!(from_str("[-]"), Err(Error::InvalidNumber { offset: 1 }));
    assert_eq!(from_str("[1.]"), Err(Error::InvalidNumber { offset: 1 }));
    assert_eq!(from_str("[ 1-2]"), Err(Error::InvalidNumber { offset: 2 }));
    assert_eq!(from_str("[1e]"), Err(Error::InvalidNumber { offset: 1 }));
    // the run of number bytes must form one literal as a whole
    assert_eq!(from_str("[1+2]"), Err(Error::InvalidNumber { offset: 1 }));
    assert_eq!(from_str("[1e+]"), Err(Error::InvalidNumber { offset: 1 }));
    assert_eq!(from_str("[1e++5]"), Err(Error::InvalidNumber { offset: 1 }));
    // a number cannot start with a plus sign
    assert_eq!(from_str("[+1]"), Err(Error::UnexpectedByte { offset: 1 }));
}

#[test]
fn number_literals_keep_their_text() {
    let v = from_str("[0, -0, 12.5, 1E3, 2e-3, 007]").unwrap();
    assert_eq!(
        v,
        JSONValue::Array(vec![
            number("0"),
            number("-0"),
            number("12.5"),
            number("1E3"),
            number("2e-3"),
            number("007"),
        ])
    );
    let literals = ["0", "-0", "12.5", "1E3", "2e-3", "007", "23.2e-10", "-3.14e-2", "1e+5", "2.5E+2"];
    for lit in literals {
        let doc = format!("[{}]", lit);
        match from_str(&doc).unwrap() {
            JSONValue::Array(items) => {
                assert_eq!(as_f64(&items[0]), lit.parse::<f64>().unwrap());
                assert_eq!(
                    as_f64(&items[0]),
                    lexical_core::parse::<f64>(lit.as_bytes()).unwrap()
                );
            }
            _ => panic!("not an array"),
        }
    }
}

#[test]
fn check_number_literal_grammar() {
    for ok in ["0", "-1", "1.5", "1e5", "1E-5", "1e+5", "-0.5e10", "10"] {
        assert!(check_number_literal(ok.as_bytes()), "{}", ok);
    }
    for bad in ["", "-", ".", "1.", ".5", "1e", "1e-", "--1", "1.2.3", "+1", "1-", "e5"] {
        assert!(!check_number_literal(bad.as_bytes()), "{}", bad);
    }
}

#[test]
fn parsing_twice_gives_equal_trees() {
    let doc = r#"{"a": [1, {"b": "c\n"}], "d": null, "e": false}"#;
    let first = from_str(doc);
    let second = from_str(doc);
    assert!(first.is_ok());
    assert_eq!(first, second);
    assert_eq!(from_str("[1,"), from_str("[1,"));
}

#[test]
fn duplicate_keys_keep_the_last_value() {
    let v = from_str(r#"{"k": 1, "j": 2, "k": 3}"#).unwrap();
    assert_eq!(
        v,
        JSONValue::Object(vec![("k".to_owned(), number("3")), ("j".to_owned(), number("2"))])
    );
}

#[test]
fn non_ascii_text_passes_through() {
    let v = from_str("[\"h\u{e9}llo \u{1F600}\", \"\u{e9}\\n\u{e9}\"]").unwrap();
    assert_eq!(v, JSONValue::Array(vec![text("h\u{e9}llo \u{1F600}"), text("\u{e9}\n\u{e9}")]));
}

#[test]
fn commas_between_items_are_optional() {
    assert_eq!(
        from_str("[true false]"),
        Ok(JSONValue::Array(vec![JSONValue::Bool(true), JSONValue::Bool(false)]))
    );
    assert_eq!(from_str("[1,,2]"), Err(Error::UnexpectedByte { offset: 3 }));
}

#[test]
fn content_after_the_root_is_not_read() {
    assert_eq!(from_str("[] trailing"), Ok(JSONValue::Array(vec![])));
}

#[test]
fn cursor_methods() {
    let mut ctx = ParseContext::new("  ,x");
    ctx.skip_control_chars();
    ctx.skip_comma();
    assert_eq!(ctx.current_byte(), Ok(b'x'));
    assert_eq!(ctx.eat(b'y'), Err(Error::UnexpectedByte { offset: 3 }));
    assert_eq!(ctx.eat(b'x'), Ok(()));
    assert_eq!(ctx.current_byte(), Err(Error::UnexpectedEndOfInput));

    let mut ctx = ParseContext::new("nulL");
    assert_eq!(ctx.eat_str("null"), Err(Error::UnexpectedByte { offset: 3 }));
    assert_eq!(ctx.eat_str("nul"), Ok("nul"));
    ctx.accept();
    assert_eq!(ctx.current_byte(), Err(Error::UnexpectedEndOfInput));

    let mut ctx = ParseContext::new("\"ab\\tc\" ,");
    assert_eq!(ctx.string(), Ok("ab\tc".to_owned()));
    ctx.accept_n(1);
    assert_eq!(ctx.current_byte(), Ok(b','));
}

#[test]
fn value_consumes_trailing_comma() {
    let mut ctx = ParseContext::new("true , 1");
    assert_eq!(ctx.value(), Ok(JSONValue::Bool(true)));
    assert_eq!(ctx.current_byte(), Ok(b' '));
    assert_eq!(ctx.value(), Ok(number("1")));

    let mut ctx = ParseContext::new("\"k\" : [1]");
    let (k, v) = ctx.object_field().unwrap();
    assert_eq!(k, "k");
    assert_eq!(v, JSONValue::Array(vec![number("1")]));
}

#[test]
fn parse_from_context() {
    let mut ctx = ParseContext::new(" [null]");
    assert_eq!(ctx.parse(), Ok(JSONValue::Array(vec![JSONValue::Null])));
    let mut ctx = ParseContext::new("null");
    assert_eq!(ctx.parse(), Err(Error::InvalidDocument));
}

#[test]
fn escape_free_document_reads_back_with_any_spacing() {
    let expected = JSONValue::Object(vec![
        ("a".to_owned(), JSONValue::Array(vec![number("1"), text("x/y"), JSONValue::Null])),
        ("b".to_owned(), JSONValue::Object(vec![("c".to_owned(), JSONValue::Bool(false))])),
    ]);
    let compact = r#"{"a":[1,"x/y",null],"b":{"c":false}}"#;
    let spaced = " \n{ \n\"a\" \n: \n[ \n1 \n, \n\"x/y\" \n, \nnull \n] \n, \n\"b\" \n: \n{ \n\"c\" \n: \nfalse \n} \n} \n";
    assert_eq!(from_str(compact), Ok(expected));
    assert_eq!(from_str(compact), from_str(spaced));
}

#[test]
fn member_and_item_lists_stop_on_the_closing_bracket() {
    let mut ctx = ParseContext::new("}x");
    assert_eq!(ctx.object_fields(), Ok(vec![]));
    assert_eq!(ctx.current_byte(), Ok(b'}'));

    let mut ctx = ParseContext::new("\"a\":1}x");
    assert_eq!(ctx.object_fields(), Ok(vec![("a".to_owned(), number("1"))]));
    assert_eq!(ctx.current_byte(), Ok(b'}'));

    let mut ctx = ParseContext::new("]x");
    assert_eq!(ctx.array_values(), Ok(vec![]));
    assert_eq!(ctx.current_byte(), Ok(b']'));

    let mut ctx = ParseContext::new("1, 2 ]x");
    assert_eq!(ctx.array_values(), Ok(vec![number("1"), number("2")]));
    assert_eq!(ctx.current_byte(), Ok(b']'));

    let mut ctx = ParseContext::new("{\"a\": [1]}x");
    assert!(ctx.object().is_ok());
    assert_eq!(ctx.current_byte(), Ok(b'x'));
}

#[test]
fn string_without_opening_quote_keeps_the_cursor() {
    let mut ctx = ParseContext::new("abc\"");
    assert_eq!(ctx.string(), Err(Error::UnexpectedByte { offset: 0 }));
    assert_eq!(ctx.current_byte(), Ok(b'a'));
}

#[test]
fn conversions_into_values() {
    assert_eq!(JSONValue::from(true), JSONValue::Bool(true));
    assert_eq!(JSONValue::from("s".to_owned()), text("s"));
    assert_eq!(JSONValue::from(vec![JSONValue::Null]), JSONValue::Array(vec![JSONValue::Null]));
    assert_eq!(
        JSONValue::from(vec![("k".to_owned(), JSONValue::Null)]),
        JSONValue::Object(vec![("k".to_owned(), JSONValue::Null)])
    );
}

#[test]
fn plus_signed_exponent_is_read_whole() {
    assert_eq!(from_str("[1e+5]"), Ok(JSONValue::Array(vec![number("1e+5")])));
    let mut ctx = ParseContext::new("1e+5");
    let v = ctx.number().unwrap();
    assert_eq!(v, number("1e+5"));
    assert_eq!(as_f64(&v), 100000.0);
    assert_eq!(ctx.current_byte(), Err(Error::UnexpectedEndOfInput));
    let mut ctx = ParseContext::new("1+2");
    assert_eq!(ctx.number(), Err(Error::InvalidNumber { offset: 0 }));
}

#[test]
fn string_content_decodes_up_to_the_token() {
    let mut ctx = ParseContext::new("ab\\n\\\"c\" rest");
    assert_eq!(ctx.eat_until(b'"'), Ok("ab\n\"c".to_owned()));
    assert_eq!(ctx.current_byte(), Ok(b'"'));

    let mut ctx = ParseContext::new("plain\"");
    assert_eq!(ctx.eat_until(b'"'), Ok("plain".to_owned()));
    assert_eq!(ctx.current_byte(), Ok(b'"'));

    let mut ctx = ParseContext::new("\\t\\/x\"");
    assert_eq!(ctx.eat_buffered_until("pre", b'"'), Ok("pre\t/x".to_owned()));
    assert_eq!(ctx.current_byte(), Ok(b'"'));
}
