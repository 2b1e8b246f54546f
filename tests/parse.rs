use std::collections::HashMap;

use cibola::json::JSONValue;
use cibola::parse;

/// The value tree with numbers converted and objects keyed by a hash map, so that
/// trees compare regardless of member order.
#[derive(Debug, Clone, PartialEq)]
enum Tree {
    Object(HashMap<String, Tree>),
    Array(Vec<Tree>),
    Bool(bool),
    Text(String),
    Number(f64),
    Null,
}

fn tree(v: &JSONValue) -> Tree {
    match v {
        JSONValue::Object(fields) => {
            Tree::Object(fields.iter().map(|(k, v)| (k.clone(), tree(v))).collect())
        }
        JSONValue::Array(items) => Tree::Array(items.iter().map(tree).collect()),
        JSONValue::Bool(b) => Tree::Bool(*b),
        JSONValue::Text(s) => Tree::Text(s.clone()),
        JSONValue::Number(lit) => Tree::Number(lexical_core::parse::<f64>(lit.as_bytes()).unwrap()),
        JSONValue::Null => Tree::Null,
    }
}

impl From<HashMap<&str, Tree>> for Tree {
    fn from(item: HashMap<&str, Tree>) -> Self {
        Tree::Object(item.into_iter().map(|(k, v)| (k.to_owned(), v)).collect())
    }
}

impl From<Vec<Tree>> for Tree {
    fn from(item: Vec<Tree>) -> Self {
        Tree::Array(item)
    }
}

impl From<bool> for Tree {
    fn from(item: bool) -> Self {
        Tree::Bool(item)
    }
}

impl From<f64> for Tree {
    fn from(item: f64) -> Self {
        Tree::Number(item)
    }
}

impl From<&str> for Tree {
    fn from(item: &str) -> Self {
        Tree::Text(item.to_owned())
    }
}

#[test]
fn parse_text_and_boolean() {
    let mut obj = HashMap::<&str, Tree>::new();
    obj.insert("myBool", true.into());
    obj.insert("myString", "SomeString".into());

    let txt = r#"{ "myString": "SomeString", "myBool":  true }"#;
    let mut ctx = parse::ParseContext::new(txt);
    let res = ctx.object();

    assert_eq!(tree(&res.unwrap()), obj.into());
}

#[test]
fn parse_text_and_boolean_trailing_comma() {
    let mut obj = HashMap::<&str, Tree>::new();
    obj.insert("myBool", true.into());
    obj.insert("myString", "SomeString".into());

    let txt = r#"{ "myString": "SomeString", "myBool":  true, }"#;
    let mut ctx = parse::ParseContext::new(txt);
    let res = ctx.object();

    assert_eq!(tree(&res.unwrap()), obj.into());
}

#[test]
fn parse_nested_object() {
    let mut obj = HashMap::<&str, Tree>::new();
    obj.insert("myBool", true.into());
    obj.insert("myString", "SomeString".into());
    let nest = obj.clone();
    obj.insert("myObject", nest.into());

    let txt = r#"

        {   "myString": "SomeString",
            "myBool":  true,
            "myObject": {
                "myString": "SomeString",
                "myBool": true,
            },
        }
        "#;
    let mut ctx = parse::ParseContext::new(txt);
    let res = ctx.object();

    assert_eq!(tree(&res.unwrap()), obj.into());
}

#[test]
fn parse_number() {
    let n1 = "3.14";
    let n2 = "-3.14";
    let n3 = "23.2e-10";
    let n4 = "23.2E10";

    let mut c1 = parse::ParseContext::new(n1);
    let mut c2 = parse::ParseContext::new(n2);
    let mut c3 = parse::ParseContext::new(n3);
    let mut c4 = parse::ParseContext::new(n4);

    let r1 = c1.number();
    let r2 = c2.number();
    let r3 = c3.number();
    let r4 = c4.number();

    assert_eq!(Tree::from(3.14), tree(&r1.unwrap()));
    assert_eq!(Tree::from(-3.14), tree(&r2.unwrap()));
    assert_eq!(Tree::from(23.2e-10), tree(&r3.unwrap()));
    assert_eq!(Tree::from(23.2E10), tree(&r4.unwrap()));
}

#[test]
fn parse_object() {
    let mut obj = HashMap::<&str, Tree>::new();

    obj.insert("myBool", true.into());
    obj.insert("myString", "SomeString".into());

    let mut nest: HashMap<&str, Tree> = obj.clone();

    nest.insert("myNumber", 33.14.into());
    nest.insert("myNull", Tree::Null);
    nest.insert("myNumber2", (-33.14).into());

    obj.insert("myObject", nest.into());

    let txt = r#"

        {   "myString": "SomeString",
            "myBool":  true,
            "myObject": {
                "myString": "SomeString",
                "myBool": true,
                "myNumber": 33.14,
                "myNull": null   ,
                "myNumber2": -33.14,
            },
        }
        "#;
    let mut ctx = parse::ParseContext::new(txt);
    let res = ctx.object();

    assert_eq!(tree(&res.unwrap()), obj.into());
}

#[test]
fn parse_array() {
    let mut map = HashMap::<&str, Tree>::new();
    map.insert("myBool", true.into());
    map.insert("myString", "SomeString".into());

    let arr: Vec<Tree> = vec!["SomeString".into(), map.into(), 33.14.into()];

    let txt = r#"

        ["SomeString",
                { "myBool": true, "myString": "SomeString", },

           33.14,]

        "#;

    let mut ctx = parse::ParseContext::new(txt);
    let res = ctx.array();

    assert_eq!(tree(&res.unwrap()), arr.into());
}

#[test]
fn parse_text_escaped() {
    let t1 = r#""An\nEscaped\tString""#;

    let mut c1 = parse::ParseContext::new(t1);

    let r1 = c1.text();

    assert_eq!(Tree::from("An\nEscaped\tString"), tree(&r1.unwrap()));
}

#[test]
fn parse_consecutive_escaped_strs() {
    let text = r#"
        {
            "myFirs\tt": "Str\\ng",
            "followed": true,
            "by\\": "\tthe\\second",
        }"#;

    let mut ctx = parse::ParseContext::new(text);

    let res = ctx.object();

    let mut map = HashMap::<&str, Tree>::new();

    map.insert("myFirs\tt", "Str\\ng".into());
    map.insert("followed", true.into());
    map.insert("by\\", "\tthe\\second".into());

    assert_eq!(Tree::from(map), tree(&res.unwrap()));
}
