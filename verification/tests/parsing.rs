use jnom::tokenize;
use jnom::parse_array;
use jnom::parse_boolean;
use jnom::parse_null;
use jnom::parse_number;
use jnom::parse_obj;
use jnom::parse_string;
use jnom::parse_value;
use jnom::JError;
use jnom::JsonExpr;
use jnom::JsonObject;

#[test]
fn it_parse_string() {
    let source = "\"abc\"";
    let tokens = tokenize(source);
    // println!("{:#?}", tokens);
    let result = parse_string(&tokens);
    let string_var = result.unwrap().1;
    assert_eq!(string_var, JsonExpr::String(String::from("abc")));
}

#[test]
fn it_parse_array() {
    let source = r#"["abc", "def"]"#;
    let tokens = tokenize(source);
    // println!("{:#?}", tokens);
    let result = parse_array(&tokens);
    let array_var = result.unwrap().1;

    assert_eq!(
        array_var,
        JsonExpr::Array(vec![
            JsonExpr::String(String::from("abc")),
            JsonExpr::String(String::from("def")),
        ])
    );
}

#[test]
fn it_parse_obj() {
    let source = r#"{"name": "John Doe", "address": "杭州"}"#;
    let tokens = tokenize(source);
    // println!("{:#?}", tokens);
    let result = parse_obj(&tokens);
    // println!("{:#?}", result);
    let obj_var = result.unwrap().1;
    println!("{:#?}", obj_var);
}

#[test]
fn parse_literals() {
    let tokens = tokenize("true");
    let (rest, v) = parse_value(&tokens).unwrap();
    assert!(rest.is_empty());
    assert_eq!(v, JsonExpr::Boolean(true));

    let tokens = tokenize("false");
    let (_, v) = parse_boolean(&tokens).unwrap();
    assert_eq!(v, JsonExpr::Boolean(false));

    let tokens = tokenize("null");
    let (_, v) = parse_null(&tokens).unwrap();
    assert_eq!(v, JsonExpr::Null);

    let tokens = tokenize("\"quoted\"");
    let (_, v) = parse_value(&tokens).unwrap();
    assert_eq!(v, JsonExpr::String(String::from("quoted")));

    let tokens = tokenize("12.5");
    let (_, v) = parse_value(&tokens).unwrap();
    assert_eq!(v, JsonExpr::Number(String::from("12.5")));
}

#[test]
fn parse_empty_object() {
    let tokens = tokenize("{}");
    let (rest, v) = parse_value(&tokens).unwrap();
    assert!(rest.is_empty());
    match v {
        JsonExpr::Object(o) => assert_eq!(o.len(), 0),
        other => panic!("expected an object, got {:?}", other),
    }
}

#[test]
fn parse_empty_array() {
    let tokens = tokenize("[]");
    let (rest, v) = parse_value(&tokens).unwrap();
    assert!(rest.is_empty());
    assert_eq!(v, JsonExpr::Array(vec![]));
}

#[test]
fn parse_key_order() {
    let tokens = tokenize(r#"{"a":1,"b":2}"#);
    let (_, v) = parse_value(&tokens).unwrap();
    match v {
        JsonExpr::Object(o) => {
            let keys = o.keys();
            assert_eq!(keys, vec![String::from("a"), String::from("b")]);
            assert_eq!(o.get("a"), Some(&JsonExpr::Number(String::from("1"))));
            assert_eq!(o.get("b"), Some(&JsonExpr::Number(String::from("2"))));
        }
        other => panic!("expected an object, got {:?}", other),
    }
}

#[test]
fn parse_duplicate_key_last_wins() {
    // last write wins; the key keeps its first position
    let tokens = tokenize(r#"{"a":1,"a":2}"#);
    let (_, v) = parse_value(&tokens).unwrap();
    match v {
        JsonExpr::Object(o) => {
            assert_eq!(o.len(), 1);
            assert_eq!(o.keys(), vec![String::from("a")]);
            assert_eq!(o.get("a"), Some(&JsonExpr::Number(String::from("2"))));
            let n = match o.get("a").unwrap() {
                JsonExpr::Number(t) => t.parse::<f64>().unwrap(),
                other => panic!("expected a number, got {:?}", other),
            };
            assert_eq!(n, 2.0);
        }
        other => panic!("expected an object, got {:?}", other),
    }
}

#[test]
fn parse_repeated_key_keeps_first_position() {
    // over a whole member stream: first occurrence fixes the position,
    // last occurrence fixes the value
    let tokens = tokenize(r#"{"a":1,"b":2,"a":3,"a":4}"#);
    let (_, v) = parse_value(&tokens).unwrap();
    match v {
        JsonExpr::Object(o) => {
            assert_eq!(o.keys(), vec![String::from("a"), String::from("b")]);
            assert_eq!(o.get("a"), Some(&JsonExpr::Number(String::from("4"))));
            assert_eq!(o.get("b"), Some(&JsonExpr::Number(String::from("2"))));
        }
        other => panic!("expected an object, got {:?}", other),
    }
}

#[test]
fn parse_nesting() {
    let tokens = tokenize(r#"{"x":{"y":[1,2]}}"#);
    let (rest, v) = parse_value(&tokens).unwrap();
    assert!(rest.is_empty());
    let expected = JsonExpr::Object(JsonObject {
        entries: vec![(
            String::from("x"),
            JsonExpr::Object(JsonObject {
                entries: vec![(
                    String::from("y"),
                    JsonExpr::Array(vec![
                        JsonExpr::Number(String::from("1")),
                        JsonExpr::Number(String::from("2")),
                    ]),
                )],
            }),
        )],
    });
    assert_eq!(v, expected);
    // the numbers read as floats are 1.0 and 2.0
    match &v {
        JsonExpr::Object(o) => match o.get("x").unwrap() {
            JsonExpr::Object(inner) => match inner.get("y").unwrap() {
                JsonExpr::Array(elems) => {
                    let floats: Vec<f64> = elems
                        .iter()
                        .map(|e| match e {
                            JsonExpr::Number(t) => t.parse::<f64>().unwrap(),
                            other => panic!("expected a number, got {:?}", other),
                        })
                        .collect();
                    assert_eq!(floats, vec![1.0, 2.0]);
                }
                other => panic!("expected an array, got {:?}", other),
            },
            other => panic!("expected an object, got {:?}", other),
        },
        other => panic!("expected an object, got {:?}", other),
    }
}

#[test]
fn parse_non_ascii_string() {
    let tokens = tokenize(r#"{"k":"杭州"}"#);
    let (_, v) = parse_value(&tokens).unwrap();
    match v {
        JsonExpr::Object(o) => {
            assert_eq!(o.get("k"), Some(&JsonExpr::String(String::from("杭州"))));
        }
        other => panic!("expected an object, got {:?}", other),
    }
}

#[test]
fn parse_missing_value_fails() {
    // value missing after the colon: an error, not a panic
    let tokens = tokenize(r#"{"a":}"#);
    assert!(parse_value(&tokens).is_err());
    assert!(parse_obj(&tokens).is_err());
}

#[test]
fn parse_trailing_comma_fails() {
    let tokens = tokenize("[1,2,]");
    assert!(parse_value(&tokens).is_err());

    let tokens = tokenize(r#"{"a":1,}"#);
    assert!(parse_value(&tokens).is_err());
}

#[test]
fn parse_negative_exponent_number() {
    let tokens = tokenize("-3.5e2");
    let (rest, v) = parse_number(&tokens).unwrap();
    assert!(rest.is_empty());
    let n = match v {
        JsonExpr::Number(t) => t.parse::<f64>().unwrap(),
        other => panic!("expected a number, got {:?}", other),
    };
    assert_eq!(n, -350.0);
}

#[test]
fn parse_leaves_unconsumed_suffix() {
    let tokens = tokenize("1 2");
    let (rest, v) = parse_value(&tokens).unwrap();
    assert_eq!(v, JsonExpr::Number(String::from("1")));
    assert_eq!(rest.len(), 1);
}

#[test]
fn parse_mismatches_fail() {
    // empty input
    let tokens = tokenize("");
    assert!(parse_value(&tokens).is_err());

    // a stray closing brace opens no value
    let tokens = tokenize("}");
    assert!(parse_value(&tokens).is_err());

    // each dedicated rule rejects a token of another kind
    let tokens = tokenize("42");
    assert!(parse_string(&tokens).is_err());
    assert!(parse_boolean(&tokens).is_err());
    assert!(parse_null(&tokens).is_err());
    assert!(parse_obj(&tokens).is_err());
    assert!(parse_array(&tokens).is_err());
    let tokens = tokenize("true");
    assert!(parse_number(&tokens).is_err());

    // a non-string key is a hard failure
    let tokens = tokenize("{1:2}");
    assert!(parse_obj(&tokens).is_err());

    // an object missing its closing brace fails
    let tokens = tokenize(r#"{"a":1"#);
    assert!(parse_value(&tokens).is_err());
}

#[test]
fn object_insert_policy() {
    let mut o = JsonObject::new();
    o.insert(String::from("a"), JsonExpr::Number(String::from("1")));
    o.insert(String::from("b"), JsonExpr::Boolean(true));
    o.insert(String::from("a"), JsonExpr::Null);
    assert_eq!(o.len(), 2);
    assert_eq!(o.keys(), vec![String::from("a"), String::from("b")]);
    assert_eq!(o.get("a"), Some(&JsonExpr::Null));
    assert_eq!(o.get("b"), Some(&JsonExpr::Boolean(true)));
    assert_eq!(o.get("c"), None);
    assert_eq!(o.key_at(0), "a");
    assert_eq!(o.value_at(1), &JsonExpr::Boolean(true));
}

#[test]
fn errors_name_what_was_expected() {
    let tokens = tokenize("");
    assert_eq!(parse_value(&tokens).unwrap_err().0, "unexpected end of input");

    let tokens = tokenize("}");
    assert_eq!(parse_value(&tokens).unwrap_err().0, "unexpected token");

    let tokens = tokenize("42");
    assert_eq!(
        parse_string(&tokens).unwrap_err().0,
        "JsonToken Kind String does not match"
    );
    assert_eq!(
        parse_boolean(&tokens).unwrap_err().0,
        "JsonToken Kind Boolean does not match"
    );
    assert_eq!(
        parse_null(&tokens).unwrap_err().0,
        "JsonToken Kind Null does not match"
    );
    let tokens = tokenize("true");
    assert_eq!(
        parse_number(&tokens).unwrap_err().0,
        "JsonToken Kind Number does not match"
    );

    // the value missing after the colon is a stray '}' to the value rule
    let tokens = tokenize(r#"{"a":}"#);
    assert_eq!(parse_value(&tokens).unwrap_err().0, "unexpected token");

    // so is the ']' after a trailing comma
    let tokens = tokenize("[1,2,]");
    assert_eq!(parse_value(&tokens).unwrap_err().0, "unexpected token");

    // a non-string key
    let tokens = tokenize("{1:2}");
    assert_eq!(
        parse_obj(&tokens).unwrap_err().0,
        "JsonToken Kind String does not match"
    );

    // a missing colon
    let tokens = tokenize(r#"{"a" 1}"#);
    assert_eq!(
        parse_obj(&tokens).unwrap_err().0,
        "JsonToken Kind Colon does not match"
    );

    // a member cut off before its separator
    let tokens = tokenize(r#"{"a":1"#);
    assert_eq!(parse_obj(&tokens).unwrap_err().0, "unexpected end of input");

    // nothing at all after the opening brace
    let tokens = tokenize("{");
    assert_eq!(parse_obj(&tokens).unwrap_err().0, "expected an object member");

    // the wrong opening token
    let tokens = tokenize("[");
    assert_eq!(
        parse_obj(&tokens).unwrap_err().0,
        "JsonToken Kind { does not match"
    );
    let tokens = tokenize("{");
    assert_eq!(
        parse_array(&tokens).unwrap_err().0,
        "JsonToken Kind [ does not match"
    );
}

#[test]
fn error_carries_message() {
    let r: Result<(), JError> = JError::from("something did not match");
    let e = r.unwrap_err();
    assert_eq!(e.0, "something did not match");
}
