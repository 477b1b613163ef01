use jnom::tokenize;
use jnom::JsonLexer;
use jnom::JsonTokenKind;
use jnom::match_text;
use jnom::match_token;

#[test]
fn it_tokenize() {
    let source = r#"
            {
                "name": "John Doe",
                "age": 30,
                "isStudent": false,
                "scores": [100, 90, 95],
                "address": {
                    "street": "123 Main St",
                    "city": "Springfield",
                    "state": "IL"
                }
            }
        "#;
    let tokens = tokenize(source);
    println!("{:#?}", tokens);
}

#[test]
fn tokenize_keywords() {
    let tokens = tokenize("true");
    assert_eq!(tokens.len(), 1);
    assert_eq!(tokens[0].kind, JsonTokenKind::True);

    let tokens = tokenize("false");
    assert_eq!(tokens.len(), 1);
    assert_eq!(tokens[0].kind, JsonTokenKind::False);

    let tokens = tokenize("null");
    assert_eq!(tokens.len(), 1);
    assert_eq!(tokens[0].kind, JsonTokenKind::Null);
}

#[test]
fn tokenize_numbers() {
    let tokens = tokenize("-3.5e2");
    assert_eq!(tokens.len(), 1);
    assert_eq!(tokens[0].kind, JsonTokenKind::Number(String::from("-3.5e2")));
    assert_eq!(tokens[0].span, (0, 6));

    let tokens = tokenize("0 12.5 3e8 -7 1E+2 2e-1");
    let expected = ["0", "12.5", "3e8", "-7", "1E+2", "2e-1"];
    assert_eq!(tokens.len(), expected.len());
    for (t, e) in tokens.iter().zip(expected.iter()) {
        assert_eq!(t.kind, JsonTokenKind::Number(String::from(*e)));
        assert_eq!(t.text(), *e);
    }
}

#[test]
fn tokenize_strings() {
    let tokens = tokenize("\"abc\"");
    assert_eq!(tokens.len(), 1);
    assert_eq!(tokens[0].kind, JsonTokenKind::String(String::from("\"abc\"")));

    // an escaped quote stays inside the token
    let tokens = tokenize(r#""a\"b""#);
    assert_eq!(tokens.len(), 1);
    assert_eq!(
        tokens[0].kind,
        JsonTokenKind::String(String::from(r#""a\"b""#))
    );
}

#[test]
fn tokenize_structural_spans() {
    let source = "{\"a\": 1}";
    let tokens = tokenize(source);
    assert_eq!(tokens.len(), 5);
    assert_eq!(tokens[0].kind, JsonTokenKind::OpenBrace);
    assert_eq!(tokens[0].span, (0, 1));
    assert_eq!(tokens[1].kind, JsonTokenKind::String(String::from("\"a\"")));
    assert_eq!(tokens[1].span, (1, 4));
    assert_eq!(tokens[2].kind, JsonTokenKind::Colon);
    assert_eq!(tokens[3].kind, JsonTokenKind::Number(String::from("1")));
    assert_eq!(tokens[4].kind, JsonTokenKind::CloseBrace);
    assert_eq!(tokens[4].span, (7, 8));
    // spans are strictly increasing and the rendered text is source[span]
    for w in tokens.windows(2) {
        assert!(w[0].span.1 <= w[1].span.0);
    }
    assert_eq!(tokens[1].text(), "\"a\"");
}

#[test]
fn tokenize_truncates_at_unrecognized() {
    // the scan stops at the first character no pattern matches; what was
    // scanned so far is returned
    let tokens = tokenize("true @ false");
    assert_eq!(tokens.len(), 1);
    assert_eq!(tokens[0].kind, JsonTokenKind::True);

    // an unterminated string also stops the scan
    let tokens = tokenize("1 \"abc");
    assert_eq!(tokens.len(), 1);
    assert_eq!(tokens[0].kind, JsonTokenKind::Number(String::from("1")));

    // a lone minus matches nothing
    let tokens = tokenize("[-]");
    assert_eq!(tokens.len(), 1);
    assert_eq!(tokens[0].kind, JsonTokenKind::OpenBracket);

    // a dot not followed by a digit stays outside the number, and then
    // matches nothing itself
    let tokens = tokenize("12.");
    assert_eq!(tokens.len(), 1);
    assert_eq!(tokens[0].kind, JsonTokenKind::Number(String::from("12")));

    // so does a dangling exponent marker
    let tokens = tokenize("1e");
    assert_eq!(tokens.len(), 1);
    assert_eq!(tokens[0].kind, JsonTokenKind::Number(String::from("1")));
}

#[test]
fn tokenize_whitespace_only() {
    let tokens = tokenize("  \t\r\n ");
    assert!(tokens.is_empty());
    let tokens = tokenize("");
    assert!(tokens.is_empty());
}

#[test]
fn lexer_next_steps() {
    let mut lexer = JsonLexer::new(" true null");
    let t = lexer.next().unwrap();
    assert_eq!(t.kind, JsonTokenKind::True);
    assert_eq!(t.span, (1, 5));
    let t = lexer.next().unwrap();
    assert_eq!(t.kind, JsonTokenKind::Null);
    assert!(lexer.next().is_none());
}

#[test]
fn match_token_by_tag() {
    let tokens = tokenize("true");
    let r = match_token(&tokens, &JsonTokenKind::True);
    let (rest, t) = r.unwrap();
    assert_eq!(t.kind, JsonTokenKind::True);
    assert!(rest.is_empty());

    // a payload-carrying kind matches on the variant tag alone
    let tokens = tokenize("42");
    let r = match_token(&tokens, &JsonTokenKind::Number(String::new()));
    assert!(r.is_ok());

    let r = match_token(&tokens, &JsonTokenKind::Colon);
    assert!(r.is_err());

    let empty = tokenize("");
    let r = match_token(&empty, &JsonTokenKind::True);
    assert!(r.is_err());
}

#[test]
fn match_text_by_rendered_text() {
    let tokens = tokenize("true");
    let r = match_text(&tokens, "true");
    let (rest, t) = r.unwrap();
    assert_eq!(t.text(), "true");
    assert!(rest.is_empty());

    let r = match_text(&tokens, "tru");
    assert_eq!(r.unwrap_err().0, "Json Text tru does not match");
}

#[test]
fn mismatch_messages_name_the_kind() {
    let tokens = tokenize("42");
    let r = match_token(&tokens, &JsonTokenKind::Colon);
    assert_eq!(r.unwrap_err().0, "JsonToken Kind : does not match");
    let r = match_token(&tokens, &JsonTokenKind::String(String::new()));
    assert_eq!(r.unwrap_err().0, "JsonToken Kind string does not match");
    let empty = tokenize("");
    let r = match_token(&empty, &JsonTokenKind::True);
    assert_eq!(r.unwrap_err().0, "JsonToken Kind true does not match");
}
