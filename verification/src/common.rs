//! The two foundational matching primitives shared by the grammar rules.
//!
//! Each takes a cursor — the remaining suffix of the token sequence — and
//! either consumes exactly one token, returning the advanced cursor and the
//! matched token, or fails without consuming anything, with an error naming
//! what was expected.

use crate::error::JError;
use crate::token::JsonToken;
use crate::token::JsonTokenKind;
use crate::token::LexKind;
use crate::token::LexToken;
use crate::token::lex_view;
use crate::token::wf_tokens;
use vstd::prelude::*;
use vstd::string::StringExecFns;

verus! {

/// Two kinds agree on their variant tag alone; payloads are not compared.
pub open spec fn same_tag(a: LexKind, b: LexKind) -> bool {
    match (a, b) {
        (LexKind::OpenBrace, LexKind::OpenBrace) => true,
        (LexKind::CloseBrace, LexKind::CloseBrace) => true,
        (LexKind::OpenBracket, LexKind::OpenBracket) => true,
        (LexKind::CloseBracket, LexKind::CloseBracket) => true,
        (LexKind::Colon, LexKind::Colon) => true,
        (LexKind::Comma, LexKind::Comma) => true,
        (LexKind::True, LexKind::True) => true,
        (LexKind::False, LexKind::False) => true,
        (LexKind::Null, LexKind::Null) => true,
        (LexKind::Number(_), LexKind::Number(_)) => true,
        (LexKind::String(_), LexKind::String(_)) => true,
        (LexKind::Whitespace, LexKind::Whitespace) => true,
        _ => false,
    }
}

/// Whether two token kinds carry the same variant tag.
pub fn kind_matches(a: &JsonTokenKind, b: &JsonTokenKind) -> (r: bool)
    ensures
        r == same_tag(a@, b@),
{
    match (a, b) {
        (JsonTokenKind::OpenBrace, JsonTokenKind::OpenBrace) => true,
        (JsonTokenKind::CloseBrace, JsonTokenKind::CloseBrace) => true,
        (JsonTokenKind::OpenBracket, JsonTokenKind::OpenBracket) => true,
        (JsonTokenKind::CloseBracket, JsonTokenKind::CloseBracket) => true,
        (JsonTokenKind::Colon, JsonTokenKind::Colon) => true,
        (JsonTokenKind::Comma, JsonTokenKind::Comma) => true,
        (JsonTokenKind::True, JsonTokenKind::True) => true,
        (JsonTokenKind::False, JsonTokenKind::False) => true,
        (JsonTokenKind::Null, JsonTokenKind::Null) => true,
        (JsonTokenKind::Number(_), JsonTokenKind::Number(_)) => true,
        (JsonTokenKind::String(_), JsonTokenKind::String(_)) => true,
        (JsonTokenKind::Whitespace, JsonTokenKind::Whitespace) => true,
        _ => false,
    }
}

/// Character-by-character string equality, decided on the views.
pub fn str_eq(a: &str, b: &str) -> (r: bool)
    ensures
        r == (a@ == b@),
{
    let la = a.unicode_len();
    let lb = b.unicode_len();
    if la != lb {
        return false;
    }
    let mut i: usize = 0;
    while i < la
        invariant
            i <= la,
            la == a@.len(),
            la == b@.len(),
            forall|j: int| 0 <= j < i ==> a@[j] == b@[j],
        decreases la - i,
    {
        if a.get_char(i) != b.get_char(i) {
            return false;
        }
        i = i + 1;
    }
    proof {
        assert(a@ =~= b@);
    }
    true
}

/// The label a mismatch message names a token kind by.
pub open spec fn spec_kind_label(k: LexKind) -> Seq<char> {
    match k {
        LexKind::OpenBrace => "{"@,
        LexKind::CloseBrace => "}"@,
        LexKind::OpenBracket => "["@,
        LexKind::CloseBracket => "]"@,
        LexKind::Colon => ":"@,
        LexKind::Comma => ","@,
        LexKind::True => "true"@,
        LexKind::False => "false"@,
        LexKind::Null => "null"@,
        LexKind::Number(_) => "number"@,
        LexKind::String(_) => "string"@,
        LexKind::Whitespace => "whitespace"@,
    }
}

/// The message a kind mismatch carries, naming the expected kind.
pub open spec fn kind_mismatch_msg(k: LexKind) -> Seq<char> {
    "JsonToken Kind "@ + spec_kind_label(k) + " does not match"@
}

/// The message a text mismatch carries, naming the expected literal.
pub open spec fn text_mismatch_msg(text: Seq<char>) -> Seq<char> {
    "Json Text "@ + text + " does not match"@
}

/// A short label for a token kind, used in mismatch messages.
fn kind_label(kind: &JsonTokenKind) -> (r: &'static str)
    ensures
        r@ == spec_kind_label(kind@),
{
    match kind {
        JsonTokenKind::OpenBrace => "{",
        JsonTokenKind::CloseBrace => "}",
        JsonTokenKind::OpenBracket => "[",
        JsonTokenKind::CloseBracket => "]",
        JsonTokenKind::Colon => ":",
        JsonTokenKind::Comma => ",",
        JsonTokenKind::True => "true",
        JsonTokenKind::False => "false",
        JsonTokenKind::Null => "null",
        JsonTokenKind::Number(_) => "number",
        JsonTokenKind::String(_) => "string",
        JsonTokenKind::Whitespace => "whitespace",
    }
}

/// Succeeds exactly when the next token's kind has the expected variant
/// tag, consuming that one token; fails without consuming otherwise.
pub fn match_token<'a, 'b>(i: &'b [JsonToken<'a>], kind: &JsonTokenKind) -> (r: Result<
    (&'b [JsonToken<'a>], &'b JsonToken<'a>),
    JError,
>)
    ensures
        match r {
            Ok((rest, t)) => {
                &&& i@.len() > 0
                &&& same_tag(i@[0]@.kind, kind@)
                &&& *t == i@[0]
                &&& rest@ == i@.subrange(1, i@.len() as int)
            },
            Err(e) => !(i@.len() > 0 && same_tag(i@[0]@.kind, kind@)) && e.0@
                == kind_mismatch_msg(kind@),
        },
{
    if i.len() > 0 {
        let t = &i[0];
        if kind_matches(&t.kind, kind) {
            return Ok((&i[1..i.len()], t));
        }
    }
    let msg = "JsonToken Kind ".to_owned().concat(kind_label(kind)).concat(" does not match");
    Err(JError(msg))
}

/// Succeeds exactly when the next token's rendered source text equals the
/// expected literal, consuming that one token; fails without consuming
/// otherwise.
pub fn match_text<'a, 'b>(i: &'b [JsonToken<'a>], text: &str) -> (r: Result<
    (&'b [JsonToken<'a>], &'b JsonToken<'a>),
    JError,
>)
    requires
        wf_tokens(lex_view(i@)),
    ensures
        match r {
            Ok((rest, t)) => {
                &&& i@.len() > 0
                &&& i@[0]@.src.subrange(i@[0]@.start, i@[0]@.end) == text@
                &&& *t == i@[0]
                &&& rest@ == i@.subrange(1, i@.len() as int)
            },
            Err(e) => !(i@.len() > 0 && i@[0]@.src.subrange(i@[0]@.start, i@[0]@.end)
                == text@) && e.0@ == text_mismatch_msg(text@),
        },
{
    if i.len() > 0 {
        let t = &i[0];
        proof {
            assert(lex_view(i@)[0] == i@[0]@);
        }
        if str_eq(t.text(), text) {
            return Ok((&i[1..i.len()], t));
        }
    }
    let msg = "Json Text ".to_owned().concat(text).concat(" does not match");
    Err(JError(msg))
}

} // verus!
