//! The recursive-descent parser over a token slice.
//!
//! Every grammar rule is a plain function taking a cursor — the remaining
//! suffix of the token sequence — and returning either the advanced cursor
//! plus the parsed value, or a mismatch error, consuming nothing on
//! failure.  The grammar is LL(1) at the value level: each alternative's
//! leading token is unique, so `parse_value` dispatches on the head token
//! and the first alternative to match wins.
//!
//! Each rule is verified against the corresponding `spec_parse_*` function:
//! a functional description of the grammar over the token images.  The
//! contracts state success and failure exactly: a rule returns `Ok` if and
//! only if its spec function yields a result, and then returns precisely
//! that result.

use crate::error::JError;
use crate::token::JsonToken;
use crate::token::JsonTokenKind;
use crate::token::LexKind;
use crate::token::LexToken;
use crate::token::lex_view;
use crate::token::wf_token;
use crate::token::wf_tokens;
use crate::common::match_token;
use crate::value::JsonExpr;
use crate::value::JsonObject;
use crate::value::SpecValue;
use crate::value::entry_keys;
use crate::value::first_new_keys;
use crate::value::insert_all;
use crate::value::insert_entry;
use crate::value::last_value_of;
use crate::value::lemma_insert_all_key_order;
use crate::value::lemma_insert_all_last_wins;
use crate::value::lookup_entry;
use crate::value::lemma_entries_view;
use crate::value::lemma_insert_unique_keys;
use crate::value::lemma_insert_values;
use crate::value::lemma_values_view;
use crate::value::unique_keys;
use crate::value::values_view;
use crate::value::wf_value;
use vstd::prelude::*;

verus! {

/// The text of a string literal with exactly one leading and one trailing
/// quote character removed.  Escape sequences are passed through literally.
pub open spec fn strip_quotes(t: Seq<char>) -> Seq<char> {
    t.subrange(1, t.len() - 1)
}

// ---------------------------------------------------------------------------
// The value grammar, as spec functions over token sequences.  Each takes
// the remaining token suffix and yields the suffix left over plus the
// parsed value, or nothing when the rule does not match.
// ---------------------------------------------------------------------------

/// A single string token: yields its text with the quotes stripped.
pub open spec fn spec_parse_string(ts: Seq<LexToken>) -> Option<(Seq<LexToken>, SpecValue)> {
    if ts.len() > 0 {
        match ts[0].kind {
            LexKind::String(t) => Some((ts.drop_first(), SpecValue::String(strip_quotes(t)))),
            _ => None,
        }
    } else {
        None
    }
}

/// A single number token: yields its literal text.
pub open spec fn spec_parse_number(ts: Seq<LexToken>) -> Option<(Seq<LexToken>, SpecValue)> {
    if ts.len() > 0 {
        match ts[0].kind {
            LexKind::Number(t) => Some((ts.drop_first(), SpecValue::Number(t))),
            _ => None,
        }
    } else {
        None
    }
}

/// A single `true` or `false` token.
pub open spec fn spec_parse_boolean(ts: Seq<LexToken>) -> Option<(Seq<LexToken>, SpecValue)> {
    if ts.len() > 0 {
        match ts[0].kind {
            LexKind::True => Some((ts.drop_first(), SpecValue::Boolean(true))),
            LexKind::False => Some((ts.drop_first(), SpecValue::Boolean(false))),
            _ => None,
        }
    } else {
        None
    }
}

/// A single `null` token.
pub open spec fn spec_parse_null(ts: Seq<LexToken>) -> Option<(Seq<LexToken>, SpecValue)> {
    if ts.len() > 0 {
        match ts[0].kind {
            LexKind::Null => Some((ts.drop_first(), SpecValue::Null)),
            _ => None,
        }
    } else {
        None
    }
}

/// A value: object, array, string, number, boolean or null, decided by the
/// unique leading token of each alternative.
pub open spec fn spec_parse_value(ts: Seq<LexToken>) -> Option<(Seq<LexToken>, SpecValue)>
    decreases ts.len(), 1int,
{
    if ts.len() > 0 {
        match ts[0].kind {
            LexKind::OpenBrace => spec_parse_obj(ts),
            LexKind::OpenBracket => spec_parse_array(ts),
            LexKind::String(_) => spec_parse_string(ts),
            LexKind::Number(_) => spec_parse_number(ts),
            LexKind::True => spec_parse_boolean(ts),
            LexKind::False => spec_parse_boolean(ts),
            LexKind::Null => spec_parse_null(ts),
            _ => None,
        }
    } else {
        None
    }
}

/// An object: `{`, either an immediate `}` (the empty mapping) or a
/// non-empty member list, built by [`spec_parse_members`].
pub open spec fn spec_parse_obj(ts: Seq<LexToken>) -> Option<(Seq<LexToken>, SpecValue)>
    decreases ts.len(), 0int,
{
    if ts.len() > 0 && (ts[0].kind matches LexKind::OpenBrace) {
        let rest = ts.drop_first();
        if rest.len() > 0 && (rest[0].kind matches LexKind::CloseBrace) {
            Some((rest.drop_first(), SpecValue::Object(Seq::empty())))
        } else {
            match spec_parse_members(rest, Seq::empty()) {
                Some((rest2, es)) => Some((rest2, SpecValue::Object(es))),
                None => None,
            }
        }
    } else {
        None
    }
}

/// One or more `key : value` members separated by commas, closed by `}`.
/// Each member is inserted into the accumulated entry list with the
/// last-write-wins, first-position-kept policy of [`insert_entry`].
pub open spec fn spec_parse_members(
    ts: Seq<LexToken>,
    acc: Seq<(Seq<char>, SpecValue)>,
) -> Option<(Seq<LexToken>, Seq<(Seq<char>, SpecValue)>)>
    decreases ts.len(), 2int,
{
    if ts.len() >= 2 && (ts[1].kind matches LexKind::Colon) {
        match ts[0].kind {
            LexKind::String(kt) => match spec_parse_value(ts.skip(2)) {
                Some((rest, v)) => {
                    let acc2 = insert_entry(acc, strip_quotes(kt), v);
                    // a matched value always leaves a shorter suffix; the
                    // guard only makes that visible to the termination check
                    if rest.len() < ts.len() {
                        if rest.len() > 0 && (rest[0].kind matches LexKind::Comma) {
                            spec_parse_members(rest.drop_first(), acc2)
                        } else if rest.len() > 0 && (rest[0].kind matches LexKind::CloseBrace) {
                            Some((rest.drop_first(), acc2))
                        } else {
                            None
                        }
                    } else {
                        None
                    }
                },
                None => None,
            },
            _ => None,
        }
    } else {
        None
    }
}

/// An array: `[`, either an immediate `]` (the empty array) or a non-empty
/// element list, built by [`spec_parse_elems`].
pub open spec fn spec_parse_array(ts: Seq<LexToken>) -> Option<(Seq<LexToken>, SpecValue)>
    decreases ts.len(), 0int,
{
    if ts.len() > 0 && (ts[0].kind matches LexKind::OpenBracket) {
        let rest = ts.drop_first();
        if rest.len() > 0 && (rest[0].kind matches LexKind::CloseBracket) {
            Some((rest.drop_first(), SpecValue::Array(Seq::empty())))
        } else {
            match spec_parse_elems(rest, Seq::empty()) {
                Some((rest2, vs)) => Some((rest2, SpecValue::Array(vs))),
                None => None,
            }
        }
    } else {
        None
    }
}

/// One or more values separated by commas, closed by `]`, appended in
/// order to the accumulated element list.
pub open spec fn spec_parse_elems(ts: Seq<LexToken>, acc: Seq<SpecValue>) -> Option<
    (Seq<LexToken>, Seq<SpecValue>),
>
    decreases ts.len(), 2int,
{
    match spec_parse_value(ts) {
        Some((rest, v)) => {
            let acc2 = acc.push(v);
            // a matched value always leaves a shorter suffix; the guard
            // only makes that visible to the termination check
            if rest.len() < ts.len() {
                if rest.len() > 0 && (rest[0].kind matches LexKind::Comma) {
                    spec_parse_elems(rest.drop_first(), acc2)
                } else if rest.len() > 0 && (rest[0].kind matches LexKind::CloseBracket) {
                    Some((rest.drop_first(), acc2))
                } else {
                    None
                }
            } else {
                None
            }
        },
        None => None,
    }
}

// ---------------------------------------------------------------------------
// The message each rule's failure carries, naming what was expected at the
// first point of mismatch.  Defined by the same case analysis as the
// grammar, so that each rule's contract can state its error exactly.
// ---------------------------------------------------------------------------

/// The message `parse_value` fails with.
pub open spec fn spec_value_err(ts: Seq<LexToken>) -> Seq<char>
    decreases ts.len(), 1int,
{
    if ts.len() == 0 {
        "unexpected end of input"@
    } else {
        match ts[0].kind {
            LexKind::OpenBrace => spec_obj_err(ts),
            LexKind::OpenBracket => spec_array_err(ts),
            LexKind::String(_) => "JsonToken Kind String does not match"@,
            LexKind::Number(_) => "JsonToken Kind Number does not match"@,
            LexKind::True => "JsonToken Kind Boolean does not match"@,
            LexKind::False => "JsonToken Kind Boolean does not match"@,
            LexKind::Null => "JsonToken Kind Null does not match"@,
            _ => "unexpected token"@,
        }
    }
}

/// The message `parse_obj` fails with.
pub open spec fn spec_obj_err(ts: Seq<LexToken>) -> Seq<char>
    decreases ts.len(), 0int,
{
    if !(ts.len() > 0 && (ts[0].kind matches LexKind::OpenBrace)) {
        crate::common::kind_mismatch_msg(LexKind::OpenBrace)
    } else {
        spec_members_err(ts.drop_first())
    }
}

/// The message the member list of an object fails with.  Branches on which
/// the rule succeeds (a closing brace after a member, a matched literal)
/// are never observed through a failing result; the remaining cases name
/// the token that was expected.
pub open spec fn spec_members_err(ts: Seq<LexToken>) -> Seq<char>
    decreases ts.len(), 2int,
{
    if ts.len() < 2 {
        "expected an object member"@
    } else if !(ts[0].kind matches LexKind::String(_)) {
        "JsonToken Kind String does not match"@
    } else if !(ts[1].kind matches LexKind::Colon) {
        "JsonToken Kind Colon does not match"@
    } else {
        match spec_parse_value(ts.skip(2)) {
            None => spec_value_err(ts.skip(2)),
            Some((rest, v)) => {
                if rest.len() == 0 {
                    "unexpected end of input"@
                } else if (rest[0].kind matches LexKind::Comma) {
                    if rest.len() < ts.len() {
                        spec_members_err(rest.drop_first())
                    } else {
                        Seq::empty()
                    }
                } else {
                    "JsonToken Kind Comma does not match"@
                }
            },
        }
    }
}

/// The message `parse_array` fails with.
pub open spec fn spec_array_err(ts: Seq<LexToken>) -> Seq<char>
    decreases ts.len(), 0int,
{
    if !(ts.len() > 0 && (ts[0].kind matches LexKind::OpenBracket)) {
        crate::common::kind_mismatch_msg(LexKind::OpenBracket)
    } else {
        spec_elems_err(ts.drop_first())
    }
}

/// The message the element list of an array fails with.
pub open spec fn spec_elems_err(ts: Seq<LexToken>) -> Seq<char>
    decreases ts.len(), 2int,
{
    match spec_parse_value(ts) {
        None => spec_value_err(ts),
        Some((rest, v)) => {
            if rest.len() == 0 {
                "unexpected end of input"@
            } else if (rest[0].kind matches LexKind::Comma) {
                if rest.len() < ts.len() {
                    spec_elems_err(rest.drop_first())
                } else {
                    Seq::empty()
                }
            } else {
                "JsonToken Kind Comma does not match"@
            }
        },
    }
}

// ---------------------------------------------------------------------------
// Lemmas relating slices of the token sequence to their images.
// ---------------------------------------------------------------------------

pub proof fn lemma_lex_view_subrange<'a>(ts: Seq<JsonToken<'a>>, a: int, b: int)
    requires
        0 <= a <= b <= ts.len(),
    ensures
        lex_view(ts.subrange(a, b)) =~= lex_view(ts).subrange(a, b),
{
    assert forall|m: int| 0 <= m < b - a implies lex_view(ts.subrange(a, b))[m] == lex_view(
        ts,
    ).subrange(a, b)[m] by {
        assert(ts.subrange(a, b)[m] == ts[a + m]);
    }
}

pub proof fn lemma_wf_tokens_subrange(s: Seq<LexToken>, a: int, b: int)
    requires
        0 <= a <= b <= s.len(),
        wf_tokens(s),
    ensures
        wf_tokens(s.subrange(a, b)),
{
    assert forall|m: int| 0 <= m < b - a implies wf_token(#[trigger] s.subrange(a, b)[m]) by {
        assert(s.subrange(a, b)[m] == s[a + m]);
        assert(wf_token(s[a + m]));
    }
}

// ---------------------------------------------------------------------------
// The executable rules.
// ---------------------------------------------------------------------------

/// Parses a string value from the head of the cursor.
pub fn parse_string<'a, 'b>(i: &'b [JsonToken<'a>]) -> (r: Result<
    (&'b [JsonToken<'a>], JsonExpr),
    JError,
>)
    requires
        wf_tokens(lex_view(i@)),
    ensures
        match r {
            Ok((rest, v)) => {
                &&& spec_parse_string(lex_view(i@)) == Some((lex_view(rest@), v@))
                &&& rest@.len() < i@.len()
                &&& wf_tokens(lex_view(rest@))
            },
            Err(e) => spec_parse_string(lex_view(i@)) is None && e.0@
                == "JsonToken Kind String does not match"@,
        },
{
    if i.len() > 0 {
        proof {
            assert(lex_view(i@)[0] == i@[0]@);
            assert(wf_token(lex_view(i@)[0]));
        }
        match &i[0].kind {
            JsonTokenKind::String(txt) => {
                let l = txt.as_str().unicode_len();
                let inner = txt.as_str().substring_char(1, l - 1).to_owned();
                let rest = &i[1..i.len()];
                proof {
                    lemma_lex_view_subrange(i@, 1, i@.len() as int);
                    lemma_wf_tokens_subrange(lex_view(i@), 1, i@.len() as int);
                    assert(lex_view(rest@) =~= lex_view(i@).drop_first());
                }
                return Ok((rest, JsonExpr::String(inner)));
            },
            _ => {},
        }
    }
    JError::from("JsonToken Kind String does not match")
}

/// Parses a number value from the head of the cursor.
pub fn parse_number<'a, 'b>(i: &'b [JsonToken<'a>]) -> (r: Result<
    (&'b [JsonToken<'a>], JsonExpr),
    JError,
>)
    requires
        wf_tokens(lex_view(i@)),
    ensures
        match r {
            Ok((rest, v)) => {
                &&& spec_parse_number(lex_view(i@)) == Some((lex_view(rest@), v@))
                &&& rest@.len() < i@.len()
                &&& wf_tokens(lex_view(rest@))
            },
            Err(e) => spec_parse_number(lex_view(i@)) is None && e.0@
                == "JsonToken Kind Number does not match"@,
        },
{
    if i.len() > 0 {
        proof {
            assert(lex_view(i@)[0] == i@[0]@);
        }
        match &i[0].kind {
            JsonTokenKind::Number(txt) => {
                let rest = &i[1..i.len()];
                proof {
                    lemma_lex_view_subrange(i@, 1, i@.len() as int);
                    lemma_wf_tokens_subrange(lex_view(i@), 1, i@.len() as int);
                    assert(lex_view(rest@) =~= lex_view(i@).drop_first());
                }
                return Ok((rest, JsonExpr::Number(txt.clone())));
            },
            _ => {},
        }
    }
    JError::from("JsonToken Kind Number does not match")
}

/// Parses a boolean value (a `true` or `false` token) from the head of the
/// cursor.
pub fn parse_boolean<'a, 'b>(i: &'b [JsonToken<'a>]) -> (r: Result<
    (&'b [JsonToken<'a>], JsonExpr),
    JError,
>)
    requires
        wf_tokens(lex_view(i@)),
    ensures
        match r {
            Ok((rest, v)) => {
                &&& spec_parse_boolean(lex_view(i@)) == Some((lex_view(rest@), v@))
                &&& rest@.len() < i@.len()
                &&& wf_tokens(lex_view(rest@))
            },
            Err(e) => spec_parse_boolean(lex_view(i@)) is None && e.0@
                == "JsonToken Kind Boolean does not match"@,
        },
{
    if i.len() > 0 {
        proof {
            assert(lex_view(i@)[0] == i@[0]@);
        }
        let b = match &i[0].kind {
            JsonTokenKind::True => true,
            JsonTokenKind::False => false,
            _ => {
                return JError::from("JsonToken Kind Boolean does not match");
            },
        };
        let rest = &i[1..i.len()];
        proof {
            lemma_lex_view_subrange(i@, 1, i@.len() as int);
            lemma_wf_tokens_subrange(lex_view(i@), 1, i@.len() as int);
            assert(lex_view(rest@) =~= lex_view(i@).drop_first());
        }
        return Ok((rest, JsonExpr::Boolean(b)));
    }
    JError::from("JsonToken Kind Boolean does not match")
}

/// Parses a `null` token into the null value.
pub fn parse_null<'a, 'b>(i: &'b [JsonToken<'a>]) -> (r: Result<
    (&'b [JsonToken<'a>], JsonExpr),
    JError,
>)
    requires
        wf_tokens(lex_view(i@)),
    ensures
        match r {
            Ok((rest, v)) => {
                &&& spec_parse_null(lex_view(i@)) == Some((lex_view(rest@), v@))
                &&& rest@.len() < i@.len()
                &&& wf_tokens(lex_view(rest@))
            },
            Err(e) => spec_parse_null(lex_view(i@)) is None && e.0@
                == "JsonToken Kind Null does not match"@,
        },
{
    if i.len() > 0 {
        proof {
            assert(lex_view(i@)[0] == i@[0]@);
        }
        match &i[0].kind {
            JsonTokenKind::Null => {
                let rest = &i[1..i.len()];
                proof {
                    lemma_lex_view_subrange(i@, 1, i@.len() as int);
                    lemma_wf_tokens_subrange(lex_view(i@), 1, i@.len() as int);
                    assert(lex_view(rest@) =~= lex_view(i@).drop_first());
                }
                return Ok((rest, JsonExpr::Null));
            },
            _ => {},
        }
    }
    JError::from("JsonToken Kind Null does not match")
}

/// Parses any value, trying the alternatives in the grammar's fixed order;
/// the head token decides which alternative can match.
pub fn parse_value<'a, 'b>(i: &'b [JsonToken<'a>]) -> (r: Result<
    (&'b [JsonToken<'a>], JsonExpr),
    JError,
>)
    requires
        wf_tokens(lex_view(i@)),
    ensures
        match r {
            Ok((rest, v)) => {
                &&& spec_parse_value(lex_view(i@)) == Some((lex_view(rest@), v@))
                &&& rest@.len() < i@.len()
                &&& wf_tokens(lex_view(rest@))
            },
            Err(e) => spec_parse_value(lex_view(i@)) is None && e.0@ == spec_value_err(
                lex_view(i@),
            ),
        },
    decreases i@.len(), 1int,
{
    if i.len() == 0 {
        return JError::from("unexpected end of input");
    }
    proof {
        assert(lex_view(i@)[0] == i@[0]@);
    }
    match &i[0].kind {
        JsonTokenKind::OpenBrace => parse_obj(i),
        JsonTokenKind::OpenBracket => parse_array(i),
        JsonTokenKind::String(_) => parse_string(i),
        JsonTokenKind::Number(_) => parse_number(i),
        JsonTokenKind::True => parse_boolean(i),
        JsonTokenKind::False => parse_boolean(i),
        JsonTokenKind::Null => parse_null(i),
        _ => JError::from("unexpected token"),
    }
}

/// Parses an object: `{`, zero or more `key : value` members separated by
/// commas, then `}`.  Keys must be string tokens; the resulting mapping
/// keeps keys in first-appearance order, a repeated key keeping its
/// position with the later value (last write wins).
pub fn parse_obj<'a, 'b>(i: &'b [JsonToken<'a>]) -> (r: Result<
    (&'b [JsonToken<'a>], JsonExpr),
    JError,
>)
    requires
        wf_tokens(lex_view(i@)),
    ensures
        match r {
            Ok((rest, v)) => {
                &&& spec_parse_obj(lex_view(i@)) == Some((lex_view(rest@), v@))
                &&& rest@.len() < i@.len()
                &&& wf_tokens(lex_view(rest@))
            },
            Err(e) => spec_parse_obj(lex_view(i@)) is None && e.0@ == spec_obj_err(
                lex_view(i@),
            ),
        },
    decreases i@.len(), 0int,
{
    let rest1 = match match_token(i, &JsonTokenKind::OpenBrace) {
        Ok((rest, _)) => rest,
        Err(e) => {
            return Err(e);
        },
    };
    proof {
        assert(lex_view(i@)[0] == i@[0]@);
        lemma_lex_view_subrange(i@, 1, i@.len() as int);
        lemma_wf_tokens_subrange(lex_view(i@), 1, i@.len() as int);
        assert(lex_view(rest1@) =~= lex_view(i@).drop_first());
    }
    match match_token(rest1, &JsonTokenKind::CloseBrace) {
        Ok((rest2, _)) => {
            proof {
                assert(lex_view(rest1@)[0] == rest1@[0]@);
                lemma_lex_view_subrange(rest1@, 1, rest1@.len() as int);
                lemma_wf_tokens_subrange(lex_view(rest1@), 1, rest1@.len() as int);
                assert(lex_view(rest2@) =~= lex_view(rest1@).drop_first());
            }
            let o = JsonObject::new();
            let v = JsonExpr::Object(o);
            proof {
                lemma_entries_view(Seq::<(String, JsonExpr)>::empty());
                assert(v@ == SpecValue::Object(Seq::<(Seq<char>, SpecValue)>::empty()));
            }
            Ok((rest2, v))
        },
        Err(_) => {
            proof {
                if lex_view(rest1@).len() > 0 {
                    assert(lex_view(rest1@)[0] == rest1@[0]@);
                }
            }
            match parse_members(rest1, JsonObject::new()) {
                Ok((rest2, o)) => {
                    proof {
                        lemma_entries_view(Seq::<(String, JsonExpr)>::empty());
                    }
                    Ok((rest2, JsonExpr::Object(o)))
                },
                Err(e) => Err(e),
            }
        },
    }
}

/// Parses the non-empty member list of an object, accumulating entries
/// into `acc`, up to and including the closing `}`.
fn parse_members<'a, 'b>(i: &'b [JsonToken<'a>], acc: JsonObject) -> (r: Result<
    (&'b [JsonToken<'a>], JsonObject),
    JError,
>)
    requires
        wf_tokens(lex_view(i@)),
    ensures
        match r {
            Ok((rest, o)) => {
                &&& spec_parse_members(lex_view(i@), acc@) == Some((lex_view(rest@), o@))
                &&& rest@.len() < i@.len()
                &&& wf_tokens(lex_view(rest@))
            },
            Err(e) => spec_parse_members(lex_view(i@), acc@) is None && e.0@
                == spec_members_err(lex_view(i@)),
        },
    decreases i@.len(), 2int,
{
    if i.len() < 2 {
        return JError::from("expected an object member");
    }
    proof {
        assert(lex_view(i@)[0] == i@[0]@);
        assert(lex_view(i@)[1] == i@[1]@);
        assert(wf_token(lex_view(i@)[0]));
    }
    let key_txt = match &i[0].kind {
        JsonTokenKind::String(t) => t,
        _ => {
            return JError::from("JsonToken Kind String does not match");
        },
    };
    match &i[1].kind {
        JsonTokenKind::Colon => {},
        _ => {
            return JError::from("JsonToken Kind Colon does not match");
        },
    }
    let l = key_txt.as_str().unicode_len();
    let key = key_txt.as_str().substring_char(1, l - 1).to_owned();
    let tail = &i[2..i.len()];
    proof {
        lemma_lex_view_subrange(i@, 2, i@.len() as int);
        lemma_wf_tokens_subrange(lex_view(i@), 2, i@.len() as int);
        assert(lex_view(tail@) =~= lex_view(i@).skip(2));
    }
    match parse_value(tail) {
        Err(e) => Err(e),
        Ok((rest, v)) => {
            let mut obj = acc;
            obj.insert(key, v);
            if rest.len() > 0 {
                proof {
                    assert(lex_view(rest@)[0] == rest@[0]@);
                }
                match &rest[0].kind {
                    JsonTokenKind::Comma => {
                        let next = &rest[1..rest.len()];
                        proof {
                            lemma_lex_view_subrange(rest@, 1, rest@.len() as int);
                            lemma_wf_tokens_subrange(lex_view(rest@), 1, rest@.len() as int);
                            assert(lex_view(next@) =~= lex_view(rest@).drop_first());
                        }
                        parse_members(next, obj)
                    },
                    JsonTokenKind::CloseBrace => {
                        let next = &rest[1..rest.len()];
                        proof {
                            lemma_lex_view_subrange(rest@, 1, rest@.len() as int);
                            lemma_wf_tokens_subrange(lex_view(rest@), 1, rest@.len() as int);
                            assert(lex_view(next@) =~= lex_view(rest@).drop_first());
                        }
                        Ok((next, obj))
                    },
                    _ => JError::from("JsonToken Kind Comma does not match"),
                }
            } else {
                JError::from("unexpected end of input")
            }
        },
    }
}

/// Parses an array: `[`, zero or more values separated by commas, then
/// `]`.
pub fn parse_array<'a, 'b>(i: &'b [JsonToken<'a>]) -> (r: Result<
    (&'b [JsonToken<'a>], JsonExpr),
    JError,
>)
    requires
        wf_tokens(lex_view(i@)),
    ensures
        match r {
            Ok((rest, v)) => {
                &&& spec_parse_array(lex_view(i@)) == Some((lex_view(rest@), v@))
                &&& rest@.len() < i@.len()
                &&& wf_tokens(lex_view(rest@))
            },
            Err(e) => spec_parse_array(lex_view(i@)) is None && e.0@ == spec_array_err(
                lex_view(i@),
            ),
        },
    decreases i@.len(), 0int,
{
    let rest1 = match match_token(i, &JsonTokenKind::OpenBracket) {
        Ok((rest, _)) => rest,
        Err(e) => {
            return Err(e);
        },
    };
    proof {
        assert(lex_view(i@)[0] == i@[0]@);
        lemma_lex_view_subrange(i@, 1, i@.len() as int);
        lemma_wf_tokens_subrange(lex_view(i@), 1, i@.len() as int);
        assert(lex_view(rest1@) =~= lex_view(i@).drop_first());
    }
    match match_token(rest1, &JsonTokenKind::CloseBracket) {
        Ok((rest2, _)) => {
            proof {
                assert(lex_view(rest1@)[0] == rest1@[0]@);
                lemma_lex_view_subrange(rest1@, 1, rest1@.len() as int);
                lemma_wf_tokens_subrange(lex_view(rest1@), 1, rest1@.len() as int);
                assert(lex_view(rest2@) =~= lex_view(rest1@).drop_first());
            }
            let a: Vec<JsonExpr> = Vec::new();
            let v = JsonExpr::Array(a);
            proof {
                lemma_values_view(Seq::<JsonExpr>::empty());
                assert(v@ == SpecValue::Array(Seq::<SpecValue>::empty()));
            }
            Ok((rest2, v))
        },
        Err(_) => {
            proof {
                if lex_view(rest1@).len() > 0 {
                    assert(lex_view(rest1@)[0] == rest1@[0]@);
                }
            }
            match parse_elems(rest1, Vec::new()) {
                Ok((rest2, vs)) => Ok((rest2, JsonExpr::Array(vs))),
                Err(e) => Err(e),
            }
        },
    }
}

/// Parses the non-empty element list of an array, accumulating values into
/// `acc`, up to and including the closing `]`.
fn parse_elems<'a, 'b>(i: &'b [JsonToken<'a>], acc: Vec<JsonExpr>) -> (r: Result<
    (&'b [JsonToken<'a>], Vec<JsonExpr>),
    JError,
>)
    requires
        wf_tokens(lex_view(i@)),
    ensures
        match r {
            Ok((rest, vs)) => {
                &&& spec_parse_elems(lex_view(i@), values_view(acc@)) == Some(
                    (lex_view(rest@), values_view(vs@)),
                )
                &&& rest@.len() < i@.len()
                &&& wf_tokens(lex_view(rest@))
            },
            Err(e) => spec_parse_elems(lex_view(i@), values_view(acc@)) is None && e.0@
                == spec_elems_err(lex_view(i@)),
        },
    decreases i@.len(), 2int,
{
    match parse_value(i) {
        Err(e) => Err(e),
        Ok((rest, v)) => {
            let ghost acc0 = acc@;
            let mut vs = acc;
            vs.push(v);
            proof {
                lemma_values_view(acc0);
                lemma_values_view(vs@);
                assert(values_view(vs@) =~= values_view(acc0).push(v@));
            }
            if rest.len() > 0 {
                proof {
                    assert(lex_view(rest@)[0] == rest@[0]@);
                }
                match &rest[0].kind {
                    JsonTokenKind::Comma => {
                        let next = &rest[1..rest.len()];
                        proof {
                            lemma_lex_view_subrange(rest@, 1, rest@.len() as int);
                            lemma_wf_tokens_subrange(lex_view(rest@), 1, rest@.len() as int);
                            assert(lex_view(next@) =~= lex_view(rest@).drop_first());
                        }
                        parse_elems(next, vs)
                    },
                    JsonTokenKind::CloseBracket => {
                        let next = &rest[1..rest.len()];
                        proof {
                            lemma_lex_view_subrange(rest@, 1, rest@.len() as int);
                            lemma_wf_tokens_subrange(lex_view(rest@), 1, rest@.len() as int);
                            assert(lex_view(next@) =~= lex_view(rest@).drop_first());
                        }
                        Ok((next, vs))
                    },
                    _ => JError::from("JsonToken Kind Comma does not match"),
                }
            } else {
                JError::from("unexpected end of input")
            }
        },
    }
}

// ---------------------------------------------------------------------------
// Laws of the grammar.
// ---------------------------------------------------------------------------

/// Every literal token at the head of the cursor parses to the
/// corresponding value variant: `true` and `false` to the booleans, `null`
/// to the null value, a number token to a number carrying its literal
/// text, and a string token to a string carrying its quoted text with the
/// quotes stripped.
pub proof fn lemma_parse_literal(ts: Seq<LexToken>)
    requires
        ts.len() > 0,
    ensures
        ts[0].kind matches LexKind::True ==> spec_parse_value(ts) == Some(
            (ts.drop_first(), SpecValue::Boolean(true)),
        ),
        ts[0].kind matches LexKind::False ==> spec_parse_value(ts) == Some(
            (ts.drop_first(), SpecValue::Boolean(false)),
        ),
        ts[0].kind matches LexKind::Null ==> spec_parse_value(ts) == Some(
            (ts.drop_first(), SpecValue::Null),
        ),
        forall|t: Seq<char>|
            ts[0].kind == LexKind::Number(t) ==> spec_parse_value(ts) == Some(
                (ts.drop_first(), SpecValue::Number(t)),
            ),
        forall|t: Seq<char>|
            ts[0].kind == LexKind::String(t) ==> spec_parse_value(ts) == Some(
                (ts.drop_first(), SpecValue::String(strip_quotes(t))),
            ),
{
}

/// Every value the grammar yields satisfies the ordered-mapping invariant
/// at every level: no object of a parsed tree holds two entries with the
/// same key.
pub proof fn lemma_parse_value_wf(ts: Seq<LexToken>)
    ensures
        spec_parse_value(ts) matches Some((r, v)) ==> wf_value(v),
    decreases ts.len(), 1int,
{
    if ts.len() > 0 {
        match ts[0].kind {
            LexKind::OpenBrace => lemma_parse_obj_wf(ts),
            LexKind::OpenBracket => lemma_parse_array_wf(ts),
            _ => {},
        }
    }
}

pub proof fn lemma_parse_obj_wf(ts: Seq<LexToken>)
    ensures
        spec_parse_obj(ts) matches Some((r, v)) ==> wf_value(v),
    decreases ts.len(), 0int,
{
    if ts.len() > 0 && (ts[0].kind matches LexKind::OpenBrace) {
        let rest = ts.drop_first();
        if rest.len() > 0 && (rest[0].kind matches LexKind::CloseBrace) {
        } else {
            lemma_parse_members_wf(rest, Seq::empty());
        }
    }
}

pub proof fn lemma_parse_members_wf(ts: Seq<LexToken>, acc: Seq<(Seq<char>, SpecValue)>)
    requires
        unique_keys(acc),
        forall|i: int| 0 <= i < acc.len() ==> wf_value(#[trigger] acc[i].1),
    ensures
        spec_parse_members(ts, acc) matches Some((r, es)) ==> unique_keys(es) && (forall|i: int|
            0 <= i < es.len() ==> wf_value(#[trigger] es[i].1)),
    decreases ts.len(), 2int,
{
    if ts.len() >= 2 && (ts[1].kind matches LexKind::Colon) {
        match ts[0].kind {
            LexKind::String(kt) => {
                lemma_parse_value_wf(ts.skip(2));
                match spec_parse_value(ts.skip(2)) {
                    Some((rest, v)) => {
                        let k = strip_quotes(kt);
                        let acc2 = insert_entry(acc, k, v);
                        lemma_insert_unique_keys(acc, k, v);
                        lemma_insert_values(acc, k, v);
                        assert forall|i: int| 0 <= i < acc2.len() implies wf_value(
                            #[trigger] acc2[i].1,
                        ) by {
                            if acc2[i].1 != v {
                                let m = choose|m: int|
                                    0 <= m < acc.len() && #[trigger] acc[m].1 == acc2[i].1;
                                assert(wf_value(acc[m].1));
                            }
                        }
                        if rest.len() < ts.len() && rest.len() > 0 && (rest[0].kind
                            matches LexKind::Comma) {
                            lemma_parse_members_wf(rest.drop_first(), acc2);
                        }
                    },
                    None => {},
                }
            },
            _ => {},
        }
    }
}

pub proof fn lemma_parse_array_wf(ts: Seq<LexToken>)
    ensures
        spec_parse_array(ts) matches Some((r, v)) ==> wf_value(v),
    decreases ts.len(), 0int,
{
    if ts.len() > 0 && (ts[0].kind matches LexKind::OpenBracket) {
        let rest = ts.drop_first();
        if rest.len() > 0 && (rest[0].kind matches LexKind::CloseBracket) {
        } else {
            lemma_parse_elems_wf(rest, Seq::empty());
        }
    }
}

pub proof fn lemma_parse_elems_wf(ts: Seq<LexToken>, acc: Seq<SpecValue>)
    requires
        forall|i: int| 0 <= i < acc.len() ==> wf_value(#[trigger] acc[i]),
    ensures
        spec_parse_elems(ts, acc) matches Some((r, vs)) ==> forall|i: int|
            0 <= i < vs.len() ==> wf_value(#[trigger] vs[i]),
    decreases ts.len(), 2int,
{
    lemma_parse_value_wf(ts);
    match spec_parse_value(ts) {
        Some((rest, v)) => {
            let acc2 = acc.push(v);
            if rest.len() < ts.len() && rest.len() > 0 && (rest[0].kind matches LexKind::Comma) {
                lemma_parse_elems_wf(rest.drop_first(), acc2);
            }
        },
        None => {},
    }
}

/// The raw member stream of an object's member list: the `key : value`
/// pairs in stream order, duplicates kept, together with the cursor left
/// after the closing brace.  Defined by the same case analysis as
/// [`spec_parse_members`], so the two match and fail together.
pub open spec fn spec_member_list(ts: Seq<LexToken>) -> Option<
    (Seq<LexToken>, Seq<(Seq<char>, SpecValue)>),
>
    decreases ts.len(), 2int,
{
    if ts.len() >= 2 && (ts[1].kind matches LexKind::Colon) {
        match ts[0].kind {
            LexKind::String(kt) => match spec_parse_value(ts.skip(2)) {
                Some((rest, v)) => {
                    if rest.len() < ts.len() {
                        if rest.len() > 0 && (rest[0].kind matches LexKind::Comma) {
                            match spec_member_list(rest.drop_first()) {
                                Some((r2, ps)) => Some(
                                    (r2, seq![(strip_quotes(kt), v)] + ps),
                                ),
                                None => None,
                            }
                        } else if rest.len() > 0 && (rest[0].kind matches LexKind::CloseBrace) {
                            Some((rest.drop_first(), seq![(strip_quotes(kt), v)]))
                        } else {
                            None
                        }
                    } else {
                        None
                    }
                },
                None => None,
            },
            _ => None,
        }
    } else {
        None
    }
}

/// Parsing a member list is folding its raw member stream into the
/// accumulated entries, one insertion at a time, in stream order.
pub proof fn lemma_members_fold(ts: Seq<LexToken>, acc: Seq<(Seq<char>, SpecValue)>)
    ensures
        match spec_member_list(ts) {
            Some((r, ps)) => spec_parse_members(ts, acc) == Some((r, insert_all(acc, ps))),
            None => spec_parse_members(ts, acc) is None,
        },
    decreases ts.len(),
{
    if ts.len() >= 2 && (ts[1].kind matches LexKind::Colon) {
        match ts[0].kind {
            LexKind::String(kt) => {
                match spec_parse_value(ts.skip(2)) {
                    Some((rest, v)) => {
                        let k = strip_quotes(kt);
                        let acc2 = insert_entry(acc, k, v);
                        if rest.len() < ts.len() {
                            if rest.len() > 0 && (rest[0].kind matches LexKind::Comma) {
                                lemma_members_fold(rest.drop_first(), acc2);
                                match spec_member_list(rest.drop_first()) {
                                    Some((r2, ps)) => {
                                        let ps_full = seq![(k, v)] + ps;
                                        assert(ps_full[0] == (k, v));
                                        assert(ps_full.drop_first() =~= ps);
                                        assert(insert_all(acc, ps_full) == insert_all(
                                            acc2,
                                            ps,
                                        ));
                                    },
                                    None => {},
                                }
                            } else if rest.len() > 0 && (rest[0].kind
                                matches LexKind::CloseBrace) {
                                let ps_one = seq![(k, v)];
                                assert(ps_one[0] == (k, v));
                                assert(ps_one.drop_first() =~= Seq::<
                                    (Seq<char>, SpecValue),
                                >::empty());
                                assert(insert_all(acc2, Seq::<
                                    (Seq<char>, SpecValue),
                                >::empty()) == acc2);
                                assert(insert_all(acc, ps_one) == insert_all(
                                    acc2,
                                    ps_one.drop_first(),
                                ));
                            }
                        }
                    },
                    None => {},
                }
            },
            _ => {},
        }
    }
}

/// The duplicate-key policy over a whole member stream: when a member list
/// parses, the resulting object holds each of the stream's keys at the
/// position of its first occurrence, mapped to the value of its last
/// occurrence.
pub proof fn lemma_member_stream_policy(ts: Seq<LexToken>)
    ensures
        match spec_member_list(ts) {
            Some((r, ps)) => {
                &&& spec_parse_members(ts, Seq::empty()) == Some(
                    (r, insert_all(Seq::empty(), ps)),
                )
                &&& forall|k: Seq<char>|
                    #[trigger] lookup_entry(insert_all(Seq::empty(), ps), k)
                        == last_value_of(ps, k)
                &&& entry_keys(insert_all(Seq::empty(), ps)) == first_new_keys(
                    ps,
                    Seq::empty(),
                )
            },
            None => spec_parse_members(ts, Seq::empty()) is None,
        },
{
    let empty = Seq::<(Seq<char>, SpecValue)>::empty();
    lemma_members_fold(ts, empty);
    match spec_member_list(ts) {
        Some((r, ps)) => {
            assert forall|k: Seq<char>| #[trigger] lookup_entry(insert_all(empty, ps), k)
                == last_value_of(ps, k) by {
                lemma_insert_all_last_wins(empty, ps, k);
                assert(lookup_entry(empty, k) is None);
            }
            lemma_insert_all_key_order(empty, ps);
            assert(entry_keys(empty) =~= Seq::<Seq<char>>::empty());
            assert(entry_keys(empty) + first_new_keys(ps, entry_keys(empty)) =~= first_new_keys(
                ps,
                Seq::<Seq<char>>::empty(),
            ));
        },
        None => {},
    }
}

/// Tokenizing, then parsing: a source text that scans to a single literal
/// token parses to the corresponding value variant, with no tokens left
/// over.
pub proof fn lemma_tokenize_literal(s: Seq<char>)
    requires
        crate::token::spec_tokenize(s).len() == 1,
    ensures
        crate::token::spec_tokenize(s)[0].kind matches LexKind::True ==> spec_parse_value(
            crate::token::spec_tokenize(s),
        ) == Some((Seq::<LexToken>::empty(), SpecValue::Boolean(true))),
        crate::token::spec_tokenize(s)[0].kind matches LexKind::False ==> spec_parse_value(
            crate::token::spec_tokenize(s),
        ) == Some((Seq::<LexToken>::empty(), SpecValue::Boolean(false))),
        crate::token::spec_tokenize(s)[0].kind matches LexKind::Null ==> spec_parse_value(
            crate::token::spec_tokenize(s),
        ) == Some((Seq::<LexToken>::empty(), SpecValue::Null)),
        forall|t: Seq<char>|
            crate::token::spec_tokenize(s)[0].kind == LexKind::Number(t) ==> spec_parse_value(
                crate::token::spec_tokenize(s),
            ) == Some((Seq::<LexToken>::empty(), SpecValue::Number(t))),
        forall|t: Seq<char>|
            crate::token::spec_tokenize(s)[0].kind == LexKind::String(t) ==> spec_parse_value(
                crate::token::spec_tokenize(s),
            ) == Some((Seq::<LexToken>::empty(), SpecValue::String(strip_quotes(t)))),
{
    let ts = crate::token::spec_tokenize(s);
    lemma_parse_literal(ts);
    assert(ts.drop_first() =~= Seq::<LexToken>::empty());
}

} // verus!
