//! The token model and the lexer.
//!
//! `tokenize` scans source text left to right into an ordered sequence of
//! typed tokens, each retaining its originating span (char offsets into the
//! source).  At each position the scanner greedily matches the longest
//! applicable pattern, in a fixed priority: structural single characters,
//! the keyword literals `true` / `false` / `null`, a number, a quoted
//! string, and whitespace (recognized but discarded, never emitted).  A
//! position at which no pattern matches ends the scan early: the tokens
//! produced so far are returned and the unscanned suffix is dropped, so a
//! parser consuming the sequence fails later with a missing-token error.
//!
//! The whole lexical grammar is captured by the spec functions below
//! (`spec_tokenize` and its helpers); the executable scanner is verified to
//! produce exactly that token sequence.

use vstd::prelude::*;

verus! {

/// The closed set of lexical categories.  `Number` carries the raw matched
/// text of the literal; `String` carries the raw matched text including the
/// surrounding quotes.  Number values are kept as their exact source text:
/// conversion to a machine float is left to unverified consumers.
/// `Whitespace` is part of the closed kind set but is discarded during
/// scanning and never appears in an emitted sequence.
#[derive(Debug, PartialEq)]
pub enum JsonTokenKind {
    OpenBrace,
    CloseBrace,
    OpenBracket,
    CloseBracket,
    Colon,
    Comma,
    True,
    False,
    Null,
    Number(String),
    String(String),
    Whitespace,
}

/// The mathematical image of a token kind: payloads become character
/// sequences.
pub enum LexKind {
    OpenBrace,
    CloseBrace,
    OpenBracket,
    CloseBracket,
    Colon,
    Comma,
    True,
    False,
    Null,
    Number(Seq<char>),
    String(Seq<char>),
    Whitespace,
}

impl View for JsonTokenKind {
    type V = LexKind;

    open spec fn view(&self) -> LexKind {
        match self {
            JsonTokenKind::OpenBrace => LexKind::OpenBrace,
            JsonTokenKind::CloseBrace => LexKind::CloseBrace,
            JsonTokenKind::OpenBracket => LexKind::OpenBracket,
            JsonTokenKind::CloseBracket => LexKind::CloseBracket,
            JsonTokenKind::Colon => LexKind::Colon,
            JsonTokenKind::Comma => LexKind::Comma,
            JsonTokenKind::True => LexKind::True,
            JsonTokenKind::False => LexKind::False,
            JsonTokenKind::Null => LexKind::Null,
            JsonTokenKind::Number(t) => LexKind::Number(t@),
            JsonTokenKind::String(t) => LexKind::String(t@),
            JsonTokenKind::Whitespace => LexKind::Whitespace,
        }
    }
}

/// One lexical unit: a kind together with the span (start and end char
/// offsets) of the text it was scanned from, and a borrow of that source
/// text, so that the rendered text can be sliced back out without a copy.
#[derive(Debug)]
pub struct JsonToken<'a> {
    pub source: &'a str,
    pub kind: JsonTokenKind,
    pub span: (usize, usize),
}

/// The mathematical image of a token: the source it points into, its kind,
/// and its span.
pub struct LexToken {
    pub src: Seq<char>,
    pub kind: LexKind,
    pub start: int,
    pub end: int,
}

impl<'a> View for JsonToken<'a> {
    type V = LexToken;

    open spec fn view(&self) -> LexToken {
        LexToken {
            src: self.source@,
            kind: self.kind@,
            start: self.span.0 as int,
            end: self.span.1 as int,
        }
    }
}

impl<'a> JsonToken<'a> {
    /// The rendered text of the token: exactly the slice of the source its
    /// span designates.
    pub fn text(&self) -> (r: &'a str)
        requires
            0 <= self.span.0 <= self.span.1 <= self.source@.len(),
        ensures
            r@ == self.source@.subrange(self.span.0 as int, self.span.1 as int),
    {
        self.source.substring_char(self.span.0, self.span.1)
    }
}

// ---------------------------------------------------------------------------
// The lexical grammar, as spec functions over a sequence of characters.
// ---------------------------------------------------------------------------

/// Whitespace characters: the usual ASCII space set.
pub open spec fn is_ws_char(c: char) -> bool {
    c == ' ' || c == '\t' || c == '\n' || c == '\r' || c == '\u{b}' || c == '\u{c}'
}

/// Decimal digits.
pub open spec fn is_digit(c: char) -> bool {
    48 <= c as u32 && c as u32 <= 57
}

/// The six structural single-character tokens.
pub open spec fn is_structural(c: char) -> bool {
    c == '{' || c == '}' || c == '[' || c == ']' || c == ':' || c == ','
}

/// The keyword `true` starts at position `p`.
pub open spec fn is_true_at(s: Seq<char>, p: int) -> bool {
    &&& p + 4 <= s.len()
    &&& s[p] == 't'
    &&& s[p + 1] == 'r'
    &&& s[p + 2] == 'u'
    &&& s[p + 3] == 'e'
}

/// The keyword `false` starts at position `p`.
pub open spec fn is_false_at(s: Seq<char>, p: int) -> bool {
    &&& p + 5 <= s.len()
    &&& s[p] == 'f'
    &&& s[p + 1] == 'a'
    &&& s[p + 2] == 'l'
    &&& s[p + 3] == 's'
    &&& s[p + 4] == 'e'
}

/// The keyword `null` starts at position `p`.
pub open spec fn is_null_at(s: Seq<char>, p: int) -> bool {
    &&& p + 4 <= s.len()
    &&& s[p] == 'n'
    &&& s[p + 1] == 'u'
    &&& s[p + 2] == 'l'
    &&& s[p + 3] == 'l'
}

/// The first position at or after `p` holding no digit: the end of the
/// maximal digit run starting at `p`.
pub open spec fn digits_end(s: Seq<char>, p: int) -> int
    decreases s.len() - p,
{
    if p < s.len() && is_digit(s[p]) {
        digits_end(s, p + 1)
    } else {
        p
    }
}

/// End of an optional fraction part (`.` followed by one or more digits) at
/// `p`; `p` itself when there is none.
pub open spec fn frac_end(s: Seq<char>, p: int) -> int {
    if p < s.len() && s[p] == '.' && digits_end(s, p + 1) > p + 1 {
        digits_end(s, p + 1)
    } else {
        p
    }
}

/// End of an optional exponent part (`e` or `E`, an optional sign, then one
/// or more digits) at `p`; `p` itself when there is none.
pub open spec fn exp_end(s: Seq<char>, p: int) -> int {
    if p < s.len() && (s[p] == 'e' || s[p] == 'E') {
        if p + 1 < s.len() && (s[p + 1] == '+' || s[p + 1] == '-') {
            if digits_end(s, p + 2) > p + 2 {
                digits_end(s, p + 2)
            } else {
                p
            }
        } else {
            if digits_end(s, p + 1) > p + 1 {
                digits_end(s, p + 1)
            } else {
                p
            }
        }
    } else {
        p
    }
}

/// End of a number token (`-?digits(.digits)?([eE][+-]?digits)?`) starting
/// at `p`; `p` itself when no number starts there.
pub open spec fn number_end(s: Seq<char>, p: int) -> int {
    let q = if p < s.len() && s[p] == '-' {
        p + 1
    } else {
        p
    };
    let d = digits_end(s, q);
    if d == q {
        p
    } else {
        exp_end(s, frac_end(s, d))
    }
}

/// Position just after the closing quote of a string body starting at `p`
/// (`p` is just after the opening quote), or `None` when the input ends
/// before the string is terminated.  A backslash escapes the character that
/// follows it.
pub open spec fn string_body_end(s: Seq<char>, p: int) -> Option<int>
    decreases s.len() - p,
{
    if p >= s.len() {
        None
    } else if s[p] == '"' {
        Some(p + 1)
    } else if s[p] == '\\' {
        if p + 1 < s.len() {
            string_body_end(s, p + 2)
        } else {
            None
        }
    } else {
        string_body_end(s, p + 1)
    }
}

/// End of the token starting at non-whitespace position `p`, matching the
/// longest applicable pattern in the fixed priority order; `p` itself when
/// no pattern matches (the scan stops there).
pub open spec fn token_end(s: Seq<char>, p: int) -> int {
    if p >= s.len() {
        p
    } else if is_structural(s[p]) {
        p + 1
    } else if is_true_at(s, p) {
        p + 4
    } else if is_false_at(s, p) {
        p + 5
    } else if is_null_at(s, p) {
        p + 4
    } else if number_end(s, p) > p {
        number_end(s, p)
    } else if s[p] == '"' {
        match string_body_end(s, p + 1) {
            Some(e) => e,
            None => p,
        }
    } else {
        p
    }
}

/// The kind of the token starting at `p`.  Meaningful only where
/// `token_end(s, p) > p`.
pub open spec fn token_kind_at(s: Seq<char>, p: int) -> LexKind {
    if p >= s.len() {
        LexKind::Whitespace
    } else if s[p] == '{' {
        LexKind::OpenBrace
    } else if s[p] == '}' {
        LexKind::CloseBrace
    } else if s[p] == '[' {
        LexKind::OpenBracket
    } else if s[p] == ']' {
        LexKind::CloseBracket
    } else if s[p] == ':' {
        LexKind::Colon
    } else if s[p] == ',' {
        LexKind::Comma
    } else if is_true_at(s, p) {
        LexKind::True
    } else if is_false_at(s, p) {
        LexKind::False
    } else if is_null_at(s, p) {
        LexKind::Null
    } else if number_end(s, p) > p {
        LexKind::Number(s.subrange(p, token_end(s, p)))
    } else if s[p] == '"' {
        LexKind::String(s.subrange(p, token_end(s, p)))
    } else {
        LexKind::Whitespace
    }
}

/// The token sequence scanned from position `p` on: whitespace characters
/// are skipped; at a token start the token is emitted and scanning resumes
/// after it; at any other character the scan ends with what was produced so
/// far.
pub open spec fn spec_tokenize_from(s: Seq<char>, p: int) -> Seq<LexToken>
    decreases s.len() - p,
{
    if p < 0 || p >= s.len() {
        Seq::empty()
    } else if is_ws_char(s[p]) {
        spec_tokenize_from(s, p + 1)
    } else {
        let e = token_end(s, p);
        let e2 = if e <= s.len() {
            e
        } else {
            s.len() as int
        };
        if e2 > p {
            seq![
                LexToken { src: s, kind: token_kind_at(s, p), start: p, end: e2 },
            ] + spec_tokenize_from(s, e2)
        } else {
            Seq::empty()
        }
    }
}

/// The token sequence of a whole source text.
pub open spec fn spec_tokenize(s: Seq<char>) -> Seq<LexToken> {
    spec_tokenize_from(s, 0)
}

// ---------------------------------------------------------------------------
// Well-formedness of emitted tokens.
// ---------------------------------------------------------------------------

/// A token is well formed when its span lies inside its source and is
/// non-empty, its payload (for the two payload-carrying kinds) is exactly
/// the spanned text with the shape the lexical grammar guarantees, and it is
/// not the discarded whitespace kind.
pub open spec fn wf_token(t: LexToken) -> bool {
    &&& 0 <= t.start < t.end <= t.src.len()
    &&& !(t.kind is Whitespace)
    &&& (t.kind matches LexKind::Number(txt) ==> {
        &&& txt == t.src.subrange(t.start, t.end)
        &&& txt.len() >= 1
    })
    &&& (t.kind matches LexKind::String(txt) ==> {
        &&& txt == t.src.subrange(t.start, t.end)
        &&& txt.len() >= 2
        &&& txt[0] == '"'
        &&& txt[txt.len() - 1] == '"'
    })
}

/// Every token of a token sequence is well formed.
pub open spec fn wf_tokens(ts: Seq<LexToken>) -> bool {
    forall|i: int| 0 <= i < ts.len() ==> wf_token(#[trigger] ts[i])
}

/// The view of a sequence of tokens.
pub open spec fn lex_view<'a>(ts: Seq<JsonToken<'a>>) -> Seq<LexToken> {
    ts.map_values(|t: JsonToken<'a>| t@)
}

pub proof fn lemma_digits_end_bounds(s: Seq<char>, p: int)
    requires
        0 <= p <= s.len(),
    ensures
        p <= digits_end(s, p) <= s.len(),
    decreases s.len() - p,
{
    if p < s.len() && is_digit(s[p]) {
        lemma_digits_end_bounds(s, p + 1);
    }
}

pub proof fn lemma_string_body_end_bounds(s: Seq<char>, p: int)
    requires
        0 <= p <= s.len(),
    ensures
        string_body_end(s, p) matches Some(e) ==> p < e <= s.len() && s[e - 1] == '"',
    decreases s.len() - p,
{
    if p < s.len() {
        if s[p] == '"' {
        } else if s[p] == '\\' {
            if p + 1 < s.len() {
                lemma_string_body_end_bounds(s, p + 2);
            }
        } else {
            lemma_string_body_end_bounds(s, p + 1);
        }
    }
}

pub proof fn lemma_number_end_bounds(s: Seq<char>, p: int)
    requires
        0 <= p <= s.len(),
    ensures
        p <= number_end(s, p) <= s.len(),
{
    let q = if p < s.len() && s[p] == '-' {
        p + 1
    } else {
        p
    };
    lemma_digits_end_bounds(s, q);
    let d = digits_end(s, q);
    if d != q {
        if d < s.len() && s[d] == '.' {
            lemma_digits_end_bounds(s, d + 1);
        }
        let f = frac_end(s, d);
        if f < s.len() && (s[f] == 'e' || s[f] == 'E') {
            if f + 1 < s.len() && (s[f + 1] == '+' || s[f + 1] == '-') {
                lemma_digits_end_bounds(s, f + 2);
            } else {
                lemma_digits_end_bounds(s, f + 1);
            }
        }
    }
}

pub proof fn lemma_token_end_bounds(s: Seq<char>, p: int)
    requires
        0 <= p <= s.len(),
    ensures
        p <= token_end(s, p) <= s.len(),
{
    if p < s.len() {
        lemma_number_end_bounds(s, p);
        lemma_string_body_end_bounds(s, p + 1);
    }
}

/// The tokens scanned from position `p` on are well formed, lie at or after
/// `p` in the source they all point into, and their spans are disjoint and
/// strictly increasing.
pub proof fn lemma_spec_tokenize_from_wf(s: Seq<char>, p: int)
    requires
        0 <= p,
    ensures
        wf_tokens(spec_tokenize_from(s, p)),
        forall|i: int|
            0 <= i < spec_tokenize_from(s, p).len() ==> {
                &&& (#[trigger] spec_tokenize_from(s, p)[i]).src == s
                &&& spec_tokenize_from(s, p)[i].start >= p
            },
        forall|i: int|
            0 <= i < spec_tokenize_from(s, p).len() - 1
                ==> (#[trigger] spec_tokenize_from(s, p)[i]).end <= spec_tokenize_from(
                s,
                p,
            )[i + 1].start,
    decreases s.len() - p,
{
    if p < s.len() {
        if is_ws_char(s[p]) {
            lemma_spec_tokenize_from_wf(s, p + 1);
        } else {
            lemma_token_end_bounds(s, p);
            let e = token_end(s, p);
            if e > p {
                lemma_spec_tokenize_from_wf(s, e);
                lemma_number_end_bounds(s, p);
                lemma_string_body_end_bounds(s, p + 1);
            }
        }
    }
}

/// The spans of a scanned token sequence never overlap and come in strictly
/// increasing source order; each token renders exactly the slice of the
/// source its span designates.
pub proof fn lemma_spec_tokenize_spans(s: Seq<char>)
    ensures
        wf_tokens(spec_tokenize(s)),
        forall|i: int|
            0 <= i < spec_tokenize(s).len() ==> (#[trigger] spec_tokenize(s)[i]).src == s,
        forall|i: int|
            0 <= i < spec_tokenize(s).len() - 1 ==> (#[trigger] spec_tokenize(s)[i]).end
                <= spec_tokenize(s)[i + 1].start,
{
    lemma_spec_tokenize_from_wf(s, 0);
}

// ---------------------------------------------------------------------------
// The executable scanner.
// ---------------------------------------------------------------------------

/// Whether `c` is a whitespace character.
fn ws_char(c: char) -> (r: bool)
    ensures
        r == is_ws_char(c),
{
    c == ' ' || c == '\t' || c == '\n' || c == '\r' || c == '\u{b}' || c == '\u{c}'
}

/// Whether `c` is a decimal digit.
fn digit_char(c: char) -> (r: bool)
    ensures
        r == is_digit(c),
{
    48 <= c as u32 && c as u32 <= 57
}

/// Advances over the maximal run of digits starting at `from`.
fn scan_digits(s: &str, from: usize, len: usize) -> (r: usize)
    requires
        from <= s@.len(),
        len == s@.len(),
    ensures
        r == digits_end(s@, from as int),
        from <= r <= len,
{
    let mut i: usize = from;
    while i < len && digit_char(s.get_char(i))
        invariant
            from <= i <= len,
            len == s@.len(),
            digits_end(s@, from as int) == digits_end(s@, i as int),
        decreases len - i,
    {
        i = i + 1;
    }
    i
}

/// Scans a string body starting just after the opening quote; returns the
/// position just after the closing quote, or `None` when the input ends
/// first.
fn scan_string_body(s: &str, from: usize, len: usize) -> (r: Option<usize>)
    requires
        from <= s@.len(),
        len == s@.len(),
    ensures
        r matches Some(e) ==> string_body_end(s@, from as int) == Some(e as int) && from < e
            <= len,
        r is None ==> string_body_end(s@, from as int) is None,
{
    let mut i: usize = from;
    loop
        invariant
            from <= i <= len,
            len == s@.len(),
            string_body_end(s@, from as int) == string_body_end(s@, i as int),
        decreases len - i,
    {
        if i >= len {
            return None;
        }
        let c = s.get_char(i);
        if c == '"' {
            return Some(i + 1);
        }
        if c == '\\' {
            if i + 1 < len {
                i = i + 2;
            } else {
                return None;
            }
        } else {
            i = i + 1;
        }
    }
}

/// A scanner over a borrowed source text: the source and the position the
/// scan has reached, counted in chars.
pub struct JsonLexer<'a> {
    pub source: &'a str,
    pub pos: usize,
}

impl<'a> JsonLexer<'a> {
    /// The position never runs past the end of the source.
    pub open spec fn wf(&self) -> bool {
        self.pos <= self.source@.len()
    }

    /// The tokens the scanner has yet to produce.
    pub open spec fn remaining(&self) -> Seq<LexToken> {
        spec_tokenize_from(self.source@, self.pos as int)
    }

    /// A fresh scanner at the start of `source`.
    pub fn new(source: &'a str) -> (r: Self)
        ensures
            r.source == source,
            r.wf(),
            r.remaining() == spec_tokenize(source@),
    {
        JsonLexer { source, pos: 0 }
    }

    /// Produces the next token, or `None` when the scan is over — either
    /// because the source is exhausted or because no pattern matches at the
    /// current position (the truncating stop of the lexical grammar).
    pub fn next(&mut self) -> (r: Option<JsonToken<'a>>)
        requires
            old(self).wf(),
        ensures
            final(self).wf(),
            final(self).source == old(self).source,
            match r {
                Some(t) => {
                    &&& old(self).remaining().len() > 0
                    &&& t@ == old(self).remaining()[0]
                    &&& final(self).remaining() == old(self).remaining().drop_first()
                    &&& t.source == old(self).source
                },
                None => {
                    &&& old(self).remaining() =~= Seq::<LexToken>::empty()
                    &&& final(self).remaining() =~= Seq::<LexToken>::empty()
                },
            },
    {
        let ghost s = self.source@;
        let len = self.source.unicode_len();
        while self.pos < len && ws_char(self.source.get_char(self.pos))
            invariant
                self.source@ == s,
                self.source == old(self).source,
                self.pos <= len,
                len == s.len(),
                spec_tokenize_from(s, self.pos as int) == old(self).remaining(),
            decreases len - self.pos,
        {
            self.pos = self.pos + 1;
        }
        if self.pos >= len {
            return None;
        }
        let start = self.pos;
        let ghost p = start as int;
        proof {
            lemma_token_end_bounds(s, p);
        }
        let c = self.source.get_char(start);
        let (kind, end): (JsonTokenKind, usize) = if c == '{' {
            (JsonTokenKind::OpenBrace, start + 1)
        } else if c == '}' {
            (JsonTokenKind::CloseBrace, start + 1)
        } else if c == '[' {
            (JsonTokenKind::OpenBracket, start + 1)
        } else if c == ']' {
            (JsonTokenKind::CloseBracket, start + 1)
        } else if c == ':' {
            (JsonTokenKind::Colon, start + 1)
        } else if c == ',' {
            (JsonTokenKind::Comma, start + 1)
        } else if c == 't' {
            if len - start >= 4 && self.source.get_char(start + 1) == 'r'
                && self.source.get_char(start + 2) == 'u' && self.source.get_char(start + 3)
                == 'e' {
                (JsonTokenKind::True, start + 4)
            } else {
                return None;
            }
        } else if c == 'f' {
            if len - start >= 5 && self.source.get_char(start + 1) == 'a'
                && self.source.get_char(start + 2) == 'l' && self.source.get_char(start + 3)
                == 's' && self.source.get_char(start + 4) == 'e' {
                (JsonTokenKind::False, start + 5)
            } else {
                return None;
            }
        } else if c == 'n' {
            if len - start >= 4 && self.source.get_char(start + 1) == 'u'
                && self.source.get_char(start + 2) == 'l' && self.source.get_char(start + 3)
                == 'l' {
                (JsonTokenKind::Null, start + 4)
            } else {
                return None;
            }
        } else if c == '-' || digit_char(c) {
            let q = if c == '-' {
                start + 1
            } else {
                start
            };
            let d = scan_digits(self.source, q, len);
            if d == q {
                return None;
            }
            let mut e = d;
            if e < len && self.source.get_char(e) == '.' {
                let d2 = scan_digits(self.source, e + 1, len);
                if d2 > e + 1 {
                    e = d2;
                }
            }
            assert(e == frac_end(s, d as int));
            if e < len {
                let c2 = self.source.get_char(e);
                if c2 == 'e' || c2 == 'E' {
                    let q2 = if e + 1 < len {
                        let c3 = self.source.get_char(e + 1);
                        if c3 == '+' || c3 == '-' {
                            e + 2
                        } else {
                            e + 1
                        }
                    } else {
                        e + 1
                    };
                    let d3 = scan_digits(self.source, q2, len);
                    if d3 > q2 {
                        e = d3;
                    }
                }
            }
            assert(e == number_end(s, p));
            let payload = self.source.substring_char(start, e).to_owned();
            (JsonTokenKind::Number(payload), e)
        } else if c == '"' {
            match scan_string_body(self.source, start + 1, len) {
                Some(e) => {
                    let payload = self.source.substring_char(start, e).to_owned();
                    (JsonTokenKind::String(payload), e)
                },
                None => {
                    return None;
                },
            }
        } else {
            return None;
        };
        assert(end == token_end(s, p));
        assert(kind@ == token_kind_at(s, p));
        let tok = JsonToken { source: self.source, kind, span: (start, end) };
        self.pos = end;
        proof {
            assert(spec_tokenize_from(s, p) == seq![tok@] + spec_tokenize_from(s, end as int));
            assert(spec_tokenize_from(s, p).drop_first() =~= spec_tokenize_from(s, end as int));
        }
        Some(tok)
    }
}

/// Scans the whole source into its token sequence: exactly the sequence the
/// lexical grammar (`spec_tokenize`) assigns to the text, every token well
/// formed and pointing back into `source`.
pub fn tokenize<'a>(source: &'a str) -> (r: Vec<JsonToken<'a>>)
    ensures
        lex_view(r@) == spec_tokenize(source@),
        wf_tokens(lex_view(r@)),
        forall|i: int| 0 <= i < r@.len() ==> (#[trigger] r@[i]).source == source,
{
    let mut lexer = JsonLexer::new(source);
    let mut out: Vec<JsonToken<'a>> = Vec::new();
    proof {
        lemma_spec_tokenize_spans(source@);
        assert(lex_view(out@) + lexer.remaining() =~= spec_tokenize(source@));
    }
    loop
        invariant
            lexer.wf(),
            lexer.source == source,
            lex_view(out@) + lexer.remaining() == spec_tokenize(source@),
            forall|i: int| 0 <= i < out@.len() ==> (#[trigger] out@[i]).source == source,
        ensures
            lex_view(out@) == spec_tokenize(source@),
            forall|i: int| 0 <= i < out@.len() ==> (#[trigger] out@[i]).source == source,
        decreases lexer.remaining().len(),
    {
        let ghost before = lexer.remaining();
        let ghost out_before = out@;
        match lexer.next() {
            Some(t) => {
                out.push(t);
                proof {
                    assert(lex_view(out@) =~= lex_view(out_before).push(t@));
                    assert(lex_view(out@) + lexer.remaining() =~= spec_tokenize(source@));
                }
            },
            None => {
                proof {
                    assert(lex_view(out@) =~= spec_tokenize(source@));
                }
                break;
            },
        }
    }
    proof {
        assert(lex_view(out@) =~= spec_tokenize(source@));
        lemma_spec_tokenize_spans(source@);
    }
    out
}

} // verus!
