//! Splits source text into tokens, each with the byte span it covers and whether white
//! space, or a line break, separates it from the token before.
//!
//! White space is spaces, tabs, carriage returns and line breaks; `//` starts a comment that
//! runs to the end of its line. Identifiers are ASCII letters, digits and `_`, not starting
//! with a digit. An integer is a run of digits; a float is digits, `.` and digits. A string
//! runs from `"` to the next `"` that no backslash escapes. [`lex`] states the tokens of a
//! text; [`tokenize`] is proved to produce them.

use vstd::prelude::*;

use super::error::SyntaxError;
use crate::diagnostics::{byte_offset, lemma_byte_offset_monotonic, utf8_width, utf8_width_of};
use crate::span::SourceSpan;
use crate::text::string_from_chars;

verus! {

#[derive(Debug)]
pub enum TokenKind {
    Ident(String),
    /// The digits as written.
    Int(String),
    /// The literal as written.
    Float(String),
    /// The characters between the quotes, escapes not yet resolved.
    Str(String),
    Let,
    Type,
    If,
    Else,
    True,
    False,
    LParen,
    RParen,
    LBrace,
    RBrace,
    Comma,
    Colon,
    Semicolon,
    Dot,
    Arrow,
    Assign,
    Plus,
    Minus,
    Star,
    Slash,
    AndAnd,
    OrOr,
    Lt,
    Gt,
    Le,
    Ge,
    EqEq,
    NotEq,
    Bang,
    Pipe,
}

#[derive(Debug)]
pub struct Token {
    pub kind: TokenKind,
    pub span: SourceSpan,
    /// A line break lies between this token and the one before it.
    pub newline_before: bool,
    /// White space or a comment lies between this token and the one before it.
    pub space_before: bool,
}

/// A lexeme as the lexer reads it: a name, a number or string with its text, or a fixed
/// token.
pub enum Lexeme {
    Ident(Seq<char>),
    Int(Seq<char>),
    Float(Seq<char>),
    Str(Seq<char>),
    Fixed(TokenKind),
}

/// A token, in mathematical form.
pub struct TokenForm {
    pub lexeme: Lexeme,
    pub span: SourceSpan,
    pub newline_before: bool,
    pub space_before: bool,
}

/// The lexeme a token kind records.
pub open spec fn kind_lexeme(k: TokenKind) -> Lexeme {
    match k {
        TokenKind::Ident(s) => Lexeme::Ident(s@),
        TokenKind::Int(s) => Lexeme::Int(s@),
        TokenKind::Float(s) => Lexeme::Float(s@),
        TokenKind::Str(s) => Lexeme::Str(s@),
        k => Lexeme::Fixed(k),
    }
}

pub open spec fn token_form(t: Token) -> TokenForm {
    TokenForm {
        lexeme: kind_lexeme(t.kind),
        span: t.span,
        newline_before: t.newline_before,
        space_before: t.space_before,
    }
}

pub open spec fn token_forms(ts: Seq<Token>) -> Seq<TokenForm> {
    Seq::new(ts.len(), |i: int| token_form(ts[i]))
}

/// The bytes of the characters `k..e`.
pub open spec fn chars_span(s: Seq<char>, k: int, e: int) -> SourceSpan {
    SourceSpan { offset: byte_offset(s, k) as usize, len: (byte_offset(s, e) - byte_offset(s, k)) as usize }
}

pub open spec fn is_blank(c: char) -> bool {
    c == ' ' || c == '\t' || c == '\r'
}

/// The first index from `k` that holds no digit.
pub open spec fn digits_end(s: Seq<char>, k: int) -> int
    decreases s.len() - k,
{
    if 0 <= k < s.len() && is_digit(s[k]) {
        digits_end(s, k + 1)
    } else {
        k
    }
}

/// The first index from `k` that holds no identifier character.
pub open spec fn ident_end(s: Seq<char>, k: int) -> int
    decreases s.len() - k,
{
    if 0 <= k < s.len() && is_ident_char(s[k]) {
        ident_end(s, k + 1)
    } else {
        k
    }
}

/// The first index from `k` that holds a line break, or the end.
pub open spec fn line_end(s: Seq<char>, k: int) -> int
    decreases s.len() - k,
{
    if 0 <= k < s.len() && s[k] != '\n' {
        line_end(s, k + 1)
    } else {
        k
    }
}

/// The index after the `"` that closes a string whose text starts at `k`, a backslash
/// escaping the character after it; `None` where the text ends first.
pub open spec fn string_end(s: Seq<char>, k: int) -> Option<int>
    decreases s.len() - k,
{
    if !(0 <= k < s.len()) {
        None
    } else if s[k] == '"' {
        Some(k + 1)
    } else if s[k] == '\\' && k + 1 < s.len() {
        string_end(s, k + 2)
    } else {
        string_end(s, k + 1)
    }
}

/// The keyword a word spells.
pub open spec fn keyword_of(w: Seq<char>) -> Option<TokenKind> {
    if w.len() == 2 && w[0] == 'i' && w[1] == 'f' {
        Some(TokenKind::If)
    } else if w.len() == 3 && w[0] == 'l' && w[1] == 'e' && w[2] == 't' {
        Some(TokenKind::Let)
    } else if w.len() == 4 && w[0] == 't' && w[1] == 'y' && w[2] == 'p' && w[3] == 'e' {
        Some(TokenKind::Type)
    } else if w.len() == 4 && w[0] == 'e' && w[1] == 'l' && w[2] == 's' && w[3] == 'e' {
        Some(TokenKind::Else)
    } else if w.len() == 4 && w[0] == 't' && w[1] == 'r' && w[2] == 'u' && w[3] == 'e' {
        Some(TokenKind::True)
    } else if w.len() == 5 && w[0] == 'f' && w[1] == 'a' && w[2] == 'l' && w[3] == 's' && w[4]
        == 'e' {
        Some(TokenKind::False)
    } else {
        None
    }
}

/// The punctuation or operator `c` starts, given the character after it, and whether it
/// takes that character too.
pub open spec fn punctuation(c: char, next: char) -> Option<(TokenKind, bool)> {
    if c == '(' {
        Some((TokenKind::LParen, false))
    } else if c == ')' {
        Some((TokenKind::RParen, false))
    } else if c == '{' {
        Some((TokenKind::LBrace, false))
    } else if c == '}' {
        Some((TokenKind::RBrace, false))
    } else if c == ',' {
        Some((TokenKind::Comma, false))
    } else if c == ':' {
        Some((TokenKind::Colon, false))
    } else if c == ';' {
        Some((TokenKind::Semicolon, false))
    } else if c == '.' {
        Some((TokenKind::Dot, false))
    } else if c == '+' {
        Some((TokenKind::Plus, false))
    } else if c == '-' {
        Some((TokenKind::Minus, false))
    } else if c == '*' {
        Some((TokenKind::Star, false))
    } else if c == '/' {
        Some((TokenKind::Slash, false))
    } else if c == '=' && next == '>' {
        Some((TokenKind::Arrow, true))
    } else if c == '=' && next == '=' {
        Some((TokenKind::EqEq, true))
    } else if c == '=' {
        Some((TokenKind::Assign, false))
    } else if c == '!' && next == '=' {
        Some((TokenKind::NotEq, true))
    } else if c == '!' {
        Some((TokenKind::Bang, false))
    } else if c == '<' && next == '=' {
        Some((TokenKind::Le, true))
    } else if c == '<' {
        Some((TokenKind::Lt, false))
    } else if c == '>' && next == '=' {
        Some((TokenKind::Ge, true))
    } else if c == '>' {
        Some((TokenKind::Gt, false))
    } else if c == '&' && next == '&' {
        Some((TokenKind::AndAnd, true))
    } else if c == '|' && next == '|' {
        Some((TokenKind::OrOr, true))
    } else if c == '|' && next == '>' {
        Some((TokenKind::Pipe, true))
    } else {
        None
    }
}

/// The lexeme that starts at `k`, a character that is neither white space nor the start of
/// a comment, and the index after it; or the message and span of the error.
pub open spec fn lexeme_at(s: Seq<char>, k: int) -> Result<(Lexeme, int), (&'static str, SourceSpan)> {
    let c = s[k];
    if is_digit(c) {
        let e = digits_end(s, k + 1);
        if e + 1 < s.len() && s[e] == '.' && is_digit(s[e + 1]) {
            let f = digits_end(s, e + 1);
            Ok((Lexeme::Float(s.subrange(k, f)), f))
        } else {
            Ok((Lexeme::Int(s.subrange(k, e)), e))
        }
    } else if is_ident_start(c) {
        let e = ident_end(s, k + 1);
        match keyword_of(s.subrange(k, e)) {
            Some(kw) => Ok((Lexeme::Fixed(kw), e)),
            None => Ok((Lexeme::Ident(s.subrange(k, e)), e)),
        }
    } else if c == '"' {
        match string_end(s, k + 1) {
            Some(e) => Ok((Lexeme::Str(s.subrange(k + 1, e - 1)), e)),
            None => Err(
                (
                    "unterminated string literal",
                    SourceSpan { offset: byte_offset(s, k) as usize, len: 1 },
                ),
            ),
        }
    } else {
        let next = if k + 1 < s.len() {
            s[k + 1]
        } else {
            ' '
        };
        match punctuation(c, next) {
            Some((kind, two)) => Ok(
                (
                    Lexeme::Fixed(kind),
                    if two {
                        k + 2
                    } else {
                        k + 1
                    },
                ),
            ),
            None => Err(("unexpected character", chars_span(s, k, k + 1))),
        }
    }
}

/// The tokens of `s` from index `k`, added to `acc`; `nl` and `sp` say whether a line break
/// or any white space or comment came since the last token. An error gives its message and
/// span.
pub open spec fn lex_from(s: Seq<char>, k: int, nl: bool, sp: bool, acc: Seq<TokenForm>) -> Result<
    Seq<TokenForm>,
    (&'static str, SourceSpan),
>
    decreases s.len() - k,
{
    if !(0 <= k < s.len()) {
        Ok(acc)
    } else if s[k] == '\n' {
        lex_from(s, k + 1, true, true, acc)
    } else if is_blank(s[k]) {
        lex_from(s, k + 1, nl, true, acc)
    } else if s[k] == '/' && k + 1 < s.len() && s[k + 1] == '/' {
        let e = line_end(s, k + 2);
        if e <= k || e > s.len() {
            Ok(acc)
        } else {
            lex_from(s, e, nl, true, acc)
        }
    } else {
        match lexeme_at(s, k) {
            Err(error) => Err(error),
            Ok((lexeme, e)) => if e <= k || e > s.len() {
                Ok(acc)
            } else {
                lex_from(
                    s,
                    e,
                    false,
                    false,
                    acc.push(
                        TokenForm {
                            lexeme,
                            span: chars_span(s, k, e),
                            newline_before: nl,
                            space_before: sp,
                        },
                    ),
                )
            },
        }
    }
}

/// The tokens of a text, or the message and span of the first lexical error.
pub open spec fn lex(s: Seq<char>) -> Result<Seq<TokenForm>, (&'static str, SourceSpan)> {
    lex_from(s, 0, false, false, Seq::empty())
}

/// Byte length of the text.
pub open spec fn text_len(chars: Seq<char>) -> nat {
    byte_offset(chars, chars.len() as int)
}

pub open spec fn is_digit(c: char) -> bool {
    '0' <= c && c <= '9'
}

pub open spec fn all_digits(s: Seq<char>) -> bool {
    forall|i: int| 0 <= i < s.len() ==> is_digit(#[trigger] s[i])
}

/// Tokens lie inside the first `limit` bytes, in order and without overlap, each covering at
/// least one byte; an integer token is a non-empty run of digits.
pub open spec fn tokens_wf(tokens: Seq<Token>, limit: nat) -> bool {
    &&& forall|i: int| 0 <= i < tokens.len() ==> #[trigger] tokens[i].span.end() <= limit
    &&& tokens_ordered(tokens)
}

pub open spec fn tokens_ordered(tokens: Seq<Token>) -> bool {
    &&& forall|i: int| 0 <= i < tokens.len() ==> #[trigger] tokens[i].span.len > 0
    &&& forall|i: int, j: int|
        #![trigger tokens[i], tokens[j]]
        0 <= i < j < tokens.len() ==> tokens[i].span.end() <= tokens[j].span.offset
    &&& forall|i: int|
        0 <= i < tokens.len() ==> (#[trigger] tokens[i].kind matches TokenKind::Int(t) ==> t@.len()
            > 0 && all_digits(t@))
}

/// The value of a run of decimal digits.
pub open spec fn decimal_value(s: Seq<char>) -> nat
    decreases s.len(),
{
    if s.len() == 0 {
        0
    } else {
        decimal_value(s.drop_last()) * 10 + ((s.last() as int) - ('0' as int)) as nat
    }
}

proof fn lemma_decimal_value_prefix(s: Seq<char>, k: int)
    requires
        0 <= k <= s.len(),
        all_digits(s),
    ensures
        decimal_value(s.take(k)) <= decimal_value(s),
    decreases s.len() - k,
{
    if k < s.len() {
        lemma_decimal_value_prefix(s, k + 1);
        assert(s.take(k + 1).drop_last() =~= s.take(k));
        assert(is_digit(s[k]));
    } else {
        assert(s.take(k) =~= s);
    }
}

/// The value of an integer literal, or `None` when it does not fit in an `i64`.
pub fn int_literal_value(digits: &String) -> (value: Option<i64>)
    requires
        all_digits(digits@),
    ensures
        match value {
            Some(n) => n == decimal_value(digits@),
            None => decimal_value(digits@) > i64::MAX,
        },
{
    let chars = crate::text::chars_of(digits.as_str());
    let mut acc: i64 = 0;
    let mut i: usize = 0;
    while i < chars.len()
        invariant
            chars@ == digits@,
            all_digits(digits@),
            i <= chars.len(),
            acc == decimal_value(digits@.take(i as int)),
        decreases chars.len() - i,
    {
        let c = chars[i];
        assert(is_digit(digits@[i as int]));
        let d = (c as u32 - '0' as u32) as i64;
        assert(digits@.take(i + 1).drop_last() =~= digits@.take(i as int));
        if acc > (i64::MAX - d) / 10 {
            proof {
                assert(decimal_value(digits@.take(i + 1)) > i64::MAX) by (nonlinear_arith)
                    requires
                        acc > (i64::MAX - d) / 10,
                        0 <= d <= 9,
                        decimal_value(digits@.take(i + 1)) == acc * 10 + d,
                ;
                lemma_decimal_value_prefix(digits@, i + 1);
            }
            return None;
        }
        assert(acc * 10 + d <= i64::MAX) by (nonlinear_arith)
            requires
                acc <= (i64::MAX - d) / 10,
                0 <= d <= 9,
        ;
        acc = acc * 10 + d;
        i = i + 1;
    }
    assert(digits@.take(chars.len() as int) =~= digits@);
    Some(acc)
}

pub open spec fn is_ident_start(c: char) -> bool {
    ('a' <= c && c <= 'z') || ('A' <= c && c <= 'Z') || c == '_'
}

pub open spec fn is_ident_char(c: char) -> bool {
    is_ident_start(c) || is_digit(c)
}

fn digit(c: char) -> (b: bool)
    ensures
        b == is_digit(c),
{
    '0' <= c && c <= '9'
}

fn ident_start(c: char) -> (b: bool)
    ensures
        b == is_ident_start(c),
{
    ('a' <= c && c <= 'z') || ('A' <= c && c <= 'Z') || c == '_'
}

fn ident_char(c: char) -> (b: bool)
    ensures
        b == is_ident_char(c),
{
    ident_start(c) || digit(c)
}

/// The characters `chars[from..to]` as a string.
fn text_between(chars: &Vec<char>, from: usize, to: usize) -> (s: String)
    requires
        from <= to <= chars.len(),
    ensures
        s@ == chars@.subrange(from as int, to as int),
{
    let mut part: Vec<char> = Vec::new();
    let mut i = from;
    while i < to
        invariant
            from <= i <= to <= chars.len(),
            part@ == chars@.subrange(from as int, i as int),
        decreases to - i,
    {
        part.push(chars[i]);
        i = i + 1;
        assert(part@ =~= chars@.subrange(from as int, i as int));
    }
    string_from_chars(&part)
}

/// The keyword spelled by `word`, if it is one.
fn keyword(word: &Vec<char>) -> (kind: Option<TokenKind>)
    ensures
        kind == keyword_of(word@),
{
    let n = word.len();
    if n == 2 && word[0] == 'i' && word[1] == 'f' {
        Some(TokenKind::If)
    } else if n == 3 && word[0] == 'l' && word[1] == 'e' && word[2] == 't' {
        Some(TokenKind::Let)
    } else if n == 4 && word[0] == 't' && word[1] == 'y' && word[2] == 'p' && word[3] == 'e' {
        Some(TokenKind::Type)
    } else if n == 4 && word[0] == 'e' && word[1] == 'l' && word[2] == 's' && word[3] == 'e' {
        Some(TokenKind::Else)
    } else if n == 4 && word[0] == 't' && word[1] == 'r' && word[2] == 'u' && word[3] == 'e' {
        Some(TokenKind::True)
    } else if n == 5 && word[0] == 'f' && word[1] == 'a' && word[2] == 'l' && word[3] == 's'
        && word[4] == 'e' {
        Some(TokenKind::False)
    } else {
        None
    }
}

/// Steps over one character: its index and the byte offset after it.
fn advance(chars: &Vec<char>, k: usize, b: usize) -> (next: (usize, usize))
    requires
        k < chars.len(),
        b == byte_offset(chars@, k as int),
        text_len(chars@) <= usize::MAX,
    ensures
        next.0 == k + 1,
        next.1 == byte_offset(chars@, k + 1),
        next.1 > b,
{
    proof {
        lemma_byte_offset_monotonic(chars@, k + 1, chars@.len() as int);
        assert(byte_offset(chars@, k + 1) == b + utf8_width(chars@[k as int]));
        assert(b + utf8_width(chars@[k as int]) <= usize::MAX);
    }
    (k + 1, b + utf8_width_of(chars[k]))
}

/// Steps over characters while `is_digit` holds: the index and byte offset where it stops.
fn scan_digits(chars: &Vec<char>, from: usize, from_b: usize) -> (end: (usize, usize))
    requires
        from <= chars.len(),
        from_b == byte_offset(chars@, from as int),
        text_len(chars@) <= usize::MAX,
    ensures
        end.0 == digits_end(chars@, from as int),
        from <= end.0 <= chars.len(),
        end.1 == byte_offset(chars@, end.0 as int),
        forall|i: int| from <= i < end.0 ==> is_digit(#[trigger] chars@[i]),
{
    let mut k = from;
    let mut b = from_b;
    let ghost start = k as int;
    while k < chars.len() && digit(chars[k])
        invariant
            start == from,
            start <= k <= chars.len(),
            b == byte_offset(chars@, k as int),
            text_len(chars@) <= usize::MAX,
            digits_end(chars@, k as int) == digits_end(chars@, start),
            forall|i: int| start <= i < k ==> is_digit(#[trigger] chars@[i]),
        decreases chars.len() - k,
    {
        let (k1, b1) = advance(chars, k, b);
        k = k1;
        b = b1;
    }
    (k, b)
}

/// Steps over identifier characters: the index and byte offset where they stop.
fn scan_ident(chars: &Vec<char>, from: usize, from_b: usize) -> (end: (usize, usize))
    requires
        from <= chars.len(),
        from_b == byte_offset(chars@, from as int),
        text_len(chars@) <= usize::MAX,
    ensures
        end.0 == ident_end(chars@, from as int),
        from <= end.0 <= chars.len(),
        end.1 == byte_offset(chars@, end.0 as int),
{
    let mut k = from;
    let mut b = from_b;
    let ghost start = k as int;
    while k < chars.len() && ident_char(chars[k])
        invariant
            start == from,
            start <= k <= chars.len(),
            b == byte_offset(chars@, k as int),
            text_len(chars@) <= usize::MAX,
            ident_end(chars@, k as int) == ident_end(chars@, start),
        decreases chars.len() - k,
    {
        let (k1, b1) = advance(chars, k, b);
        k = k1;
        b = b1;
    }
    (k, b)
}

/// Steps to the end of the line: the index and byte offset of its line break, or the end.
fn scan_line(chars: &Vec<char>, from: usize, from_b: usize) -> (end: (usize, usize))
    requires
        from <= chars.len(),
        from_b == byte_offset(chars@, from as int),
        text_len(chars@) <= usize::MAX,
    ensures
        end.0 == line_end(chars@, from as int),
        from <= end.0 <= chars.len(),
        end.1 == byte_offset(chars@, end.0 as int),
{
    let mut k = from;
    let mut b = from_b;
    let ghost start = k as int;
    while k < chars.len() && chars[k] != '\n'
        invariant
            start == from,
            start <= k <= chars.len(),
            b == byte_offset(chars@, k as int),
            text_len(chars@) <= usize::MAX,
            line_end(chars@, k as int) == line_end(chars@, start),
        decreases chars.len() - k,
    {
        let (k1, b1) = advance(chars, k, b);
        k = k1;
        b = b1;
    }
    (k, b)
}

/// Steps over a string's text from `k` to past its closing `"`: the index and byte offset
/// after it, or `None` where the text ends first.
fn scan_string(chars: &Vec<char>, from: usize, from_b: usize) -> (end: Option<(usize, usize)>)
    requires
        from <= chars.len(),
        from_b == byte_offset(chars@, from as int),
        text_len(chars@) <= usize::MAX,
    ensures
        match end {
            Some((e, be)) => string_end(chars@, from as int) == Some(e as int) && from < e <= chars.len()
                && be == byte_offset(chars@, e as int),
            None => string_end(chars@, from as int) is None,
        },
{
    let mut k = from;
    let mut b = from_b;
    let ghost start = k as int;
    while k < chars.len()
        invariant
            start == from,
            start <= k <= chars.len(),
            b == byte_offset(chars@, k as int),
            text_len(chars@) <= usize::MAX,
            string_end(chars@, k as int) == string_end(chars@, start),
        decreases chars.len() - k,
    {
        let d = chars[k];
        let (k1, b1) = advance(chars, k, b);
        if d == '"' {
            return Some((k1, b1));
        }
        k = k1;
        b = b1;
        if d == '\\' && k < chars.len() {
            let (k2, b2) = advance(chars, k, b);
            k = k2;
            b = b2;
        }
    }
    None
}

/// The lexeme at `k`, a character that is neither white space nor the start of a comment:
/// its kind, and the index and byte offset after it.
fn lexeme(chars: &Vec<char>, k: usize, b: usize) -> (r: Result<(TokenKind, usize, usize), SyntaxError>)
    requires
        k < chars.len(),
        b == byte_offset(chars@, k as int),
        text_len(chars@) <= usize::MAX,
    ensures
        match r {
            Ok((kind, e, be)) => {
                &&& lexeme_at(chars@, k as int) == Ok::<(Lexeme, int), (&'static str, SourceSpan)>(
                    (kind_lexeme(kind), e as int),
                )
                &&& k < e <= chars.len()
                &&& be == byte_offset(chars@, e as int)
                &&& (kind matches TokenKind::Int(t) ==> t@.len() > 0 && all_digits(t@))
            },
            Err(err) => lexeme_at(chars@, k as int) == Err::<(Lexeme, int), (&'static str, SourceSpan)>(
                (err.message, err.span),
            ),
        },
{
    let n = chars.len();
    let c = chars[k];
    let (k1, b1) = advance(chars, k, b);
    if digit(c) {
        let (e, be) = scan_digits(chars, k1, b1);
        if e < n && e + 1 < n && chars[e] == '.' && digit(chars[e + 1]) {
            let (e1, be1) = advance(chars, e, be);
            let (f, bf) = scan_digits(chars, e1, be1);
            Ok((TokenKind::Float(text_between(chars, k, f)), f, bf))
        } else {
            let text = text_between(chars, k, e);
            assert(all_digits(text@));
            Ok((TokenKind::Int(text), e, be))
        }
    } else if ident_start(c) {
        let (e, be) = scan_ident(chars, k1, b1);
        let mut word: Vec<char> = Vec::new();
        let mut i = k;
        while i < e
            invariant
                k <= i <= e <= n,
                n == chars.len(),
                word@ == chars@.subrange(k as int, i as int),
            decreases e - i,
        {
            word.push(chars[i]);
            i = i + 1;
            assert(word@ =~= chars@.subrange(k as int, i as int));
        }
        match keyword(&word) {
            Some(kind) => Ok((kind, e, be)),
            None => Ok((TokenKind::Ident(string_from_chars(&word)), e, be)),
        }
    } else if c == '"' {
        match scan_string(chars, k1, b1) {
            Some((e, be)) => Ok((TokenKind::Str(text_between(chars, k + 1, e - 1)), e, be)),
            None => {
                proof {
                    lemma_byte_offset_monotonic(chars@, k + 1, n as int);
                }
                Err(
                    SyntaxError {
                        message: "unterminated string literal",
                        span: SourceSpan { offset: b, len: 1 },
                    },
                )
            },
        }
    } else {
        let next = if k1 < n {
            chars[k1]
        } else {
            ' '
        };
        let (kind, two) = if c == '(' {
            (Some(TokenKind::LParen), false)
        } else if c == ')' {
            (Some(TokenKind::RParen), false)
        } else if c == '{' {
            (Some(TokenKind::LBrace), false)
        } else if c == '}' {
            (Some(TokenKind::RBrace), false)
        } else if c == ',' {
            (Some(TokenKind::Comma), false)
        } else if c == ':' {
            (Some(TokenKind::Colon), false)
        } else if c == ';' {
            (Some(TokenKind::Semicolon), false)
        } else if c == '.' {
            (Some(TokenKind::Dot), false)
        } else if c == '+' {
            (Some(TokenKind::Plus), false)
        } else if c == '-' {
            (Some(TokenKind::Minus), false)
        } else if c == '*' {
            (Some(TokenKind::Star), false)
        } else if c == '/' {
            (Some(TokenKind::Slash), false)
        } else if c == '=' && next == '>' {
            (Some(TokenKind::Arrow), true)
        } else if c == '=' && next == '=' {
            (Some(TokenKind::EqEq), true)
        } else if c == '=' {
            (Some(TokenKind::Assign), false)
        } else if c == '!' && next == '=' {
            (Some(TokenKind::NotEq), true)
        } else if c == '!' {
            (Some(TokenKind::Bang), false)
        } else if c == '<' && next == '=' {
            (Some(TokenKind::Le), true)
        } else if c == '<' {
            (Some(TokenKind::Lt), false)
        } else if c == '>' && next == '=' {
            (Some(TokenKind::Ge), true)
        } else if c == '>' {
            (Some(TokenKind::Gt), false)
        } else if c == '&' && next == '&' {
            (Some(TokenKind::AndAnd), true)
        } else if c == '|' && next == '|' {
            (Some(TokenKind::OrOr), true)
        } else if c == '|' && next == '>' {
            (Some(TokenKind::Pipe), true)
        } else {
            (None, false)
        };
        match kind {
            Some(kind) => {
                if two {
                    let (k2, b2) = advance(chars, k1, b1);
                    Ok((kind, k2, b2))
                } else {
                    Ok((kind, k1, b1))
                }
            },
            None => Err(SyntaxError { message: "unexpected character", span: SourceSpan { offset: b, len: b1 - b } }),
        }
    }
}

/// Splits `chars` into the tokens [`lex`] gives, or fails with the first lexical error it
/// gives.
pub fn tokenize(chars: &Vec<char>) -> (tokens: Result<Vec<Token>, SyntaxError>)
    requires
        text_len(chars@) <= usize::MAX,
    ensures
        tokens matches Ok(t) ==> tokens_wf(t@, text_len(chars@)),
        tokens matches Err(e) ==> e.span.end() <= text_len(chars@),
        match tokens {
            Ok(t) => lex(chars@) == Ok::<Seq<TokenForm>, (&'static str, SourceSpan)>(token_forms(t@)),
            Err(e) => lex(chars@) == Err::<Seq<TokenForm>, (&'static str, SourceSpan)>(
                (e.message, e.span),
            ),
        },
{
    let n = chars.len();
    let mut tokens: Vec<Token> = Vec::new();
    let mut k: usize = 0;
    let mut b: usize = 0;
    let mut newline = false;
    let mut space = false;
    proof {
        lemma_byte_offset_monotonic(chars@, 0, n as int);
    }
    assert(token_forms(tokens@) =~= Seq::<TokenForm>::empty());
    while k < n
        invariant
            k <= n,
            n == chars@.len(),
            b == byte_offset(chars@, k as int),
            b <= text_len(chars@),
            text_len(chars@) <= usize::MAX,
            tokens_ordered(tokens@),
            forall|i: int| 0 <= i < tokens@.len() ==> #[trigger] tokens@[i].span.end() <= b,
            lex_from(chars@, k as int, newline, space, token_forms(tokens@)) == lex(chars@),
        decreases n - k,
    {
        let c = chars[k];
        if c == '\n' {
            let (k1, b1) = advance(chars, k, b);
            k = k1;
            b = b1;
            newline = true;
            space = true;
            proof {
                lemma_byte_offset_monotonic(chars@, k as int, n as int);
            }
            continue;
        }
        if c == ' ' || c == '\t' || c == '\r' {
            let (k1, b1) = advance(chars, k, b);
            k = k1;
            b = b1;
            space = true;
            proof {
                lemma_byte_offset_monotonic(chars@, k as int, n as int);
            }
            continue;
        }
        if c == '/' && k + 1 < n && chars[k + 1] == '/' {
            let (k1, b1) = advance(chars, k, b);
            let (k2, b2) = advance(chars, k1, b1);
            let (k3, b3) = scan_line(chars, k2, b2);
            proof {
                lemma_byte_offset_monotonic(chars@, k as int, k3 as int);
            }
            k = k3;
            b = b3;
            space = true;
            proof {
                lemma_byte_offset_monotonic(chars@, k as int, n as int);
            }
            continue;
        }
        let start_b = b;
        let ghost start = k as int;
        let (kind, e, be) = match lexeme(chars, k, b) {
            Ok(found) => found,
            Err(err) => {
                proof {
                    lemma_byte_offset_monotonic(chars@, k + 1, n as int);
                    lemma_byte_offset_monotonic(chars@, k as int, k + 1);
                }
                return Err(err);
            },
        };
        k = e;
        b = be;
        proof {
            lemma_byte_offset_monotonic(chars@, start, k as int);
            lemma_byte_offset_monotonic(chars@, start + 1, k as int);
            lemma_byte_offset_monotonic(chars@, start, start + 1);
            lemma_byte_offset_monotonic(chars@, k as int, n as int);
        }
        let token = Token {
            kind,
            span: SourceSpan { offset: start_b, len: b - start_b },
            newline_before: newline,
            space_before: space,
        };
        let ghost before = tokens@;
        tokens.push(token);
        assert(token_forms(tokens@) =~= token_forms(before).push(token_form(token)));
        assert(tokens@[tokens@.len() - 1].span.len > 0);
        assert forall|i: int| 0 <= i < tokens@.len() implies (#[trigger] tokens@[i].kind matches TokenKind::Int(t)
            ==> t@.len() > 0 && all_digits(t@)) by {
            if i < before.len() {
                assert(before[i] == tokens@[i]);
            }
        }
        assert forall|i: int, j: int|
            #![trigger tokens@[i], tokens@[j]]
            0 <= i < j < tokens@.len() implies tokens@[i].span.end() <= tokens@[j].span.offset by {
            if j == tokens@.len() - 1 {
                assert(before[i].span.end() <= start_b);
            } else {
                assert(before[i] == tokens@[i]);
                assert(before[j] == tokens@[j]);
            }
        }
        newline = false;
        space = false;
    }
    Ok(tokens)
}

} // verus!
