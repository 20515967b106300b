//! Fennel lexer: turns source text into a flat list of tokens with their spans.
//!
//! The source is a sequence of bytes and a token is described by where it
//! starts: what stands there, and where it ends.
use vstd::prelude::*;
use vstd::string::*;
use vstd::utf8::*;

use crate::number::{number_literal, parse_number, Number, NumberView};
use crate::strings::{
    boundary_after_ascii, boundary_at_stop, chars_of, same, utf8_text, valid_between,
};

verus! {

/// A stretch of source text.
#[derive(Debug, Clone, Copy, PartialEq, Eq, Structural)]
pub struct Span {
    /// Byte offset of the first byte of this token.
    pub start: u32,
    /// Byte offset past the last byte of this token.
    pub end: u32,
    /// 0-based line of `start`.
    pub line: u32,
    /// 0-based byte column of `start`.
    pub col: u32,
    /// 0-based line of `end`.
    pub end_line: u32,
    /// 0-based byte column of `end`.
    pub end_col: u32,
}

/// The smallest span that covers both: it starts where the first of the two
/// starts and ends where the last of the two ends.
pub open spec fn merged(a: Span, b: Span) -> Span {
    let first = if a.start <= b.start {
        a
    } else {
        b
    };
    let last = if a.end >= b.end {
        a
    } else {
        b
    };
    Span {
        start: first.start,
        end: last.end,
        line: first.line,
        col: first.col,
        end_line: last.end_line,
        end_col: last.end_col,
    }
}

impl Span {
    pub fn merge(a: &Span, b: &Span) -> (r: Span)
        ensures
            r == merged(*a, *b),
    {
        let first = if a.start <= b.start {
            a
        } else {
            b
        };
        let last = if a.end >= b.end {
            a
        } else {
            b
        };
        Span {
            start: first.start,
            end: last.end,
            line: first.line,
            col: first.col,
            end_line: last.end_line,
            end_col: last.end_col,
        }
    }
}

/// Merging covers both spans, and nothing outside the bytes between them.
pub proof fn merge_covers(a: Span, b: Span)
    ensures
        merged(a, b).start <= a.start && merged(a, b).start <= b.start,
        merged(a, b).end >= a.end && merged(a, b).end >= b.end,
        merged(a, b).start == a.start || merged(a, b).start == b.start,
        merged(a, b).end == a.end || merged(a, b).end == b.end,
        merged(a, a) == a,
{
}

/// Merging does not depend on how the spans are grouped.
pub proof fn merge_associates(a: Span, b: Span, c: Span)
    ensures
        merged(merged(a, b), c) == merged(a, merged(b, c)),
{
}

#[derive(Debug, Clone, PartialEq, Eq)]
pub enum Token {
    // Delimiters
    LParen,
    RParen,
    LBrace,
    RBrace,
    LBracket,
    RBracket,
    // Reader macros
    Quote,
    Quasiquote,
    Unquote,
    UnquoteSplice,
    HashFn,
    // Literals
    Str(String),
    Keyword(String),
    Number(Number),
    Bool(bool),
    Nil,
    Varargs,
    /// Symbols / identifiers (may be multisym like a.b.c or a:method)
    Symbol(String),
    /// Comments (only emitted by `tokenize_with_comments`; text includes the leading `;`)
    Comment(String),
}

#[derive(Debug, Clone)]
pub struct SpannedToken {
    pub token: Token,
    pub span: Span,
}

/// The model of a [`Token`].
#[verifier::ext_equal]
pub ghost enum TokenView {
    LParen,
    RParen,
    LBrace,
    RBrace,
    LBracket,
    RBracket,
    Quote,
    Quasiquote,
    Unquote,
    UnquoteSplice,
    HashFn,
    Str(Seq<char>),
    Keyword(Seq<char>),
    Number(NumberView),
    Bool(bool),
    Nil,
    Varargs,
    Symbol(Seq<char>),
    Comment(Seq<char>),
}

/// The model of a [`SpannedToken`].
#[verifier::ext_equal]
pub ghost struct SpannedTokenView {
    pub token: TokenView,
    pub span: Span,
}

impl View for Token {
    type V = TokenView;

    open spec fn view(&self) -> TokenView {
        match *self {
            Token::LParen => TokenView::LParen,
            Token::RParen => TokenView::RParen,
            Token::LBrace => TokenView::LBrace,
            Token::RBrace => TokenView::RBrace,
            Token::LBracket => TokenView::LBracket,
            Token::RBracket => TokenView::RBracket,
            Token::Quote => TokenView::Quote,
            Token::Quasiquote => TokenView::Quasiquote,
            Token::Unquote => TokenView::Unquote,
            Token::UnquoteSplice => TokenView::UnquoteSplice,
            Token::HashFn => TokenView::HashFn,
            Token::Str(s) => TokenView::Str(s@),
            Token::Keyword(s) => TokenView::Keyword(s@),
            Token::Number(n) => TokenView::Number(n@),
            Token::Bool(b) => TokenView::Bool(b),
            Token::Nil => TokenView::Nil,
            Token::Varargs => TokenView::Varargs,
            Token::Symbol(s) => TokenView::Symbol(s@),
            Token::Comment(s) => TokenView::Comment(s@),
        }
    }
}

impl View for SpannedToken {
    type V = SpannedTokenView;

    open spec fn view(&self) -> SpannedTokenView {
        SpannedTokenView { token: self.token@, span: self.span }
    }
}

/// The models of a run of tokens.
pub open spec fn token_views(toks: Seq<SpannedToken>) -> Seq<SpannedTokenView> {
    Seq::new(toks.len(), |i: int| toks[i]@)
}

// ── Bytes and positions ─────────────────────────────────────────────────────

pub const TAB: u8 = 0x09;

pub const LF: u8 = 0x0a;

pub const CR: u8 = 0x0d;

pub const SPACE: u8 = 0x20;

pub const BANG: u8 = 0x21;

pub const DQUOTE: u8 = 0x22;

pub const HASH: u8 = 0x23;

pub const QUOTE: u8 = 0x27;

pub const LPAREN: u8 = 0x28;

pub const RPAREN: u8 = 0x29;

pub const COMMA: u8 = 0x2c;

pub const DIGIT_0: u8 = 0x30;

pub const DIGIT_9: u8 = 0x39;

pub const COLON: u8 = 0x3a;

pub const SEMICOLON: u8 = 0x3b;

pub const AT: u8 = 0x40;

pub const UPPER_A: u8 = 0x41;

pub const UPPER_F: u8 = 0x46;

pub const LBRACKET: u8 = 0x5b;

pub const BACKSLASH: u8 = 0x5c;

pub const RBRACKET: u8 = 0x5d;

pub const BACKTICK: u8 = 0x60;

pub const LOWER_A: u8 = 0x61;

pub const LOWER_B: u8 = 0x62;

pub const LOWER_F: u8 = 0x66;

pub const LOWER_N: u8 = 0x6e;

pub const LOWER_R: u8 = 0x72;

pub const LOWER_T: u8 = 0x74;

pub const LOWER_U: u8 = 0x75;

pub const LOWER_V: u8 = 0x76;

pub const LOWER_X: u8 = 0x78;

pub const LOWER_Z: u8 = 0x7a;

pub const LBRACE: u8 = 0x7b;

pub const RBRACE: u8 = 0x7d;

/// Whitespace, and the comma that separates list items.
pub open spec fn ws_byte(c: u8) -> bool {
    c == SPACE || c == TAB || c == CR || c == LF || c == COMMA
}

/// Brackets of all kinds, the string quote and the comment sign.
pub open spec fn delim_byte(c: u8) -> bool {
    c == LPAREN || c == RPAREN || c == LBRACKET || c == RBRACKET || c == LBRACE || c == RBRACE || c == DQUOTE || c
        == SEMICOLON
}

/// Whitespace proper.
pub open spec fn blank_byte(c: u8) -> bool {
    c == SPACE || c == TAB || c == CR || c == LF
}

pub fn is_ws(c: u8) -> (r: bool)
    ensures
        r == ws_byte(c),
{
    c == SPACE || c == TAB || c == CR || c == LF || c == COMMA
}

pub fn is_delim(c: u8) -> (r: bool)
    ensures
        r == delim_byte(c),
{
    c == LPAREN || c == RPAREN || c == LBRACKET || c == RBRACKET || c == LBRACE || c == RBRACE || c == DQUOTE || c
        == SEMICOLON
}

/// The number of line breaks before offset `p`.
pub open spec fn line_of(b: Seq<u8>, p: int) -> nat
    decreases p,
{
    if p <= 0 {
        0
    } else if b[p - 1] == LF {
        line_of(b, p - 1) + 1
    } else {
        line_of(b, p - 1)
    }
}

/// The number of bytes between the start of the line and offset `p`.
pub open spec fn col_of(b: Seq<u8>, p: int) -> nat
    decreases p,
{
    if p <= 0 || b[p - 1] == LF {
        0
    } else {
        col_of(b, p - 1) + 1
    }
}

/// The span of the bytes from `s` to `e`.
pub open spec fn span_at(b: Seq<u8>, s: int, e: int) -> Span {
    Span {
        start: s as u32,
        end: e as u32,
        line: line_of(b, s) as u32,
        col: col_of(b, s) as u32,
        end_line: line_of(b, e) as u32,
        end_col: col_of(b, e) as u32,
    }
}

proof fn line_col_bound(b: Seq<u8>, p: int)
    requires
        0 <= p,
    ensures
        line_of(b, p) <= p,
        col_of(b, p) <= p,
    decreases p,
{
    if p > 0 {
        line_col_bound(b, p - 1);
    }
}

/// The first offset at or after `p` whose byte does not satisfy `f`.
pub open spec fn run_end(b: Seq<u8>, p: int, f: spec_fn(u8) -> bool) -> int
    decreases b.len() - p,
{
    if 0 <= p < b.len() && f(b[p]) {
        run_end(b, p + 1, f)
    } else {
        p
    }
}

pub proof fn run_end_bounds(b: Seq<u8>, p: int, f: spec_fn(u8) -> bool)
    requires
        0 <= p <= b.len(),
    ensures
        p <= run_end(b, p, f) <= b.len(),
        run_end(b, p, f) < b.len() ==> !f(b[run_end(b, p, f)]),
        forall|i: int| p <= i < run_end(b, p, f) ==> f(#[trigger] b[i]),
    decreases b.len() - p,
{
    if p < b.len() && f(b[p]) {
        run_end_bounds(b, p + 1, f);
    }
}

/// Where the whitespace at `p` ends.
pub open spec fn blank_end(b: Seq<u8>, p: int) -> int {
    run_end(b, p, |c: u8| blank_byte(c))
}

/// Where the line that holds `p` ends: at its line break or at the end of the text.
pub open spec fn line_end(b: Seq<u8>, p: int) -> int {
    run_end(b, p, |c: u8| c != LF)
}

/// Where the atom at `p` ends: at whitespace or a delimiter.
pub open spec fn atom_end(b: Seq<u8>, p: int) -> int {
    run_end(b, p, |c: u8| !ws_byte(c) && !delim_byte(c))
}

/// A `#!` line may open the file.
pub open spec fn is_shebang(b: Seq<u8>, p: int) -> bool {
    p == 0 && b.len() >= 2 && b[0] == HASH && b[1] == BANG
}

/// A comment starts at `p`.
pub open spec fn comment_at(b: Seq<u8>, p: int) -> bool {
    0 <= p < b.len() && (b[p] == SEMICOLON || is_shebang(b, p))
}

/// Where the whitespace and comments at `p` end.
pub open spec fn trivia_end(b: Seq<u8>, p: int) -> int
    decreases b.len() - p,
    when 0 <= p <= b.len()
{
    let q = blank_end(b, p);
    if comment_at(b, q) {
        proof {
            run_end_bounds(b, p, |c: u8| blank_byte(c));
            run_end_bounds(b, q, |c: u8| c != LF);
            assert(run_end(b, q, |c: u8| c != LF) > q);
        }
        trivia_end(b, line_end(b, q))
    } else {
        q
    }
}

pub proof fn trivia_end_bounds(b: Seq<u8>, p: int)
    requires
        0 <= p <= b.len(),
    ensures
        p <= trivia_end(b, p) <= b.len(),
        !comment_at(b, trivia_end(b, p)),
    decreases b.len() - p,
{
    let q = blank_end(b, p);
    run_end_bounds(b, p, |c: u8| blank_byte(c));
    if comment_at(b, q) {
        run_end_bounds(b, q, |c: u8| c != LF);
        trivia_end_bounds(b, line_end(b, q));
    }
}

// ── Strings ─────────────────────────────────────────────────────────────────

/// The value of a hexadecimal digit; any other byte counts as 0.
pub open spec fn hex_digit_value(c: u8) -> u8 {
    if DIGIT_0 <= c <= DIGIT_9 {
        (c - DIGIT_0) as u8
    } else if LOWER_A <= c <= LOWER_F {
        (c - LOWER_A + 10) as u8
    } else if UPPER_A <= c <= UPPER_F {
        (c - UPPER_A + 10) as u8
    } else {
        0
    }
}

pub fn hex_digit(c: u8) -> (r: u8)
    ensures
        r == hex_digit_value(c),
        r < 16,
{
    if c >= DIGIT_0 && c <= DIGIT_9 {
        c - DIGIT_0
    } else if c >= LOWER_A && c <= LOWER_F {
        c - LOWER_A + 10
    } else if c >= UPPER_A && c <= UPPER_F {
        c - UPPER_A + 10
    } else {
        0
    }
}

pub open spec fn digit_byte(c: u8) -> bool {
    DIGIT_0 <= c <= DIGIT_9
}

/// The byte at `p`, or `0` (the digit) past the end.
pub open spec fn byte_or_zero(b: Seq<u8>, p: int) -> u8 {
    if 0 <= p < b.len() {
        b[p]
    } else {
        DIGIT_0
    }
}

/// The code point that the hexadecimal digits from `p` to `e` spell, in 32 bits.
pub open spec fn code_point(b: Seq<u8>, p: int, e: int) -> u32
    decreases e - p,
{
    if p >= e {
        0
    } else {
        ((code_point(b, p, e - 1) * 16 + hex_digit_value(b[e - 1])) % 0x1_0000_0000) as u32
    }
}

/// Where the digits of a `\u{..}` escape end: at the closing brace or at the end of the text.
pub open spec fn brace_end(b: Seq<u8>, p: int) -> int {
    run_end(b, p, |c: u8| c != RBRACE)
}

/// The characters that a code point stands for: none where it is not a character.
pub open spec fn code_text(code: u32) -> Seq<char> {
    if is_scalar(code) {
        seq![code as char]
    } else {
        Seq::empty()
    }
}

/// How many digits, at most three, stand at `p`.
pub open spec fn digit_count(b: Seq<u8>, p: int) -> int {
    if !(0 <= p < b.len() && digit_byte(b[p])) {
        0
    } else if !(p + 1 < b.len() && digit_byte(b[p + 1])) {
        1
    } else if !(p + 2 < b.len() && digit_byte(b[p + 2])) {
        2
    } else {
        3
    }
}

/// The number that `n` decimal digits at `p` spell.
pub open spec fn digits_value(b: Seq<u8>, p: int, n: int) -> int
    decreases n,
{
    if n <= 0 {
        0
    } else {
        digits_value(b, p, n - 1) * 10 + (b[p + n - 1] - DIGIT_0)
    }
}

/// The escape whose letter stands at `q`, behind the backslash: what it adds
/// to the string, and where it ends.
pub open spec fn escape_at(b: Seq<u8>, q: int) -> (Seq<char>, int) {
    let c = b[q];
    if c == LOWER_A {
        (seq!['\x07'], q + 1)
    } else if c == LOWER_B {
        (seq!['\x08'], q + 1)
    } else if c == LOWER_F {
        (seq!['\x0C'], q + 1)
    } else if c == LOWER_N {
        (seq!['\n'], q + 1)
    } else if c == LOWER_R {
        (seq!['\r'], q + 1)
    } else if c == LOWER_T {
        (seq!['\t'], q + 1)
    } else if c == LOWER_V {
        (seq!['\x0B'], q + 1)
    } else if c == BACKSLASH || c == DQUOTE || c == QUOTE {
        (seq![c as char], q + 1)
    } else if c == LF || c == CR {
        (Seq::empty(), q + 1)
    } else if c == LOWER_Z {
        (Seq::empty(), blank_end(b, q + 1))
    } else if c == LOWER_X {
        let n = hex_digit_value(byte_or_zero(b, q + 1)) * 16 + hex_digit_value(
            byte_or_zero(b, q + 2),
        );
        (seq![n as char], if q + 3 <= b.len() { q + 3 } else { b.len() as int })
    } else if c == LOWER_U {
        if q + 1 < b.len() && b[q + 1] == LBRACE {
            let e = brace_end(b, q + 2);
            (code_text(code_point(b, q + 2, e)), if e < b.len() { e + 1 } else { e })
        } else {
            (Seq::empty(), q + 1)
        }
    } else if digit_byte(c) {
        let n = digit_count(b, q);
        let v = digits_value(b, q, n);
        (seq![(if v < 255 { v } else { 255 }) as char], q + n)
    } else {
        (seq!['\\', c as char], q + 1)
    }
}

/// How many bytes the character that opens with byte `c` takes.
pub open spec fn char_width(c: u8) -> int {
    if c >= 0xf0 {
        4
    } else if c >= 0xe0 {
        3
    } else if c >= 0x80 {
        2
    } else {
        1
    }
}

/// Where the character that opens at `p` ends.
pub open spec fn char_end(b: Seq<u8>, p: int) -> int {
    if p + char_width(b[p]) <= b.len() {
        p + char_width(b[p])
    } else {
        b.len() as int
    }
}

/// The text of some bytes: none where they are not valid UTF-8.
pub open spec fn utf8_or_nothing(bytes: Seq<u8>) -> Seq<char> {
    if valid_utf8(bytes) {
        decode_utf8(bytes)
    } else {
        Seq::empty()
    }
}

/// The inside of a string from `p` on: its text, and the offset behind the
/// closing quote. A string that is not closed ends with the source.
pub open spec fn string_body(b: Seq<u8>, p: int) -> (Seq<char>, int)
    decreases b.len() - p,
    when 0 <= p <= b.len()
{
    if p == b.len() {
        (Seq::empty(), p)
    } else if b[p] == DQUOTE {
        (Seq::empty(), p + 1)
    } else if b[p] == BACKSLASH {
        if p + 1 == b.len() {
            (Seq::empty(), p + 1)
        } else {
            proof {
                escape_bounds(b, p + 1);
            }
            let (text, next) = escape_at(b, p + 1);
            let rest = string_body(b, next);
            (text + rest.0, rest.1)
        }
    } else if b[p] < 0x80 {
        let rest = string_body(b, p + 1);
        (seq![b[p] as char] + rest.0, rest.1)
    } else {
        let e = char_end(b, p);
        let rest = string_body(b, e);
        (utf8_or_nothing(b.subrange(p, e)) + rest.0, rest.1)
    }
}

pub proof fn escape_bounds(b: Seq<u8>, q: int)
    requires
        0 <= q < b.len(),
    ensures
        q < escape_at(b, q).1 <= b.len(),
{
    if q + 1 <= b.len() {
        run_end_bounds(b, q + 1, |c: u8| blank_byte(c));
    }
    if q + 2 <= b.len() {
        run_end_bounds(b, q + 2, |c: u8| c != RBRACE);
    }
}

proof fn string_body_bounds(b: Seq<u8>, p: int)
    requires
        0 <= p <= b.len(),
    ensures
        p <= string_body(b, p).1 <= b.len(),
        string_body(b, p).1 == b.len() || (p < string_body(b, p).1 && b[string_body(b, p).1 - 1]
            == DQUOTE),
    decreases b.len() - p,
{
    if p == b.len() || b[p] == DQUOTE {
    } else if b[p] == BACKSLASH {
        if p + 1 < b.len() {
            escape_bounds(b, p + 1);
            string_body_bounds(b, escape_at(b, p + 1).1);
        }
    } else if b[p] < 0x80 {
        string_body_bounds(b, p + 1);
    } else {
        string_body_bounds(b, char_end(b, p));
    }
}

// ── Tokens ──────────────────────────────────────────────────────────────────

/// What an atom means: a constant, a number, or else a symbol.
pub open spec fn atom_token(s: Seq<char>) -> TokenView {
    if s == "nil"@ {
        TokenView::Nil
    } else if s == "true"@ {
        TokenView::Bool(true)
    } else if s == "false"@ {
        TokenView::Bool(false)
    } else if s == "..."@ {
        TokenView::Varargs
    } else {
        match number_literal(s) {
            Some(n) => TokenView::Number(n),
            None => TokenView::Symbol(s),
        }
    }
}

/// A comma at `p - 1` only separates list items: what follows is not an atom.
pub open spec fn is_separator(b: Seq<u8>, p: int) -> bool {
    p >= b.len() || (b[p] != AT && (ws_byte(b[p]) || delim_byte(b[p])))
}

/// The token that starts at `p`, and where it ends.
pub open spec fn token_at(b: Seq<u8>, p: int) -> (TokenView, int) {
    let c = b[p];
    if c == LPAREN {
        (TokenView::LParen, p + 1)
    } else if c == RPAREN {
        (TokenView::RParen, p + 1)
    } else if c == LBRACE {
        (TokenView::LBrace, p + 1)
    } else if c == RBRACE {
        (TokenView::RBrace, p + 1)
    } else if c == LBRACKET {
        (TokenView::LBracket, p + 1)
    } else if c == RBRACKET {
        (TokenView::RBracket, p + 1)
    } else if c == QUOTE {
        (TokenView::Quote, p + 1)
    } else if c == BACKTICK {
        (TokenView::Quasiquote, p + 1)
    } else if c == COMMA {
        if p + 1 < b.len() && b[p + 1] == AT {
            (TokenView::UnquoteSplice, p + 2)
        } else {
            (TokenView::Unquote, p + 1)
        }
    } else if c == HASH {
        (TokenView::HashFn, p + 1)
    } else if c == DQUOTE {
        let (text, e) = string_body(b, p + 1);
        (TokenView::Str(text), e)
    } else if c == COLON {
        let e = atom_end(b, p + 1);
        if e > p + 1 {
            (TokenView::Keyword(Seq::new((e - p - 1) as nat, |i: int| b[p + 1 + i] as char)), e)
        } else {
            (TokenView::Symbol(":"@), p + 1)
        }
    } else {
        let e = atom_end(b, p + 1);
        (atom_token(decode_utf8(b.subrange(p, e))), e)
    }
}

/// The next token at or after `p`, with its start and its end. Comments are
/// tokens only where `comments` asks for them.
pub open spec fn next_token_at(b: Seq<u8>, p: int, comments: bool) -> Option<(TokenView, int, int)>
    decreases b.len() - p,
    when 0 <= p <= b.len()
{
    let q = if comments {
        blank_end(b, p)
    } else {
        trivia_end(b, p)
    };
    if comments && comment_at(b, q) {
        Some((TokenView::Comment(decode_utf8(b.subrange(q, line_end(b, q)))), q, line_end(b, q)))
    } else if q >= b.len() {
        None
    } else if b[q] == COMMA && is_separator(b, q + 1) {
        proof {
            run_end_bounds(b, p, |c: u8| blank_byte(c));
            trivia_end_bounds(b, p);
        }
        next_token_at(b, q + 1, comments)
    } else {
        let (t, e) = token_at(b, q);
        Some((t, q, e))
    }
}

pub proof fn token_at_bounds(b: Seq<u8>, p: int)
    requires
        0 <= p < b.len(),
    ensures
        p < token_at(b, p).1 <= b.len(),
{
    string_body_bounds(b, p + 1);
    run_end_bounds(b, p + 1, |c: u8| !ws_byte(c) && !delim_byte(c));
}

/// Every token starts at or after the place the search started from, takes at
/// least one byte, and ends inside the text.
pub proof fn next_token_bounds(b: Seq<u8>, p: int, comments: bool)
    requires
        0 <= p <= b.len(),
    ensures
        next_token_at(b, p, comments) matches Some((t, s, e)) ==> p <= s < e <= b.len(),
    decreases b.len() - p,
{
    run_end_bounds(b, p, |c: u8| blank_byte(c));
    trivia_end_bounds(b, p);
    let q = if comments {
        blank_end(b, p)
    } else {
        trivia_end(b, p)
    };
    if comments && comment_at(b, q) {
        run_end_bounds(b, q, |c: u8| c != LF);
    } else if q < b.len() {
        if b[q] == COMMA && is_separator(b, q + 1) {
            next_token_bounds(b, q + 1, comments);
        } else {
            token_at_bounds(b, q);
        }
    }
}

/// All the tokens at or after `p`.
pub open spec fn tokens_from(b: Seq<u8>, p: int, comments: bool) -> Seq<SpannedTokenView>
    decreases b.len() - p,
    when 0 <= p <= b.len()
{
    match next_token_at(b, p, comments) {
        None => Seq::empty(),
        Some((t, s, e)) => {
            proof {
                next_token_bounds(b, p, comments);
            }
            seq![SpannedTokenView { token: t, span: span_at(b, s, e) }] + tokens_from(
                b,
                e,
                comments,
            )
        },
    }
}

/// The tokens of a source text, without comments.
pub open spec fn lex(src: Seq<char>) -> Seq<SpannedTokenView> {
    tokens_from(encode_utf8(src), 0, false)
}

/// The tokens of a source text, with comments.
pub open spec fn lex_with_comments(src: Seq<char>) -> Seq<SpannedTokenView> {
    tokens_from(encode_utf8(src), 0, true)
}

// ── The lexer ───────────────────────────────────────────────────────────────

pub struct Lexer<'src> {
    src: &'src [u8],
    pos: usize,
    line: u32,
    col: u32,
    with_comments: bool,
}

impl<'src> Lexer<'src> {
    /// The bytes being read.
    pub closed spec fn bytes(&self) -> Seq<u8> {
        self.src@
    }

    /// The offset of the next byte.
    pub closed spec fn at(&self) -> int {
        self.pos as int
    }

    pub closed spec fn comments(&self) -> bool {
        self.with_comments
    }

    /// Line and column agree with the offset.
    pub closed spec fn well_formed(&self) -> bool {
        &&& valid_utf8(self.src@)
        &&& self.src@.len() <= u32::MAX
        &&& self.pos <= self.src@.len()
        &&& self.line == line_of(self.src@, self.pos as int)
        &&& self.col == col_of(self.src@, self.pos as int)
    }

    pub fn new(src: &'src str) -> (r: Self)
        ensures
            r.bytes() == src.spec_bytes(),
            r.at() == 0,
            !r.comments(),
            src.spec_bytes().len() <= u32::MAX ==> r.well_formed(),
    {
        broadcast use encode_utf8_valid_utf8;

        Self { src: src.as_bytes(), pos: 0, line: 0, col: 0, with_comments: false }
    }

    /// All the tokens of `src`; comments are skipped.
    pub fn tokenize(src: &'src str) -> (r: Vec<SpannedToken>)
        requires
            src.spec_bytes().len() <= u32::MAX,
        ensures
            token_views(r@) == lex(src@),
    {
        let mut lexer = Self::new(src);
        lexer.all_tokens()
    }

    /// Like `tokenize` but also emits `Token::Comment` for line comments.
    pub fn tokenize_with_comments(src: &'src str) -> (r: Vec<SpannedToken>)
        requires
            src.spec_bytes().len() <= u32::MAX,
        ensures
            token_views(r@) == lex_with_comments(src@),
    {
        let mut lexer = Self::new(src);
        lexer.with_comments = true;
        lexer.all_tokens()
    }

    fn all_tokens(&mut self) -> (r: Vec<SpannedToken>)
        requires
            old(self).well_formed(),
            is_char_boundary(old(self).bytes(), old(self).at()),
        ensures
            token_views(r@) == tokens_from(old(self).bytes(), old(self).at(), old(self).comments()),
    {
        let mut out: Vec<SpannedToken> = Vec::new();
        let ghost b = self.src@;
        let ghost whole = tokens_from(b, self.pos as int, self.with_comments);
        loop
            invariant_except_break
                whole == token_views(out@) + tokens_from(b, self.pos as int, self.with_comments),
            invariant
                self.well_formed(),
                self.src@ == b,
                is_char_boundary(b, self.pos as int),
                self.with_comments == old(self).with_comments,
            ensures
                whole == token_views(out@),
            decreases b.len() - self.pos,
        {
            proof {
                next_token_bounds(b, self.pos as int, self.with_comments);
            }
            let ghost before = out@;
            match self.next_token() {
                Some(t) => {
                    out.push(t);
                    assert(token_views(out@) =~= token_views(before).push(t@));
                    assert(token_views(before) + seq![t@] =~= token_views(out@));
                },
                None => {
                    assert(whole =~= token_views(out@));
                    break ;
                },
            }
        }
        out
    }

    fn peek(&self) -> (r: Option<u8>)
        ensures
            r == (if self.pos < self.src@.len() { Some(self.src@[self.pos as int]) } else { None }),
    {
        if self.pos < self.src.len() {
            Some(self.src[self.pos])
        } else {
            None
        }
    }

    fn peek2(&self) -> (r: Option<u8>)
        ensures
            r == (if self.pos + 1 < self.src@.len() { Some(self.src@[self.pos + 1]) } else { None }),
    {
        if self.pos < self.src.len() && self.pos + 1 < self.src.len() {
            Some(self.src[self.pos + 1])
        } else {
            None
        }
    }

    fn advance(&mut self) -> (r: Option<u8>)
        requires
            old(self).well_formed(),
        ensures
            final(self).well_formed(),
            final(self).src@ == old(self).src@,
            final(self).with_comments == old(self).with_comments,
            old(self).pos < old(self).src@.len() ==> r == Some(old(self).src@[old(self).pos as int])
                && final(self).pos == old(self).pos + 1,
            old(self).pos >= old(self).src@.len() ==> r is None && *final(self) == *old(self),
    {
        if self.pos >= self.src.len() {
            return None;
        }
        let c = self.src[self.pos];
        proof {
            line_col_bound(self.src@, self.pos as int);
        }
        self.pos = self.pos + 1;
        if c == LF {
            self.line = self.line + 1;
            self.col = 0;
        } else {
            self.col = self.col + 1;
        }
        Some(c)
    }

    fn skip_whitespace(&mut self)
        requires
            old(self).well_formed(),
        ensures
            final(self).well_formed(),
            final(self).src@ == old(self).src@,
            final(self).with_comments == old(self).with_comments,
            final(self).pos == blank_end(old(self).src@, old(self).pos as int),
            old(self).pos <= final(self).pos,
    {
        loop
            invariant
                self.well_formed(),
                self.src@ == old(self).src@,
                self.with_comments == old(self).with_comments,
                old(self).pos <= self.pos,
                blank_end(self.src@, self.pos as int) == blank_end(
                    old(self).src@,
                    old(self).pos as int,
                ),
            ensures
                self.pos == blank_end(old(self).src@, old(self).pos as int),
            decreases self.src@.len() - self.pos,
        {
            match self.peek() {
                Some(c) => {
                    if c == SPACE || c == TAB || c == CR || c == LF {
                        self.advance();
                    } else {
                        break ;
                    }
                },
                None => break ,
            }
        }
    }

    fn skip_line(&mut self)
        requires
            old(self).well_formed(),
        ensures
            final(self).well_formed(),
            final(self).src@ == old(self).src@,
            final(self).with_comments == old(self).with_comments,
            final(self).pos == line_end(old(self).src@, old(self).pos as int),
    {
        loop
            invariant
                self.well_formed(),
                self.src@ == old(self).src@,
                self.with_comments == old(self).with_comments,
                line_end(self.src@, self.pos as int) == line_end(
                    old(self).src@,
                    old(self).pos as int,
                ),
            ensures
                self.pos == line_end(old(self).src@, old(self).pos as int),
            decreases self.src@.len() - self.pos,
        {
            match self.peek() {
                Some(c) => {
                    if c != LF {
                        self.advance();
                    } else {
                        break ;
                    }
                },
                None => break ,
            }
        }
    }

    /// Whether a comment (or the `#!` line that may open the file) starts here.
    fn at_comment(&self) -> (r: bool)
        requires
            self.well_formed(),
        ensures
            r == comment_at(self.src@, self.pos as int),
    {
        match self.peek() {
            Some(c) => c == SEMICOLON || (self.pos == 0 && c == HASH && self.peek2() == Some(BANG)),
            None => false,
        }
    }

    fn skip_whitespace_and_comments(&mut self)
        requires
            old(self).well_formed(),
        ensures
            final(self).well_formed(),
            final(self).src@ == old(self).src@,
            final(self).with_comments == old(self).with_comments,
            final(self).pos == trivia_end(old(self).src@, old(self).pos as int),
    {
        let ghost b = self.src@;
        loop
            invariant_except_break
                trivia_end(b, self.pos as int) == trivia_end(b, old(self).pos as int),
            invariant
                self.well_formed(),
                self.src@ == b,
                b == old(self).src@,
                self.with_comments == old(self).with_comments,
            ensures
                self.pos == trivia_end(b, old(self).pos as int),
            decreases b.len() - self.pos,
        {
            self.skip_whitespace();
            if self.at_comment() {
                proof {
                    run_end_bounds(b, self.pos as int, |c: u8| c != LF);
                }
                self.skip_line();
            } else {
                break ;
            }
        }
    }

    fn span_from(&self, start: usize, start_line: u32, start_col: u32) -> (r: Span)
        requires
            self.well_formed(),
            start <= self.pos,
            start_line == line_of(self.src@, start as int),
            start_col == col_of(self.src@, start as int),
        ensures
            r == span_at(self.src@, start as int, self.pos as int),
    {
        Span {
            start: start as u32,
            end: self.pos as u32,
            line: start_line,
            col: start_col,
            end_line: self.line,
            end_col: self.col,
        }
    }

    /// The text between two character boundaries of the source.
    fn text_between(&self, from: usize, to: usize) -> (r: String)
        requires
            valid_utf8(self.src@),
            from <= to,
            is_char_boundary(self.src@, from as int),
            is_char_boundary(self.src@, to as int),
        ensures
            r@ == decode_utf8(self.src@.subrange(from as int, to as int)),
    {
        proof {
            valid_between(self.src@, from as int, to as int);
        }
        utf8_text(vstd::slice::slice_subrange(self.src, from, to)).unwrap()
    }

    fn next_token(&mut self) -> (r: Option<SpannedToken>)
        requires
            old(self).well_formed(),
            is_char_boundary(old(self).src@, old(self).pos as int),
        ensures
            final(self).well_formed(),
            final(self).src@ == old(self).src@,
            final(self).with_comments == old(self).with_comments,
            is_char_boundary(final(self).src@, final(self).pos as int),
            match next_token_at(old(self).src@, old(self).pos as int, old(self).with_comments) {
                Some((t, s, e)) => {
                    &&& r matches Some(tok)
                    &&& tok@ == (SpannedTokenView {
                        token: t,
                        span: span_at(old(self).src@, s, e),
                    })
                    &&& final(self).pos == e
                },
                None => r is None,
            },
    {
        let ghost b = self.src@;
        let ghost want = next_token_at(b, self.pos as int, self.with_comments);
        loop
            invariant
                self.well_formed(),
                self.src@ == b,
                b == old(self).src@,
                self.with_comments == old(self).with_comments,
                is_char_boundary(b, self.pos as int),
                want == next_token_at(b, old(self).pos as int, old(self).with_comments),
                want == next_token_at(b, self.pos as int, self.with_comments),
            decreases b.len() - self.pos,
        {
            let ghost p0 = self.pos as int;
            proof {
                run_end_bounds(b, p0, |c: u8| blank_byte(c));
                trivia_end_bounds(b, p0);
            }
            if self.with_comments {
                self.skip_whitespace();
                proof {
                    boundary_after_run(b, p0, self.pos as int);
                }
                if self.at_comment() {
                    let start = self.pos;
                    let sl = self.line;
                    let sc = self.col;
                    self.skip_line();
                    proof {
                        run_end_bounds(b, start as int, |c: u8| c != LF);
                        boundary_at_stop(b, self.pos as int);
                    }
                    let text = self.text_between(start, self.pos);
                    return Some(
                        SpannedToken {
                            token: Token::Comment(text),
                            span: self.span_from(start, sl, sc),
                        },
                    );
                }
            } else {
                self.skip_whitespace_and_comments();
                proof {
                    boundary_after_trivia(b, p0);
                }
            }
            let start = self.pos;
            let sl = self.line;
            let sc = self.col;
            let ch = match self.advance() {
                Some(c) => c,
                None => {
                    return None;
                },
            };
            proof {
                token_at_bounds(b, start as int);
                if ch < 0x80 {
                    boundary_after_ascii(b, start as int);
                }
            }
            if ch == COMMA {
                match self.peek() {
                    Some(c) => {
                        if c != AT && (is_ws(c) || is_delim(c)) {
                            continue ;
                        }
                    },
                    None => {
                        continue ;
                    },
                }
            }
            let tok = self.scan_token(ch);
            return Some(SpannedToken { token: tok, span: self.span_from(start, sl, sc) });
        }
    }

    /// Reads the token whose first byte, `ch`, has just been taken.
    fn scan_token(&mut self, ch: u8) -> (r: Token)
        requires
            old(self).well_formed(),
            old(self).pos > 0,
            ch == old(self).src@[old(self).pos - 1],
            is_char_boundary(old(self).src@, old(self).pos - 1),
            ch < 0x80 ==> is_char_boundary(old(self).src@, old(self).pos as int),
            ch == COMMA ==> !is_separator(old(self).src@, old(self).pos as int),
        ensures
            final(self).well_formed(),
            final(self).src@ == old(self).src@,
            final(self).with_comments == old(self).with_comments,
            is_char_boundary(final(self).src@, final(self).pos as int),
            r@ == token_at(old(self).src@, old(self).pos - 1).0,
            final(self).pos == token_at(old(self).src@, old(self).pos - 1).1,
    {
        let ghost b = self.src@;
        let start = self.pos - 1;
        if ch == LPAREN {
            Token::LParen
        } else if ch == RPAREN {
            Token::RParen
        } else if ch == LBRACE {
            Token::LBrace
        } else if ch == RBRACE {
            Token::RBrace
        } else if ch == LBRACKET {
            Token::LBracket
        } else if ch == RBRACKET {
            Token::RBracket
        } else if ch == QUOTE {
            Token::Quote
        } else if ch == BACKTICK {
            Token::Quasiquote
        } else if ch == COMMA {
            if self.peek() == Some(AT) {
                proof {
                    boundary_after_ascii(b, self.pos as int);
                }
                self.advance();
                Token::UnquoteSplice
            } else {
                Token::Unquote
            }
        } else if ch == HASH {
            Token::HashFn
        } else if ch == DQUOTE {
            self.scan_string()
        } else if ch == COLON {
            proof {
                run_end_bounds(b, start + 1, |c: u8| !ws_byte(c) && !delim_byte(c));
            }
            match self.peek() {
                Some(c) => {
                    if !is_ws(c) && !is_delim(c) {
                        self.scan_keyword()
                    } else {
                        Token::Symbol(":".to_owned())
                    }
                },
                None => Token::Symbol(":".to_owned()),
            }
        } else {
            self.skip_atom();
            proof {
                run_end_bounds(b, start + 1, |c: u8| !ws_byte(c) && !delim_byte(c));
                boundary_at_stop(b, self.pos as int);
            }
            let s = self.text_between(start, self.pos);
            classify_atom(s)
        }
    }

    fn skip_atom(&mut self)
        requires
            old(self).well_formed(),
        ensures
            final(self).well_formed(),
            final(self).src@ == old(self).src@,
            final(self).with_comments == old(self).with_comments,
            final(self).pos == atom_end(old(self).src@, old(self).pos as int),
    {
        loop
            invariant
                self.well_formed(),
                self.src@ == old(self).src@,
                self.with_comments == old(self).with_comments,
                atom_end(self.src@, self.pos as int) == atom_end(
                    old(self).src@,
                    old(self).pos as int,
                ),
            ensures
                self.pos == atom_end(old(self).src@, old(self).pos as int),
            decreases self.src@.len() - self.pos,
        {
            match self.peek() {
                Some(c) => {
                    if is_ws(c) || is_delim(c) {
                        break ;
                    }
                    self.advance();
                },
                None => break ,
            }
        }
    }

    /// Reads the inside of a string; its opening quote has been taken.
    fn scan_string(&mut self) -> (r: Token)
        requires
            old(self).well_formed(),
        ensures
            final(self).well_formed(),
            final(self).src@ == old(self).src@,
            final(self).with_comments == old(self).with_comments,
            r@ == TokenView::Str(string_body(old(self).src@, old(self).pos as int).0),
            final(self).pos == string_body(old(self).src@, old(self).pos as int).1,
            is_char_boundary(final(self).src@, final(self).pos as int),
    {
        let ghost b = self.src@;
        let ghost want = string_body(b, self.pos as int);
        proof {
            string_body_bounds(b, self.pos as int);
        }
        let mut s = String::new();
        loop
            invariant_except_break
                want.0 == s@ + string_body(b, self.pos as int).0,
                want.1 == string_body(b, self.pos as int).1,
            invariant
                self.well_formed(),
                self.src@ == b,
                self.with_comments == old(self).with_comments,
            ensures
                want.0 == s@,
                want.1 == self.pos,
            decreases b.len() - self.pos,
        {
            let ghost p = self.pos as int;
            let ghost s0 = s@;
            let ghost rest = string_body(b, p).0;
            match self.advance() {
                None => {
                    assert(s@ + rest =~= s@);
                    break ;
                },
                Some(c) => {
                    if c == DQUOTE {
                        assert(s@ + rest =~= s@);
                        break ;
                    } else if c == BACKSLASH {
                        if self.pos >= self.src.len() {
                            assert(s@ + rest =~= s@);
                            break ;
                        }
                        proof {
                            escape_bounds(b, p + 1);
                        }
                        self.scan_escape(&mut s);
                        let ghost text = escape_at(b, p + 1).0;
                        assert(s0 + rest =~= (s0 + text) + string_body(b, self.pos as int).0);
                    } else if c < 0x80 {
                        s.push(c as char);
                        assert(s0 + rest =~= s@ + string_body(b, self.pos as int).0);
                    } else {
                        let width: usize = if c >= 0xF0 {
                            4
                        } else if c >= 0xE0 {
                            3
                        } else {
                            2
                        };
                        let start = self.pos - 1;
                        self.skip_bytes(width - 1);
                        let ghost chunk = b.subrange(p, self.pos as int);
                        let part = utf8_text(
                            vstd::slice::slice_subrange(self.src, start, self.pos),
                        );
                        if let Some(st) = part {
                            s.append(&st);
                        }
                        assert(s@ =~= s0 + utf8_or_nothing(chunk));
                        assert(s0 + rest =~= s@ + string_body(b, self.pos as int).0);
                    }
                },
            }
        }
        proof {
            if self.pos < b.len() {
                boundary_after_ascii(b, self.pos - 1);
            } else {
                boundary_at_stop(b, self.pos as int);
            }
        }
        Token::Str(s)
    }

    /// Skips `n` bytes, or what is left of the source.
    fn skip_bytes(&mut self, n: usize)
        requires
            old(self).well_formed(),
        ensures
            final(self).well_formed(),
            final(self).src@ == old(self).src@,
            final(self).with_comments == old(self).with_comments,
            final(self).pos == (if old(self).pos + n <= old(self).src@.len() {
                old(self).pos + n
            } else {
                old(self).src@.len() as int
            }),
    {
        let mut k: usize = 0;
        while k < n
            invariant
                self.well_formed(),
                self.src@ == old(self).src@,
                self.with_comments == old(self).with_comments,
                k <= n,
                old(self).pos <= old(self).src@.len(),
                self.pos == (if old(self).pos + k <= old(self).src@.len() {
                    old(self).pos + k
                } else {
                    old(self).src@.len() as int
                }),
            decreases n - k,
        {
            self.advance();
            k = k + 1;
        }
    }

    /// Reads one escape of a string; its backslash has been taken.
    fn scan_escape(&mut self, s: &mut String)
        requires
            old(self).well_formed(),
            old(self).pos < old(self).src@.len(),
        ensures
            final(self).well_formed(),
            final(self).src@ == old(self).src@,
            final(self).with_comments == old(self).with_comments,
            final(s)@ == old(s)@ + escape_at(old(self).src@, old(self).pos as int).0,
            final(self).pos == escape_at(old(self).src@, old(self).pos as int).1,
    {
        let ghost b = self.src@;
        let ghost q = self.pos as int;
        let ghost s0 = s@;
        let c = self.src[self.pos];
        if c == LOWER_A {
            self.advance();
            s.push('\x07');
        } else if c == LOWER_B {
            self.advance();
            s.push('\x08');
        } else if c == LOWER_F {
            self.advance();
            s.push('\x0C');
        } else if c == LOWER_N {
            self.advance();
            s.push('\n');
        } else if c == LOWER_R {
            self.advance();
            s.push('\r');
        } else if c == LOWER_T {
            self.advance();
            s.push('\t');
        } else if c == LOWER_V {
            self.advance();
            s.push('\x0B');
        } else if c == BACKSLASH || c == DQUOTE || c == QUOTE {
            self.advance();
            s.push(c as char);
        } else if c == LF || c == CR {
            // line continuation
            self.advance();
        } else if c == LOWER_Z {
            // \z skips following whitespace (Lua 5.2+)
            self.advance();
            self.skip_whitespace();
        } else if c == LOWER_X {
            // \xHH — two hex digits
            self.advance();
            let hi = self.advance().unwrap_or(DIGIT_0);
            let lo = self.advance().unwrap_or(DIGIT_0);
            let n = hex_digit(hi) * 16 + hex_digit(lo);
            s.push(n as char);
        } else if c == LOWER_U {
            // \u{HHHHHH} — Unicode code point
            self.advance();
            if self.peek() == Some(LBRACE) {
                self.advance();
                let code = self.scan_code_point();
                if let Some(ch) = char::from_u32(code) {
                    s.push(ch);
                }
            }
        } else if c >= DIGIT_0 && c <= DIGIT_9 {
            // \NNN — up to 3 decimal digits (0–255)
            let n = self.scan_decimal();
            s.push(n as char);
        } else {
            self.advance();
            s.push('\\');
            s.push(c as char);
        }
        assert(s@ =~= s0 + escape_at(b, q).0);
    }

    /// Reads the digits of a `\u{..}` escape and the closing brace.
    fn scan_code_point(&mut self) -> (code: u32)
        requires
            old(self).well_formed(),
        ensures
            final(self).well_formed(),
            final(self).src@ == old(self).src@,
            final(self).with_comments == old(self).with_comments,
            ({
                let b = old(self).src@;
                let p = old(self).pos as int;
                let e = brace_end(b, p);
                &&& code == code_point(b, p, e)
                &&& final(self).pos == (if e < b.len() { e + 1 } else { e })
            }),
    {
        let ghost b = self.src@;
        let ghost p = self.pos as int;
        let mut code: u32 = 0;
        loop
            invariant
                self.well_formed(),
                self.src@ == b,
                self.with_comments == old(self).with_comments,
                p <= self.pos,
                code == code_point(b, p, self.pos as int),
                brace_end(b, self.pos as int) == brace_end(b, p),
            ensures
                self.pos == brace_end(b, p),
                code == code_point(b, p, self.pos as int),
            decreases b.len() - self.pos,
        {
            match self.peek() {
                Some(c) => {
                    if c == RBRACE {
                        break ;
                    }
                    let d = hex_digit(c) as u32;
                    code = code.wrapping_mul(16).wrapping_add(d);
                    self.advance();
                },
                None => break ,
            }
        }
        self.advance();
        code
    }

    /// Reads up to three decimal digits; the first is there.
    fn scan_decimal(&mut self) -> (n: u8)
        requires
            old(self).well_formed(),
            old(self).pos < old(self).src@.len(),
            digit_byte(old(self).src@[old(self).pos as int]),
        ensures
            final(self).well_formed(),
            final(self).src@ == old(self).src@,
            final(self).with_comments == old(self).with_comments,
            ({
                let b = old(self).src@;
                let q = old(self).pos as int;
                let v = digits_value(b, q, digit_count(b, q));
                &&& n == (if v < 255 { v } else { 255 })
                &&& final(self).pos == q + digit_count(b, q)
            }),
    {
        let ghost b = self.src@;
        let ghost q = self.pos as int;
        let mut n: u32 = (self.src[self.pos] - DIGIT_0) as u32;
        self.advance();
        proof {
            reveal_with_fuel(digits_value, 4);
        }
        if let Some(c2) = self.peek() {
            if c2 >= DIGIT_0 && c2 <= DIGIT_9 {
                n = n * 10 + (c2 - DIGIT_0) as u32;
                self.advance();
                if let Some(c3) = self.peek() {
                    if c3 >= DIGIT_0 && c3 <= DIGIT_9 {
                        n = n * 10 + (c3 - DIGIT_0) as u32;
                        self.advance();
                    }
                }
            }
        }
        if n < 255 {
            n as u8
        } else {
            255
        }
    }

    /// Reads the name of a keyword; its colon has been taken.
    fn scan_keyword(&mut self) -> (r: Token)
        requires
            old(self).well_formed(),
        ensures
            final(self).well_formed(),
            final(self).src@ == old(self).src@,
            final(self).with_comments == old(self).with_comments,
            final(self).pos == atom_end(old(self).src@, old(self).pos as int),
            r@ == TokenView::Keyword(
                Seq::new(
                    (final(self).pos - old(self).pos) as nat,
                    |i: int| old(self).src@[old(self).pos + i] as char,
                ),
            ),
            is_char_boundary(final(self).src@, final(self).pos as int),
    {
        let ghost b = self.src@;
        let ghost p = self.pos as int;
        let mut s = String::new();
        proof {
            run_end_bounds(b, p, |c: u8| !ws_byte(c) && !delim_byte(c));
        }
        loop
            invariant
                self.well_formed(),
                self.src@ == b,
                self.with_comments == old(self).with_comments,
                p <= self.pos,
                atom_end(b, self.pos as int) == atom_end(b, p),
                s@ == Seq::new((self.pos - p) as nat, |i: int| b[p + i] as char),
            ensures
                self.pos == atom_end(b, p),
                s@ == Seq::new((self.pos - p) as nat, |i: int| b[p + i] as char),
            decreases b.len() - self.pos,
        {
            match self.peek() {
                Some(c) => {
                    if is_ws(c) || is_delim(c) {
                        break ;
                    }
                    s.push(c as char);
                    self.advance();
                    assert(s@ =~= Seq::new((self.pos - p) as nat, |i: int| b[p + i] as char));
                },
                None => break ,
            }
        }
        proof {
            boundary_at_stop(b, self.pos as int);
        }
        Token::Keyword(s)
    }
}

proof fn boundary_after_run(b: Seq<u8>, p: int, q: int)
    requires
        valid_utf8(b),
        0 <= p <= b.len(),
        is_char_boundary(b, p),
        q == blank_end(b, p),
    ensures
        is_char_boundary(b, q),
{
    run_end_bounds(b, p, |c: u8| blank_byte(c));
    if p < q {
        assert(blank_byte(b[q - 1]));
        boundary_after_ascii(b, q - 1);
    }
}

proof fn boundary_after_trivia(b: Seq<u8>, p: int)
    requires
        valid_utf8(b),
        0 <= p <= b.len(),
        is_char_boundary(b, p),
    ensures
        is_char_boundary(b, trivia_end(b, p)),
    decreases b.len() - p,
{
    let q = blank_end(b, p);
    run_end_bounds(b, p, |c: u8| blank_byte(c));
    boundary_after_run(b, p, q);
    if comment_at(b, q) {
        run_end_bounds(b, q, |c: u8| c != LF);
        boundary_at_stop(b, line_end(b, q));
        boundary_after_trivia(b, line_end(b, q));
    }
}

fn classify_atom(s: String) -> (r: Token)
    ensures
        r@ == atom_token(s@),
{
    if same(&s, "nil") {
        Token::Nil
    } else if same(&s, "true") {
        Token::Bool(true)
    } else if same(&s, "false") {
        Token::Bool(false)
    } else if same(&s, "...") {
        Token::Varargs
    } else {
        let chars = chars_of(&s);
        match parse_number(&chars) {
            Some(n) => Token::Number(n),
            None => Token::Symbol(s),
        }
    }
}

// ── Laws ────────────────────────────────────────────────────────────────────

/// The tokens that are not comments.
pub open spec fn without_comments(toks: Seq<SpannedTokenView>) -> Seq<SpannedTokenView>
    decreases toks.len(),
{
    if toks.len() == 0 {
        toks
    } else if toks[0].token is Comment {
        without_comments(toks.drop_first())
    } else {
        seq![toks[0]] + without_comments(toks.drop_first())
    }
}

/// Comments are the only difference between the two ways of lexing a text.
pub proof fn comments_only_add_tokens(src: Seq<char>)
    ensures
        lex(src) == without_comments(lex_with_comments(src)),
{
    comments_only_add_tokens_from(encode_utf8(src), 0);
}

proof fn token_at_is_no_comment(b: Seq<u8>, p: int)
    requires
        0 <= p <= b.len(),
    ensures
        next_token_at(b, p, false) matches Some((t, s, e)) ==> !(t is Comment),
    decreases b.len() - p,
{
    trivia_end_bounds(b, p);
    let q = trivia_end(b, p);
    if q < b.len() && b[q] == COMMA && is_separator(b, q + 1) {
        token_at_is_no_comment(b, q + 1);
    }
}

/// Without comments asked for, no token is one.
pub proof fn lex_is_comment_free(src: Seq<char>)
    ensures
        forall|i: int| 0 <= i < lex(src).len() ==> !((#[trigger] lex(src)[i]).token is Comment),
{
    tokens_from_comment_free(encode_utf8(src), 0);
}

proof fn tokens_from_comment_free(b: Seq<u8>, p: int)
    requires
        0 <= p <= b.len(),
    ensures
        forall|i: int|
            0 <= i < tokens_from(b, p, false).len() ==> !((#[trigger] tokens_from(
                b,
                p,
                false,
            )[i]).token is Comment),
    decreases b.len() - p,
{
    token_at_is_no_comment(b, p);
    next_token_bounds(b, p, false);
    if let Some((t, s, e)) = next_token_at(b, p, false) {
        tokens_from_comment_free(b, e);
        let all = tokens_from(b, p, false);
        let rest = tokens_from(b, e, false);
        assert(forall|i: int| 0 < i < all.len() ==> all[i] == rest[i - 1]);
    }
}

/// Dropping comments changes nothing where there are none.
pub proof fn without_comments_keeps(toks: Seq<SpannedTokenView>)
    requires
        forall|i: int| 0 <= i < toks.len() ==> !((#[trigger] toks[i]).token is Comment),
    ensures
        without_comments(toks) == toks,
    decreases toks.len(),
{
    if toks.len() > 0 {
        without_comments_keeps(toks.drop_first());
        assert(seq![toks[0]] + toks.drop_first() =~= toks);
    }
}

proof fn comments_only_add_tokens_from(b: Seq<u8>, p: int)
    requires
        0 <= p <= b.len(),
    ensures
        tokens_from(b, p, false) == without_comments(tokens_from(b, p, true)),
    decreases b.len() - p,
{
    let q = blank_end(b, p);
    run_end_bounds(b, p, |c: u8| blank_byte(c));
    next_token_bounds(b, p, true);
    if comment_at(b, q) {
        let e = line_end(b, q);
        run_end_bounds(b, q, |c: u8| c != LF);
        assert(trivia_end(b, p) == trivia_end(b, e));
        assert(tokens_from(b, p, false) == tokens_from(b, e, false));
        comments_only_add_tokens_from(b, e);
        assert(tokens_from(b, p, true).drop_first() =~= tokens_from(b, e, true));
    } else if q < b.len() && b[q] == COMMA && is_separator(b, q + 1) {
        comments_only_add_tokens_from(b, q + 1);
        assert(tokens_from(b, p, false) == tokens_from(b, q + 1, false));
        assert(tokens_from(b, p, true) == tokens_from(b, q + 1, true));
    } else if q < b.len() {
        let (t, e) = token_at(b, q);
        assert(next_token_at(b, p, false) == Some((t, q, e)));
        token_at_is_no_comment(b, p);
        comments_only_add_tokens_from(b, e);
        assert(tokens_from(b, p, true).drop_first() =~= tokens_from(b, e, true));
    }
}

/// A comment as it stands in the text: it starts with `;`, or with `#!` at the start
/// of the file, holds no line break, reaches to the end of its line, and its text is
/// what stands there.
pub open spec fn is_line_comment(b: Seq<u8>, t: SpannedTokenView) -> bool {
    let (s, e) = (t.span.start as int, t.span.end as int);
    &&& comment_at(b, s)
    &&& s < e <= b.len()
    &&& forall|k: int| s <= k < e ==> #[trigger] b[k] != LF
    &&& e < b.len() ==> b[e] == LF
    &&& t.token == TokenView::Comment(decode_utf8(b.subrange(s, e)))
}

/// Every comment is kept as it stands in the text.
pub proof fn comments_are_lines(src: Seq<char>)
    requires
        encode_utf8(src).len() <= u32::MAX,
    ensures
        forall|i: int|
            0 <= i < lex_with_comments(src).len() && (#[trigger] lex_with_comments(
                src,
            )[i]).token is Comment ==> is_line_comment(
                encode_utf8(src),
                lex_with_comments(src)[i],
            ),
{
    comments_are_lines_from(encode_utf8(src), 0);
}

proof fn next_comment_is_line(b: Seq<u8>, p: int)
    requires
        0 <= p <= b.len() <= u32::MAX,
    ensures
        next_token_at(b, p, true) matches Some((t, s, e)) ==> (t is Comment ==> is_line_comment(
            b,
            (SpannedTokenView { token: t, span: span_at(b, s, e) }),
        )),
    decreases b.len() - p,
{
    let q = blank_end(b, p);
    run_end_bounds(b, p, |c: u8| blank_byte(c));
    if comment_at(b, q) {
        run_end_bounds(b, q, |c: u8| c != LF);
    } else if q < b.len() && b[q] == COMMA && is_separator(b, q + 1) {
        next_comment_is_line(b, q + 1);
    }
}

proof fn comments_are_lines_from(b: Seq<u8>, p: int)
    requires
        0 <= p <= b.len() <= u32::MAX,
    ensures
        forall|i: int|
            0 <= i < tokens_from(b, p, true).len() && (#[trigger] tokens_from(
                b,
                p,
                true,
            )[i]).token is Comment ==> is_line_comment(b, tokens_from(b, p, true)[i]),
    decreases b.len() - p,
{
    next_comment_is_line(b, p);
    next_token_bounds(b, p, true);
    if let Some((t, s, e)) = next_token_at(b, p, true) {
        comments_are_lines_from(b, e);
        let all = tokens_from(b, p, true);
        let rest = tokens_from(b, e, true);
        assert(forall|i: int| 0 < i < all.len() ==> all[i] == rest[i - 1]);
    }
}

/// The spans of a token list: each takes at least one byte of the text from
/// `from` to `to`, and each starts at or after the end of the one before.
pub open spec fn spans_in_order(toks: Seq<SpannedTokenView>, from: int, to: int) -> bool {
    &&& forall|i: int|
        0 <= i < toks.len() ==> from <= (#[trigger] toks[i]).span.start < toks[i].span.end <= to
    &&& forall|i: int, j: int|
        0 <= i < j < toks.len() ==> (#[trigger] toks[i]).span.end <= (#[trigger] toks[j]).span.start
}

/// Tokens come in the order of the text, do not overlap, and lie inside it.
pub proof fn tokens_in_order(src: Seq<char>, comments: bool)
    requires
        encode_utf8(src).len() <= u32::MAX,
    ensures
        spans_in_order(
            tokens_from(encode_utf8(src), 0, comments),
            0,
            encode_utf8(src).len() as int,
        ),
{
    tokens_in_order_from(encode_utf8(src), 0, comments);
}

proof fn tokens_in_order_from(b: Seq<u8>, p: int, comments: bool)
    requires
        0 <= p <= b.len(),
        b.len() <= u32::MAX,
    ensures
        spans_in_order(tokens_from(b, p, comments), p, b.len() as int),
    decreases b.len() - p,
{
    next_token_bounds(b, p, comments);
    match next_token_at(b, p, comments) {
        None => {},
        Some((t, s, e)) => {
            tokens_in_order_from(b, e, comments);
            let rest = tokens_from(b, e, comments);
            let all = tokens_from(b, p, comments);
            assert(forall|i: int| 0 < i < all.len() ==> all[i] == rest[i - 1]);
        },
    }
}

/// A span of the text: its ends are character boundaries, in order.
pub open spec fn span_on_text(b: Seq<u8>, s: Span) -> bool {
    &&& s.start <= s.end <= b.len()
    &&& is_char_boundary(b, s.start as int)
    &&& is_char_boundary(b, s.end as int)
}

/// Tokens start and end at character boundaries of the text.
pub proof fn tokens_on_boundaries(src: Seq<char>, comments: bool)
    requires
        encode_utf8(src).len() <= u32::MAX,
    ensures
        forall|i: int|
            0 <= i < tokens_from(encode_utf8(src), 0, comments).len() ==> span_on_text(
                encode_utf8(src),
                (#[trigger] tokens_from(encode_utf8(src), 0, comments)[i]).span,
            ),
{
    encode_utf8_valid_utf8(src);
    tokens_on_boundaries_from(encode_utf8(src), 0, comments);
}

proof fn token_end_boundary(b: Seq<u8>, p: int)
    requires
        valid_utf8(b),
        0 <= p < b.len(),
        is_char_boundary(b, p),
        !(b[p] == COMMA && is_separator(b, p + 1)),
    ensures
        is_char_boundary(b, token_at(b, p).1),
{
    let c = b[p];
    if c < 0x80 {
        boundary_after_ascii(b, p);
    }
    string_body_bounds(b, p + 1);
    run_end_bounds(b, p + 1, |c: u8| !ws_byte(c) && !delim_byte(c));
    if c == DQUOTE {
        let e = string_body(b, p + 1).1;
        if e < b.len() {
            boundary_after_ascii(b, e - 1);
        } else {
            boundary_at_stop(b, e);
        }
    } else if c == COMMA && p + 1 < b.len() && b[p + 1] == AT {
        boundary_after_ascii(b, p + 1);
    }
    boundary_at_stop(b, atom_end(b, p + 1));
}

proof fn next_token_boundaries(b: Seq<u8>, p: int, comments: bool)
    requires
        valid_utf8(b),
        0 <= p <= b.len(),
        is_char_boundary(b, p),
    ensures
        next_token_at(b, p, comments) matches Some((t, s, e)) ==> is_char_boundary(b, s)
            && is_char_boundary(b, e),
    decreases b.len() - p,
{
    run_end_bounds(b, p, |c: u8| blank_byte(c));
    trivia_end_bounds(b, p);
    boundary_after_run(b, p, blank_end(b, p));
    boundary_after_trivia(b, p);
    let q = if comments {
        blank_end(b, p)
    } else {
        trivia_end(b, p)
    };
    if comments && comment_at(b, q) {
        run_end_bounds(b, q, |c: u8| c != LF);
        boundary_at_stop(b, line_end(b, q));
    } else if q < b.len() {
        if b[q] == COMMA && is_separator(b, q + 1) {
            boundary_after_ascii(b, q);
            next_token_boundaries(b, q + 1, comments);
        } else {
            token_end_boundary(b, q);
        }
    }
}

proof fn tokens_on_boundaries_from(b: Seq<u8>, p: int, comments: bool)
    requires
        valid_utf8(b),
        0 <= p <= b.len(),
        b.len() <= u32::MAX,
        is_char_boundary(b, p),
    ensures
        forall|i: int|
            0 <= i < tokens_from(b, p, comments).len() ==> span_on_text(
                b,
                (#[trigger] tokens_from(b, p, comments)[i]).span,
            ),
    decreases b.len() - p,
{
    next_token_bounds(b, p, comments);
    next_token_boundaries(b, p, comments);
    if let Some((t, s, e)) = next_token_at(b, p, comments) {
        tokens_on_boundaries_from(b, e, comments);
        let all = tokens_from(b, p, comments);
        let rest = tokens_from(b, e, comments);
        assert(forall|i: int| 0 < i < all.len() ==> all[i] == rest[i - 1]);
    }
}

} // verus!
