//! Reading again what was written: the tokens of a laid text are those it was laid
//! from.
use vstd::prelude::*;
use vstd::utf8::*;

use crate::fmt::{is_white, trimmed_end};
use crate::layout::{
    ascii_text, breaks, closes, follows, gap_before, gap_byte, glued, laid_at, lexed, opens,
    plain_gap, set_at, spelled, stands, tailed, text_end, text_in, text_splits, token_text,
    token_text_splits, trimmed_and_blanks, word_end, words, Word,
};
use crate::lexer::{
    atom_end, blank_byte, blank_end, brace_end, char_end, char_width, code_point, comment_at,
    delim_byte, digit_byte, digit_count, digits_value, escape_at, escape_bounds, is_separator,
    is_shebang, line_end, next_token_at, next_token_bounds, run_end, run_end_bounds, span_at,
    span_on_text, string_body, token_at, tokens_from, ws_byte, Span, SpannedTokenView, TokenView,
    AT, BACKSLASH, BANG, COLON, COMMA, DQUOTE, LBRACE, LF, RBRACE,
};
use crate::parser::is_prefix;
use crate::strings::{boundary_after_ascii, valid_between};
use crate::text::encode_concat;

verus! {

// ── Tokens depend on their own bytes ────────────────────────────────────────

/// The first `n` bytes from `p` in one text are those from `q` in another.
pub open spec fn same_bytes(b: Seq<u8>, p: int, c: Seq<u8>, q: int, n: int) -> bool {
    &&& 0 <= p && p + n <= b.len()
    &&& 0 <= q && q + n <= c.len()
    &&& forall|k: int| 0 <= k < n ==> #[trigger] b[p + k] == c[q + k]
}

proof fn same_bytes_from(b: Seq<u8>, p: int, c: Seq<u8>, q: int, n: int, i: int)
    requires
        same_bytes(b, p, c, q, n),
        0 <= i <= n,
    ensures
        same_bytes(b, p + i, c, q + i, n - i),
{
    assert forall|k: int| 0 <= k < n - i implies #[trigger] b[p + i + k] == c[q + i + k] by {
        assert(b[p + (i + k)] == c[q + (i + k)]);
    }
}

pub(crate) proof fn same_subrange(b: Seq<u8>, p: int, c: Seq<u8>, q: int, n: int)
    requires
        same_bytes(b, p, c, q, n),
        n >= 0,
    ensures
        b.subrange(p, p + n) == c.subrange(q, q + n),
{
    let x = b.subrange(p, p + n);
    let y = c.subrange(q, q + n);
    assert forall|k: int| 0 <= k < n implies #[trigger] x[k] == y[k] by {
        assert(b[p + k] == c[q + k]);
    }
    assert(x =~= y);
}

pub(crate) proof fn run_ends_at(c: Seq<u8>, q: int, r: int, f: spec_fn(u8) -> bool)
    requires
        0 <= q <= r <= c.len(),
        forall|k: int| q <= k < r ==> f(#[trigger] c[k]),
        r < c.len() ==> !f(c[r]),
    ensures
        run_end(c, q, f) == r,
    decreases r - q,
{
    if q < r {
        assert(f(c[q]));
        run_ends_at(c, q + 1, r, f);
    }
}

proof fn run_is_local(b: Seq<u8>, p: int, c: Seq<u8>, q: int, n: int, f: spec_fn(u8) -> bool)
    requires
        0 <= p <= b.len(),
        n == run_end(b, p, f) - p,
        p + n < b.len(),
        same_bytes(b, p, c, q, n + 1),
    ensures
        run_end(c, q, f) == q + n,
{
    run_end_bounds(b, p, f);
    assert forall|k: int| q <= k < q + n implies f(#[trigger] c[k]) by {
        assert(b[p + (k - q)] == c[q + (k - q)]);
    }
    assert(b[p + n] == c[q + n]);
    run_ends_at(c, q, q + n, f);
}

proof fn code_is_local(b: Seq<u8>, p: int, c: Seq<u8>, q: int, n: int)
    requires
        same_bytes(b, p, c, q, n),
    ensures
        code_point(b, p, p + n) == code_point(c, q, q + n),
    decreases n,
{
    if n > 0 {
        assert(same_bytes(b, p, c, q, n - 1));
        code_is_local(b, p, c, q, n - 1);
        assert(b[p + (n - 1)] == c[q + (n - 1)]);
    }
}

proof fn digits_are_local(b: Seq<u8>, p: int, c: Seq<u8>, q: int, n: int)
    requires
        same_bytes(b, p, c, q, n),
    ensures
        digits_value(b, p, n) == digits_value(c, q, n),
    decreases n,
{
    if n > 0 {
        assert(same_bytes(b, p, c, q, n - 1));
        digits_are_local(b, p, c, q, n - 1);
        assert(b[p + (n - 1)] == c[q + (n - 1)]);
    }
}

/// An escape that does not reach the end of the text depends on its bytes and the
/// byte behind it.
proof fn escape_is_local(b: Seq<u8>, p: int, c: Seq<u8>, q: int)
    requires
        0 <= p < b.len(),
        escape_at(b, p).1 < b.len(),
        same_bytes(b, p, c, q, escape_at(b, p).1 - p + 1),
    ensures
        escape_at(c, q) == (escape_at(b, p).0, q + (escape_at(b, p).1 - p)),
{
    escape_bounds(b, p);
    let n = escape_at(b, p).1 - p;
    assert(b[p + 0] == c[q + 0]);
    assert(b[p + 1] == c[q + 1]);
    let d = b[p];
    if d == 0x7a {
        same_bytes_from(b, p, c, q, n + 1, 1);
        run_is_local(b, p + 1, c, q + 1, n - 1, |x: u8| blank_byte(x));
    } else if d == 0x78 {
        assert(b[p + 2] == c[q + 2]);
    } else if d == 0x75 {
        if b[p + 1] == LBRACE {
            let e = brace_end(b, p + 2);
            run_end_bounds(b, p + 2, |x: u8| x != RBRACE);
            same_bytes_from(b, p, c, q, n + 1, 2);
            assert(same_bytes(b, p + 2, c, q + 2, e - (p + 2) + 1));
            run_is_local(b, p + 2, c, q + 2, e - (p + 2), |x: u8| x != RBRACE);
            assert(same_bytes(b, p + 2, c, q + 2, e - (p + 2)));
            code_is_local(b, p + 2, c, q + 2, e - (p + 2));
        }
    } else if digit_byte(d) {
        let k = digit_count(b, p);
        if k >= 2 {
            assert(b[p + 2] == c[q + 2]);
        }
        assert(digit_count(c, q) == k);
        assert(same_bytes(b, p, c, q, k));
        digits_are_local(b, p, c, q, k);
    }
}

/// The inside of the string from `p` on ends with a quote.
pub open spec fn string_closed(b: Seq<u8>, p: int) -> bool
    decreases b.len() - p,
    when 0 <= p <= b.len()
{
    if p == b.len() {
        false
    } else if b[p] == DQUOTE {
        true
    } else if b[p] == BACKSLASH {
        if p + 1 == b.len() {
            false
        } else {
            proof {
                escape_bounds(b, p + 1);
            }
            string_closed(b, escape_at(b, p + 1).1)
        }
    } else if b[p] < 0x80 {
        string_closed(b, p + 1)
    } else {
        string_closed(b, char_end(b, p))
    }
}

/// A string that is not closed reaches the end of the text.
pub(crate) proof fn string_ends(b: Seq<u8>, p: int)
    requires
        0 <= p <= b.len(),
    ensures
        !string_closed(b, p) ==> string_body(b, p).1 == b.len(),
        string_closed(b, p) ==> p < string_body(b, p).1 <= b.len(),
    decreases b.len() - p,
{
    if p < b.len() && b[p] != DQUOTE {
        if b[p] == BACKSLASH {
            if p + 1 < b.len() {
                escape_bounds(b, p + 1);
                string_ends(b, escape_at(b, p + 1).1);
            }
        } else if b[p] < 0x80 {
            string_ends(b, p + 1);
        } else {
            string_ends(b, char_end(b, p));
        }
    }
}

/// A closed string depends on its bytes.
proof fn string_is_local(b: Seq<u8>, p: int, c: Seq<u8>, q: int)
    requires
        0 <= p <= b.len(),
        string_closed(b, p),
        same_bytes(b, p, c, q, string_body(b, p).1 - p),
    ensures
        string_body(c, q) == (string_body(b, p).0, q + (string_body(b, p).1 - p)),
    decreases b.len() - p,
{
    string_ends(b, p);
    let n = string_body(b, p).1 - p;
    assert(b[p + 0] == c[q + 0]);
    if b[p] != DQUOTE {
        if b[p] == BACKSLASH {
            escape_bounds(b, p + 1);
            let next = escape_at(b, p + 1).1;
            string_ends(b, next);
            same_bytes_from(b, p, c, q, n, 1);
            assert(same_bytes(b, p + 1, c, q + 1, next - (p + 1) + 1));
            escape_is_local(b, p + 1, c, q + 1);
            same_bytes_from(b, p, c, q, n, next - p);
            string_is_local(b, next, c, q + (next - p));
        } else if b[p] < 0x80 {
            string_ends(b, p + 1);
            same_bytes_from(b, p, c, q, n, 1);
            string_is_local(b, p + 1, c, q + 1);
        } else {
            let e = char_end(b, p);
            string_ends(b, e);
            same_bytes_from(b, p, c, q, n, e - p);
            string_is_local(b, e, c, q + (e - p));
            assert(e == p + char_width(b[p]));
            assert(same_bytes(b, p, c, q, e - p));
            same_subrange(b, p, c, q, e - p);
        }
    }
}

/// The token at `p` is an atom: it goes on up to whitespace or a delimiter.
pub open spec fn is_atom(b: Seq<u8>, p: int) -> bool {
    let c = b[p];
    &&& !delim_byte(c)
    &&& c != 0x27 && c != 0x60 && c != COMMA && c != 0x23
}

/// What stands at `q` ends an atom.
pub open spec fn stops(c: Seq<u8>, q: int) -> bool {
    q == c.len() || 0 <= q < c.len() && (ws_byte(c[q]) || delim_byte(c[q]))
}

/// A token depends on its bytes, if what follows ends it.
proof fn token_is_local(b: Seq<u8>, p: int, c: Seq<u8>, q: int)
    requires
        0 <= p < b.len(),
        b[p] != 0x3b,
        same_bytes(b, p, c, q, token_at(b, p).1 - p),
        token_at(b, p).1 > p,
        is_atom(b, p) ==> stops(c, q + (token_at(b, p).1 - p)),
        b[p] == DQUOTE ==> string_closed(b, p + 1),
        b[p] == COMMA && token_at(b, p).1 == p + 1 ==> q + 1 < c.len() && c[q + 1] != AT,
    ensures
        token_at(c, q) == (token_at(b, p).0, q + (token_at(b, p).1 - p)),
{
    let n = token_at(b, p).1 - p;
    assert(b[p + 0] == c[q + 0]);
    if b[p] == DQUOTE {
        same_bytes_from(b, p, c, q, n, 1);
        string_is_local(b, p + 1, c, q + 1);
    } else if b[p] == COMMA {
        if n == 2 {
            assert(b[p + 1] == c[q + 1]);
        }
    } else if is_atom(b, p) {
        let f = |x: u8| !ws_byte(x) && !delim_byte(x);
        run_end_bounds(b, p + 1, f);
        assert forall|k: int| q + 1 <= k < q + n implies f(#[trigger] c[k]) by {
            assert(b[p + (k - q)] == c[q + (k - q)]);
        }
        run_ends_at(c, q + 1, q + n, f);
        assert(atom_end(c, q + 1) == q + n);
        if b[p] == COLON {
            if n > 1 {
                let x = Seq::new((n - 1) as nat, |i: int| b[p + 1 + i] as char);
                let y = Seq::new((n - 1) as nat, |i: int| c[q + 1 + i] as char);
                assert forall|i: int| 0 <= i < n - 1 implies #[trigger] x[i] == y[i] by {
                    assert(b[p + (1 + i)] == c[q + (1 + i)]);
                }
                assert(x =~= y);
            }
        } else {
            same_subrange(b, p, c, q, n);
        }
    }
}

// ── Tokens one after the other ──────────────────────────────────────────────

/// A token starts at `s` and ends at `e`.
pub open spec fn begins(b: Seq<u8>, tok: TokenView, s: int, e: int) -> bool {
    &&& 0 <= s < e <= b.len()
    &&& !blank_byte(b[s])
    &&& if comment_at(b, s) {
        tok == TokenView::Comment(text_in(b, s, e)) && e == line_end(b, s)
    } else {
        (tok, e) == token_at(b, s) && !(b[s] == COMMA && is_separator(b, s + 1))
    }
}

pub(crate) proof fn next_begins(b: Seq<u8>, p: int)
    requires
        0 <= p <= b.len(),
    ensures
        next_token_at(b, p, true) matches Some((tok, s, e)) ==> begins(b, tok, s, e),
    decreases b.len() - p,
{
    next_token_bounds(b, p, true);
    run_end_bounds(b, p, |c: u8| blank_byte(c));
    let q = blank_end(b, p);
    if !comment_at(b, q) && q < b.len() && b[q] == COMMA && is_separator(b, q + 1) {
        next_begins(b, q + 1);
    }
}

/// The token is the last one, and a string that is not closed.
pub open spec fn left_open(b: Seq<u8>, t: Seq<SpannedTokenView>, i: int) -> bool {
    i == t.len() - 1 && t[i].token is Str && !string_closed(b, t[i].span.start as int + 1)
}

/// The token `i` is the next one behind `p`; a string that is not closed may be cut
/// short.
pub open spec fn comes_next(b: Seq<u8>, p: int, t: Seq<SpannedTokenView>, i: int) -> bool {
    &&& next_token_at(b, p, true) matches Some((tok, s, e))
    &&& tok == t[i].token && s == t[i].span.start
    &&& e == t[i].span.end || left_open(b, t, i)
}

/// Each token is the next one behind the one before it.
pub open spec fn chained(b: Seq<u8>, p: int, t: Seq<SpannedTokenView>) -> bool {
    &&& t.len() > 0 ==> comes_next(b, p, t, 0)
    &&& forall|i: int| 0 < i < t.len() ==> #[trigger] comes_next(b, t[i - 1].span.end as int, t, i)
}

pub(crate) proof fn tokens_are_chained(b: Seq<u8>, p: int)
    requires
        b.len() <= u32::MAX,
        0 <= p <= b.len(),
    ensures
        chained(b, p, tokens_from(b, p, true)),
    decreases b.len() - p,
{
    next_token_bounds(b, p, true);
    if let Some((tok, s, e)) = next_token_at(b, p, true) {
        tokens_are_chained(b, e);
        let t = tokens_from(b, p, true);
        let rest = tokens_from(b, e, true);
        assert(forall|i: int| 0 < i < t.len() ==> t[i] == rest[i - 1]);
        assert forall|i: int| 0 < i < t.len() implies #[trigger] comes_next(
            b,
            t[i - 1].span.end as int,
            t,
            i,
        ) by {
            if i == 1 {
                assert(comes_next(b, e, rest, 0));
            } else {
                assert(comes_next(b, rest[i - 2].span.end as int, rest, i - 1));
            }
        }
    }
}

pub(crate) proof fn token_begins(b: Seq<u8>, t: Seq<SpannedTokenView>, i: int)
    requires
        lexed(b, t),
        chained(b, 0, t),
        0 <= i < t.len(),
    ensures
        left_open(b, t, i) ==> b[t[i].span.start as int] == DQUOTE,
        !left_open(b, t, i) ==> begins(
            b,
            t[i].token,
            t[i].span.start as int,
            t[i].span.end as int,
        ),
{
    if i == 0 {
        next_begins(b, 0);
    } else {
        assert(comes_next(b, t[i - 1].span.end as int, t, i));
        assert(span_on_text(b, t[i - 1].span));
        next_begins(b, t[i - 1].span.end as int);
    }
}

// ── The bytes of a laid text ────────────────────────────────────────────────

/// The byte offset of a character.
pub open spec fn off(text: Seq<char>, k: int) -> int {
    encode_utf8(text.take(k)).len() as int
}

pub(crate) proof fn bytes_between(text: Seq<char>, i: int, j: int)
    requires
        0 <= i <= j <= text.len(),
    ensures
        0 <= off(text, i),
        off(text, j) == off(text, i) + encode_utf8(text.subrange(i, j)).len(),
        off(text, j) <= encode_utf8(text).len(),
        encode_utf8(text).subrange(off(text, i), off(text, j)) == encode_utf8(text.subrange(i, j)),
        text_in(encode_utf8(text), off(text, i), off(text, j)) == text.subrange(i, j),
{
    let s = text.subrange(i, j);
    let x = encode_utf8(text.take(i));
    let y = encode_utf8(s);
    let z = encode_utf8(text.skip(j));
    encode_concat(text.take(i), s);
    assert(text.take(i) + s =~= text.take(j));
    encode_concat(text.take(j), text.skip(j));
    assert(text.take(j) + text.skip(j) =~= text);
    assert((x + y + z).subrange(x.len() as int, (x + y).len() as int) =~= y);
    encode_utf8_decode_utf8(s);
}

pub(crate) proof fn ends_of_bytes(text: Seq<char>)
    ensures
        off(text, 0) == 0,
        off(text, text.len() as int) == encode_utf8(text).len(),
{
    assert(text.take(0) =~= Seq::<char>::empty());
    assert(encode_utf8(text.take(0)) =~= Seq::<u8>::empty());
    assert(text.take(text.len() as int) =~= text);
}

proof fn gap_is_bytes(text: Seq<char>, i: int, j: int)
    requires
        0 <= i <= j <= text.len(),
        forall|k: int| i <= k < j ==> (#[trigger] text[k] == ' ' || text[k] == '\n'),
    ensures
        off(text, j) == off(text, i) + (j - i),
        off(text, j) <= encode_utf8(text).len(),
        forall|k: int|
            off(text, i) <= k < off(text, j) ==> blank_byte(#[trigger] encode_utf8(text)[k]),
{
    bytes_between(text, i, j);
    let s = text.subrange(i, j);
    assert(forall|k: int| 0 <= k < s.len() ==> #[trigger] s[k] == text[i + k]);
    is_ascii_chars_encode_utf8(s);
    let b = encode_utf8(text);
    assert forall|k: int| off(text, i) <= k < off(text, j) implies blank_byte(#[trigger] b[k]) by {
        let m = k - off(text, i);
        assert(b.subrange(off(text, i), off(text, j))[m] == b[k]);
        assert(s[m] as u8 == encode_utf8(s)[m]);
    }
}

/// A character of one byte.
pub(crate) proof fn break_is_a_byte(text: Seq<char>, k: int)
    requires
        0 <= k < text.len(),
        text[k] == ' ' || text[k] == '\n',
    ensures
        off(text, k + 1) == off(text, k) + 1,
        off(text, k) < encode_utf8(text).len(),
        encode_utf8(text)[off(text, k)] == text[k] as u8,
{
    bytes_between(text, k, k + 1);
    let s = text.subrange(k, k + 1);
    assert(s =~= seq![text[k]]);
    is_ascii_chars_encode_utf8(s);
    let b = encode_utf8(text);
    assert(b.subrange(off(text, k), off(text, k + 1))[0] == b[off(text, k)]);
    assert(s[0] as u8 == encode_utf8(s)[0]);
}

proof fn words_in_order(text: Seq<char>, ws: Seq<Word>, at: Seq<int>, i: int, j: int)
    requires
        set_at(text, ws, at, true),
        0 <= i < j < ws.len(),
    ensures
        word_end(ws, at, i) <= at[j],
    decreases j - i,
{
    assert(follows(text, ws, at, j, true));
    if i < j - 1 {
        words_in_order(text, ws, at, i, j - 1);
    }
}

// ── Reading a laid text ─────────────────────────────────────────────────────

/// The tokens of a text, as words.
pub open spec fn all_words(b: Seq<u8>, t: Seq<SpannedTokenView>) -> Seq<Word> {
    words(b, t, 0, t.len() as int)
}

/// The tokens of one text are laid out in another, which can be read again.
pub open spec fn copied(b: Seq<u8>, t: Seq<SpannedTokenView>, core: Seq<char>, at: Seq<int>) -> bool {
    &&& b.len() <= u32::MAX
    &&& lexed(b, t)
    &&& chained(b, 0, t)
    &&& laid_at(core, all_words(b, t), at, true)
    &&& t.len() > 0 ==> !is_prefix(t.last().token)
    &&& is_shebang(encode_utf8(core.push('\n')), 0) ==> t.len() > 0 && t[0].token is Comment
}

/// Where the gap before the `i`-th word starts.
pub open spec fn gap_start(b: Seq<u8>, t: Seq<SpannedTokenView>, at: Seq<int>, i: int) -> int {
    if i == 0 {
        0
    } else {
        word_end(all_words(b, t), at, i - 1)
    }
}

/// Where the gap before the `i`-th word ends.
pub open spec fn gap_end(t: Seq<SpannedTokenView>, core: Seq<char>, at: Seq<int>, i: int) -> int {
    if i < t.len() {
        at[i]
    } else {
        core.len() as int
    }
}

/// The gap before the `i`-th word is the one of the source.
pub open spec fn fixed(b: Seq<u8>, t: Seq<SpannedTokenView>, i: int) -> bool {
    0 < i < t.len() && glued(b, t, i)
}

/// What stands before a word is a gap: blanks and line breaks, unless it is fixed.
pub(crate) proof fn gap_before_word(
    b: Seq<u8>,
    t: Seq<SpannedTokenView>,
    core: Seq<char>,
    at: Seq<int>,
    i: int,
)
    requires
        copied(b, t, core, at),
        0 <= i <= t.len(),
    ensures
        0 <= gap_start(b, t, at, i) <= gap_end(t, core, at, i) <= core.len(),
        !fixed(b, t, i) && !(i < t.len() && tailed(b, t, i)) ==> plain_gap(
            core.push('\n'),
            gap_start(b, t, at, i),
            gap_end(t, core, at, i),
        ),
{
    let ws = all_words(b, t);
    if i < t.len() {
        assert(stands(core, ws[i], at[i]));
    }
    if i > 0 {
        assert(stands(core, ws[i - 1], at[i - 1]));
    }
    if 0 < i < t.len() {
        assert(follows(core, ws, at, i, true));
        if !fixed(b, t, i) && !tailed(b, t, i) {
            assert forall|k: int|
                gap_start(b, t, at, i) <= k < gap_end(t, core, at, i) implies (#[trigger] core.push(
                '\n',
            )[k] == ' ' || core.push('\n')[k] == '\n') by {
                assert(core.push('\n')[k] == core[k]);
            }
        }
    }
}

/// A text that starts with characters of one byte takes at least as many bytes.
pub(crate) proof fn bytes_of_start(s: Seq<char>, n: int)
    requires
        0 <= n <= s.len(),
        forall|k: int| 0 <= k < n ==> ('\0' <= #[trigger] s[k] <= '\x7F'),
    ensures
        encode_utf8(s).len() >= n,
{
    let x = s.take(n);
    assert(forall|k: int| 0 <= k < n ==> #[trigger] x[k] == s[k]);
    is_ascii_chars_encode_utf8(x);
    encode_concat(x, s.skip(n));
    assert(x + s.skip(n) =~= s);
}

/// The bytes of a token, as it has to come out, are the first bytes of the token.
pub(crate) proof fn token_bytes(b: Seq<u8>, t: Seq<SpannedTokenView>, i: int)
    requires
        lexed(b, t),
        chained(b, 0, t),
        0 <= i < t.len(),
    ensures
        ({
            let w = encode_utf8(token_text(b, t[i]));
            let s = t[i].span.start as int;
            let e = t[i].span.end as int;
            &&& 1 <= w.len() <= e - s
            &&& !(t[i].token is Comment) ==> w.len() == e - s
            &&& is_shebang(b, s) ==> w.len() >= 2
            &&& w == b.subrange(s, s + w.len())
        }),
{
    let s = t[i].span.start as int;
    let e = t[i].span.end as int;
    let x = text_in(b, s, e);
    token_begins(b, t, i);
    assert(span_on_text(b, t[i].span) && spelled(b, t[i]));
    valid_between(b, s, e);
    decode_utf8_encode_utf8(b.subrange(s, e));
    if let TokenView::Comment(text) = t[i].token {
        let w = trimmed_end(x);
        trimmed_and_blanks(x);
        let n = w.len() as int;
        assert(comment_at(b, s));
        ascii_text(b, s);
        boundary_after_ascii(b, s);
        text_splits(b, s, s + 1, e);
        assert(x[0] == b[s] as char);
        assert(n >= 1);
        assert(w[0] == x.take(n)[0]);
        bytes_of_start(w, 1);
        if is_shebang(b, s) {
            run_end_bounds(b, s, |c: u8| c != LF);
            assert(e >= 2) by {
                if e < 2 {
                    assert(b[e] == BANG);
                }
            }
            ascii_text(b, s + 1);
            boundary_after_ascii(b, s + 1);
            text_splits(b, s + 1, s + 2, e);
            assert(x[1] == b[s + 1] as char);
            assert(n >= 2);
            assert(w[1] == x.take(n)[1]);
            bytes_of_start(w, 2);
        }
        encode_concat(w, x.skip(n));
        assert(w + x.skip(n) =~= x);
        let m = encode_utf8(w).len() as int;
        assert(b.subrange(s, e).subrange(0, m) =~= b.subrange(s, s + m));
        assert((encode_utf8(w) + encode_utf8(x.skip(n))).subrange(0, m) =~= encode_utf8(w));
    }
}

/// A word has the bytes of its token.
pub(crate) proof fn word_stands(b: Seq<u8>, t: Seq<SpannedTokenView>, core: Seq<char>, at: Seq<int>, i: int)
    requires
        lexed(b, t),
        chained(b, 0, t),
        laid_at(core, all_words(b, t), at, true),
        0 <= i < t.len(),
    ensures
        ({
            let text = core.push('\n');
            let c = encode_utf8(text);
            let m = encode_utf8(token_text(b, t[i])).len() as int;
            let p = off(text, at[i]);
            let q = off(text, word_end(all_words(b, t), at, i));
            &&& 0 <= p && q == p + m && q < c.len()
            &&& same_bytes(b, t[i].span.start as int, c, p, m)
            &&& text_in(c, p, q) == token_text(b, t[i])
        }),
{
    let text = core.push('\n');
    let c = encode_utf8(text);
    let ws = all_words(b, t);
    let w = ws[i].text;
    let j = at[i];
    let e = word_end(ws, at, i);
    token_bytes(b, t, i);
    assert(stands(core, ws[i], j));
    assert(text.subrange(j, e) =~= core.subrange(j, e));
    bytes_between(text, j, e);
    break_is_a_byte(text, core.len() as int);
    bytes_between(text, e, core.len() as int);
    let s = t[i].span.start as int;
    let m = encode_utf8(w).len() as int;
    let p = off(text, j);
    let x = c.subrange(p, p + m);
    let y = b.subrange(s, s + m);
    assert(x == y);
    assert forall|k: int| 0 <= k < m implies #[trigger] b[s + k] == c[p + k] by {
        assert(x[k] == y[k]);
    }
}

/// A word has the bytes of its token.
proof fn word_bytes(b: Seq<u8>, t: Seq<SpannedTokenView>, core: Seq<char>, at: Seq<int>, i: int)
    requires
        copied(b, t, core, at),
        0 <= i < t.len(),
    ensures
        ({
            let text = core.push('\n');
            let c = encode_utf8(text);
            let m = encode_utf8(token_text(b, t[i])).len() as int;
            let p = off(text, at[i]);
            let q = off(text, word_end(all_words(b, t), at, i));
            &&& 0 <= p && q == p + m && q < c.len()
            &&& same_bytes(b, t[i].span.start as int, c, p, m)
            &&& text_in(c, p, q) == token_text(b, t[i])
        }),
{
    word_stands(b, t, core, at, i);
}

/// A fixed gap has the bytes of the source.
pub(crate) proof fn fixed_gap_bytes(
    b: Seq<u8>,
    t: Seq<SpannedTokenView>,
    core: Seq<char>,
    at: Seq<int>,
    i: int,
)
    requires
        lexed(b, t),
        chained(b, 0, t),
        laid_at(core, all_words(b, t), at, true),
        fixed(b, t, i),
    ensures
        ({
            let text = core.push('\n');
            let m = text_end(b, t[i - 1]);
            let p = off(text, gap_start(b, t, at, i));
            let n = t[i].span.start - m;
            &&& n >= 0
            &&& t[i - 1].span.start < m <= t[i - 1].span.end
            &&& 0 <= p
            &&& off(text, at[i]) == p + n
            &&& same_bytes(b, m, encode_utf8(text), p, n)
            &&& n == 0 ==> at[i] == gap_start(b, t, at, i)
        }),
{
    let text = core.push('\n');
    let c = encode_utf8(text);
    let ws = all_words(b, t);
    let e = word_end(ws, at, i - 1);
    let m = text_end(b, t[i - 1]);
    let k = t[i].span.start as int;
    token_bytes(b, t, i - 1);
    token_text_splits(b, t, i - 1);
    assert(span_on_text(b, t[i].span) && span_on_text(b, t[i - 1].span));
    assert(t[i - 1].span.end <= t[i].span.start);
    assert(stands(core, ws[i], at[i]));
    assert(stands(core, ws[i - 1], at[i - 1]));
    assert(follows(core, ws, at, i, true));
    let g = text_in(b, m, k);
    assert(ws[i].glue == Some(g));
    valid_between(b, m, k);
    decode_utf8_encode_utf8(b.subrange(m, k));
    assert(text.subrange(e, at[i]) =~= core.subrange(e, at[i]));
    bytes_between(text, e, at[i]);
    let p = off(text, e);
    let x = c.subrange(p, off(text, at[i]));
    let y = b.subrange(m, k);
    assert(x == y);
    assert forall|j: int| 0 <= j < k - m implies #[trigger] b[m + j] == c[p + j] by {
        assert(x[j] == y[j]);
    }
    if m == k {
        assert(b.subrange(m, k) =~= Seq::<u8>::empty());
        assert(g.len() == 0);
        assert(core.subrange(e, at[i]).len() == 0);
    }
}

/// What lies before a token is passed over alike where the bytes are the same.
proof fn gap_is_local(b: Seq<u8>, p: int, c: Seq<u8>, q: int, k: int)
    requires
        0 < p <= k < b.len(),
        0 < q,
        next_token_at(b, p, true) matches Some((tok, s, e)) && s == k,
        same_bytes(b, p, c, q, k - p + 1),
    ensures
        next_token_at(c, q, true) == next_token_at(c, q + (k - p), true),
    decreases k - p,
{
    let f = |x: u8| blank_byte(x);
    run_end_bounds(b, p, f);
    let x = blank_end(b, p);
    next_token_bounds(b, p, true);
    next_begins(b, p);
    let y = q + (x - p);
    if !comment_at(b, x) && x < b.len() && b[x] == COMMA && is_separator(b, x + 1) {
        next_token_bounds(b, x + 1, true);
        assert(x + 1 <= k);
    }
    assert(x <= k);
    assert(same_bytes(b, p, c, q, x - p + 1));
    run_is_local(b, p, c, q, x - p, f);
    assert(blank_end(c, q) == y);
    assert(b[p + (x - p)] == c[q + (x - p)]);
    if x == k {
        assert(blank_end(c, y) == y);
    } else {
        assert(b[p + (x + 1 - p)] == c[q + (x + 1 - p)]);
        same_bytes_from(b, p, c, q, k - p + 1, x + 1 - p);
        gap_is_local(b, x + 1, c, y + 1, k);
    }
}

/// Where the search for the `i`-th word may start: in the gap before it, with blanks
/// and line breaks ahead, or, where the gap is fixed, behind the token before it.
pub open spec fn starts_from(
    b: Seq<u8>,
    t: Seq<SpannedTokenView>,
    core: Seq<char>,
    at: Seq<int>,
    i: int,
    from: int,
) -> bool {
    let text = core.push('\n');
    let p = off(text, gap_start(b, t, at, i));
    if fixed(b, t, i) {
        from == p + (t[i - 1].span.end - text_end(b, t[i - 1]))
    } else {
        exists|k: int| #[trigger]
            plain_from(text, gap_start(b, t, at, i), gap_end(t, core, at, i), k) && from == off(
                text,
                k,
            )
    }
}

/// From the `k`-th character on, the gap is made of blanks and line breaks.
pub open spec fn plain_from(text: Seq<char>, i: int, j: int, k: int) -> bool {
    i <= k <= j && plain_gap(text, k, j)
}

/// The blanks before a place are passed over.
pub(crate) proof fn blanks_are_passed(c: Seq<u8>, from: int, p: int)
    requires
        0 <= from <= p <= c.len(),
        forall|k: int| from <= k < p ==> blank_byte(#[trigger] c[k]),
        p < c.len() ==> !blank_byte(c[p]),
    ensures
        blank_end(c, from) == p,
{
    run_ends_at(c, from, p, |x: u8| blank_byte(x));
}

/// A word does not start with a blank.
proof fn word_starts(b: Seq<u8>, t: Seq<SpannedTokenView>, core: Seq<char>, at: Seq<int>, i: int)
    requires
        copied(b, t, core, at),
        0 <= i < t.len(),
    ensures
        ({
            let c = encode_utf8(core.push('\n'));
            let p = off(core.push('\n'), at[i]);
            &&& 0 <= p < c.len()
            &&& t[i].span.start < b.len()
            &&& c[p] == b[t[i].span.start as int]
            &&& !blank_byte(c[p])
            &&& blank_end(c, p) == p
        }),
{
    let c = encode_utf8(core.push('\n'));
    let p = off(core.push('\n'), at[i]);
    word_bytes(b, t, core, at, i);
    token_bytes(b, t, i);
    token_begins(b, t, i);
    assert(b[t[i].span.start + 0] == c[p + 0]);
}

#[verifier::spinoff_prover]
#[verifier::rlimit(30)]
proof fn fixed_gap_is_passed(
    b: Seq<u8>,
    t: Seq<SpannedTokenView>,
    core: Seq<char>,
    at: Seq<int>,
    i: int,
    from: int,
)
    requires
        copied(b, t, core, at),
        fixed(b, t, i),
        starts_from(b, t, core, at, i, from),
    ensures
        ({
            let c = encode_utf8(core.push('\n'));
            let p = off(core.push('\n'), at[i]);
            &&& 0 <= from <= p
            &&& next_token_at(c, from, true) == next_token_at(c, p, true)
        }),
{
    let text = core.push('\n');
    let c = encode_utf8(text);
    let p = off(text, at[i]);
    let s = t[i].span.start as int;
    let m = text_end(b, t[i - 1]);
    let e = t[i - 1].span.end as int;
    let g = off(text, gap_start(b, t, at, i));
    word_starts(b, t, core, at, i);
    fixed_gap_bytes(b, t, core, at, i);
    assert(comes_next(b, e, t, i));
    assert(e <= s);
    assert(0 < g) by {
        word_bytes(b, t, core, at, i - 1);
        token_bytes(b, t, i - 1);
    }
    assert(!left_open(b, t, i - 1));
    assert(same_bytes(b, e, c, from, s - e + 1)) by {
        assert forall|k: int| 0 <= k < s - e + 1 implies #[trigger] b[e + k] == c[from + k] by {
            if k < s - e {
                assert(b[m + (e - m + k)] == c[g + (e - m + k)]);
            }
        }
    }
    gap_is_local(b, e, c, from, s);
}

/// The search for a word passes over the gap before it.
proof fn gap_is_passed(
    b: Seq<u8>,
    t: Seq<SpannedTokenView>,
    core: Seq<char>,
    at: Seq<int>,
    i: int,
    from: int,
)
    requires
        copied(b, t, core, at),
        0 <= i < t.len(),
        starts_from(b, t, core, at, i, from),
    ensures
        ({
            let c = encode_utf8(core.push('\n'));
            let p = off(core.push('\n'), at[i]);
            &&& 0 <= from <= p < c.len()
            &&& blank_end(c, p) == p
            &&& next_token_at(c, from, true) == next_token_at(c, p, true)
        }),
{
    let text = core.push('\n');
    let c = encode_utf8(text);
    word_starts(b, t, core, at, i);
    if fixed(b, t, i) {
        fixed_gap_is_passed(b, t, core, at, i, from);
    } else {
        gap_before_word(b, t, core, at, i);
        let k = choose|k: int| #[trigger]
            plain_from(text, gap_start(b, t, at, i), at[i], k) && from == off(text, k);
        bytes_between(text, 0, k);
        gap_is_bytes(text, k, at[i]);
        blanks_are_passed(c, from, off(text, at[i]));
    }
}

/// The first line break between two offsets, with blanks before it.
proof fn first_break(text: Seq<char>, i: int, j: int) -> (m: int)
    requires
        breaks(text, i, j),
        forall|k: int| i <= k < j ==> (#[trigger] text[k] == ' ' || text[k] == '\n'),
    ensures
        i <= m < j,
        text[m] == '\n',
        forall|k: int| i <= k < m ==> #[trigger] text[k] == ' ',
    decreases j - i,
{
    if text[i] == '\n' {
        i
    } else {
        let k = choose|k: int| i <= k < j && #[trigger] text[k] == '\n';
        assert(i + 1 <= k);
        let m = first_break(text, i + 1, j);
        m
    }
}

proof fn trimmed_again(w: Seq<char>, n: int)
    requires
        w.len() > 0 ==> !is_white(w.last()),
        n >= 0,
    ensures
        trimmed_end(w + Seq::new(n as nat, |k: int| ' ')) == w,
    decreases n,
{
    let s = w + Seq::new(n as nat, |k: int| ' ');
    if n == 0 {
        assert(s =~= w);
    } else {
        assert(s.drop_last() =~= w + Seq::new((n - 1) as nat, |k: int| ' '));
        trimmed_again(w, n - 1);
    }
}

/// A token of one text comes again in another.
pub open spec fn again(b: Seq<u8>, t: SpannedTokenView, c: Seq<u8>, tok: TokenView, s: int, e: int) -> bool {
    match t.token {
        TokenView::Comment(_) => tok matches TokenView::Comment(x) && token_text(b, t)
            == trimmed_end(x),
        _ => tok == t.token && token_text(b, t) == text_in(c, s, e),
    }
}

/// The next token behind `from` is the `i`-th token again.
pub open spec fn reread(
    b: Seq<u8>,
    t: Seq<SpannedTokenView>,
    core: Seq<char>,
    at: Seq<int>,
    i: int,
    from: int,
) -> bool {
    let text = core.push('\n');
    let c = encode_utf8(text);
    &&& next_token_at(c, from, true) matches Some((tok, s, e))
    &&& again(b, t[i], c, tok, s, e)
    &&& starts_from(b, t, core, at, i + 1, e)
    &&& s == off(text, at[i])
    &&& if t[i].token is Comment {
        exact_end(b, t, i + 1) ==> e == s + (t[i].span.end - t[i].span.start)
    } else {
        e == off(text, word_end(all_words(b, t), at, i))
    }
}

/// A comment before the `i`-th word ends where it ends in the source.
pub open spec fn exact_end(b: Seq<u8>, t: Seq<SpannedTokenView>, i: int) -> bool {
    fixed(b, t, i) || i < t.len() && tailed(b, t, i)
}

#[verifier::spinoff_prover]
proof fn comment_is_reread(
    b: Seq<u8>,
    t: Seq<SpannedTokenView>,
    core: Seq<char>,
    at: Seq<int>,
    i: int,
    from: int,
)
    requires
        copied(b, t, core, at),
        0 <= i < t.len(),
        t[i].token is Comment,
        starts_from(b, t, core, at, i, from),
    ensures
        reread(b, t, core, at, i, from),
{
    let text = core.push('\n');
    let c = encode_utf8(text);
    let ws = all_words(b, t);
    let p = off(text, at[i]);
    let s = t[i].span.start as int;
    gap_is_passed(b, t, core, at, i, from);
    word_bytes(b, t, core, at, i);
    token_bytes(b, t, i);
    token_begins(b, t, i);
    assert(stands(core, ws[i], at[i]));
    assert(b[s + 0] == c[p + 0]);
    assert(comment_at(b, s));
    if is_shebang(b, s) {
        assert(i == 0);
        ends_of_bytes(text);
        assert(b[s + 1] == c[p + 1]);
    }
    assert(comment_at(c, p));
    if fixed(b, t, i + 1) {
        comment_before_fixed_gap(b, t, core, at, i);
    } else if i + 1 < t.len() && tailed(b, t, i + 1) {
        comment_before_tail(b, t, core, at, i);
    } else {
        comment_before_gap(b, t, core, at, i);
    }
}

/// The blanks behind a comment that is kept as it stands, and the line break.
proof fn tail_bytes(
    b: Seq<u8>,
    t: Seq<SpannedTokenView>,
    core: Seq<char>,
    at: Seq<int>,
    i: int,
) -> (k: int)
    requires
        lexed(b, t),
        chained(b, 0, t),
        laid_at(core, all_words(b, t), at, true),
        0 <= i < t.len() - 1,
        !fixed(b, t, i + 1),
        tailed(b, t, i + 1),
    ensures
        ({
            let text = core.push('\n');
            let end = word_end(all_words(b, t), at, i);
            let m = text_end(b, t[i]);
            let n = t[i].span.end - m;
            &&& t[i].span.start < m
            &&& n >= 0
            &&& 0 <= end <= k < at[i + 1] <= core.len()
            &&& text[k] == '\n'
            &&& plain_gap(text, k, at[i + 1])
            &&& 0 <= off(text, end)
            &&& off(text, k) == off(text, end) + n
            &&& same_bytes(b, m, encode_utf8(text), off(text, end), n)
        }),
{
    let text = core.push('\n');
    let c = encode_utf8(text);
    let ws = all_words(b, t);
    let e = t[i].span.end as int;
    let m = text_end(b, t[i]);
    let end = word_end(ws, at, i);
    let tail = text_in(b, m, e);
    token_bytes(b, t, i);
    token_text_splits(b, t, i);
    assert(span_on_text(b, t[i].span));
    assert(stands(core, ws[i], at[i]));
    assert(stands(core, ws[i + 1], at[i + 1]));
    assert(follows(core, ws, at, i + 1, true));
    let k = end + tail.len();
    assert(core.subrange(end, k) == tail);
    assert(text.subrange(end, k) =~= core.subrange(end, k));
    bytes_between(text, end, k);
    valid_between(b, m, e);
    decode_utf8_encode_utf8(b.subrange(m, e));
    let q = off(text, end);
    let x = c.subrange(q, off(text, k));
    let y = b.subrange(m, e);
    assert(x == y);
    assert forall|j: int| 0 <= j < e - m implies #[trigger] b[m + j] == c[q + j] by {
        assert(x[j] == y[j]);
    }
    assert forall|j: int| k <= j < at[i + 1] implies (#[trigger] text[j] == ' ' || text[j] == '\n') by {
        assert(text[j] == core[j]);
    }
    k
}

/// A comment that is kept as it stands ends where it ends in the source.
proof fn comment_before_tail(
    b: Seq<u8>,
    t: Seq<SpannedTokenView>,
    core: Seq<char>,
    at: Seq<int>,
    i: int,
)
    requires
        copied(b, t, core, at),
        0 <= i < t.len() - 1,
        t[i].token is Comment,
        comment_at(encode_utf8(core.push('\n')), off(core.push('\n'), at[i])),
        !fixed(b, t, i + 1),
        tailed(b, t, i + 1),
    ensures
        ({
            let c = encode_utf8(core.push('\n'));
            let p = off(core.push('\n'), at[i]);
            let e = line_end(c, p);
            &&& again(b, t[i], c, TokenView::Comment(text_in(c, p, e)), p, e)
            &&& starts_from(b, t, core, at, i + 1, e)
            &&& e == p + (t[i].span.end - t[i].span.start)
        }),
{
    let text = core.push('\n');
    let c = encode_utf8(text);
    let p = off(text, at[i]);
    let s = t[i].span.start as int;
    let e = t[i].span.end as int;
    let m = text_end(b, t[i]);
    let end = word_end(all_words(b, t), at, i);
    word_bytes(b, t, core, at, i);
    token_bytes(b, t, i);
    token_begins(b, t, i);
    assert(spelled(b, t[i]));
    let k = tail_bytes(b, t, core, at, i);
    let q = off(text, end);
    break_is_a_byte(text, k);
    assert(same_bytes(b, s, c, p, e - s)) by {
        assert forall|j: int| 0 <= j < e - s implies #[trigger] b[s + j] == c[p + j] by {
            if s + j >= m {
                assert(b[m + (s + j - m)] == c[q + (s + j - m)]);
            }
        }
    }
    run_end_bounds(b, s, |z: u8| z != LF);
    assert forall|j: int| p <= j < p + (e - s) implies (|z: u8| z != LF)(#[trigger] c[j]) by {
        assert(b[s + (j - p)] == c[p + (j - p)]);
    }
    run_ends_at(c, p, p + (e - s), |z: u8| z != LF);
    same_subrange(b, s, c, p, e - s);
    assert(plain_from(text, gap_start(b, t, at, i + 1), gap_end(t, core, at, i + 1), k));
}

/// A comment ends where its line ends, in the source and in a fixed gap.
proof fn comment_before_fixed_gap(
    b: Seq<u8>,
    t: Seq<SpannedTokenView>,
    core: Seq<char>,
    at: Seq<int>,
    i: int,
)
    requires
        copied(b, t, core, at),
        0 <= i < t.len(),
        t[i].token is Comment,
        comment_at(encode_utf8(core.push('\n')), off(core.push('\n'), at[i])),
        fixed(b, t, i + 1),
    ensures
        ({
            let c = encode_utf8(core.push('\n'));
            let p = off(core.push('\n'), at[i]);
            let e = line_end(c, p);
            &&& again(b, t[i], c, TokenView::Comment(text_in(c, p, e)), p, e)
            &&& starts_from(b, t, core, at, i + 1, e)
            &&& e == p + (t[i].span.end - t[i].span.start)
        }),
{
    let text = core.push('\n');
    let c = encode_utf8(text);
    let p = off(text, at[i]);
    let s = t[i].span.start as int;
    let e = t[i].span.end as int;
    let m = text_end(b, t[i]);
    word_bytes(b, t, core, at, i);
    token_bytes(b, t, i);
    token_begins(b, t, i);
    fixed_gap_bytes(b, t, core, at, i + 1);
    assert(spelled(b, t[i]));
    assert(span_on_text(b, t[i + 1].span));
    assert(t[i].span.end <= t[i + 1].span.start);
    let q = off(text, word_end(all_words(b, t), at, i));
    run_end_bounds(b, s, |x: u8| x != LF);
    assert(b[e] == LF);
    word_bytes(b, t, core, at, i + 1);
    token_bytes(b, t, i + 1);
    token_begins(b, t, i + 1);
    assert(e < t[i + 1].span.start) by {
        assert(!blank_byte(b[t[i + 1].span.start as int]));
    }
    assert(same_bytes(b, s, c, p, e - s + 1)) by {
        assert forall|k: int| 0 <= k < e - s + 1 implies #[trigger] b[s + k] == c[p + k] by {
            if s + k >= m {
                assert(b[m + (s + k - m)] == c[q + (s + k - m)]);
            }
        }
    }
    run_is_local(b, s, c, p, e - s, |x: u8| x != LF);
    assert(same_bytes(b, s, c, p, e - s));
    same_subrange(b, s, c, p, e - s);
}

/// A comment ends with the line break that follows it.
#[verifier::spinoff_prover]
#[verifier::rlimit(30)]
proof fn comment_before_gap(
    b: Seq<u8>,
    t: Seq<SpannedTokenView>,
    core: Seq<char>,
    at: Seq<int>,
    i: int,
)
    requires
        copied(b, t, core, at),
        0 <= i < t.len(),
        t[i].token is Comment,
        comment_at(encode_utf8(core.push('\n')), off(core.push('\n'), at[i])),
        !fixed(b, t, i + 1),
        !(i + 1 < t.len() && tailed(b, t, i + 1)),
    ensures
        ({
            let c = encode_utf8(core.push('\n'));
            let p = off(core.push('\n'), at[i]);
            let e = line_end(c, p);
            &&& again(b, t[i], c, TokenView::Comment(text_in(c, p, e)), p, e)
            &&& starts_from(b, t, core, at, i + 1, e)
        }),
{
    let text = core.push('\n');
    let c = encode_utf8(text);
    let ws = all_words(b, t);
    let p = off(text, at[i]);
    let w = token_text(b, t[i]);
    let s = t[i].span.start as int;
    let end = word_end(ws, at, i);
    let len = encode_utf8(w).len() as int;
    gap_before_word(b, t, core, at, i + 1);
    word_bytes(b, t, core, at, i);
    token_bytes(b, t, i);
    token_begins(b, t, i);
    assert(stands(core, ws[i], at[i]));
    if i + 1 < t.len() {
        assert(follows(core, ws, at, i + 1, true));
        let k = choose|k: int| end <= k < at[i + 1] && #[trigger] core[k] == '\n';
        assert(text[k] == '\n');
        assert(breaks(text, end, at[i + 1]));
    } else {
        assert(text[core.len() as int] == '\n');
    }
    let m = if i + 1 < t.len() {
        first_break(text, end, at[i + 1])
    } else {
        core.len() as int
    };
    assert(end <= m <= gap_end(t, core, at, i + 1));
    assert(plain_from(text, end, gap_end(t, core, at, i + 1), m));
    let q = off(text, m);
    gap_is_bytes(text, end, m);
    break_is_a_byte(text, m);
    bytes_between(text, m, gap_end(t, core, at, i + 1));
    run_end_bounds(b, s, |x: u8| x != LF);
    assert forall|k: int| p <= k < q implies (|x: u8| x != LF)(#[trigger] c[k]) by {
        if k < p + len {
            assert(b[s + (k - p)] == c[p + (k - p)]);
        } else {
            let j = end + (k - (p + len));
            break_is_a_byte(text, j);
            gap_is_bytes(text, end, j);
        }
    }
    run_ends_at(c, p, q, |x: u8| x != LF);
    assert(line_end(c, p) == q);
    bytes_between(text, at[i], m);
    let x = text.subrange(at[i], m);
    let pad = Seq::new((m - end) as nat, |k: int| ' ');
    assert(x =~= w + pad) by {
        assert(core.subrange(at[i], end) == w);
        assert(forall|k: int| 0 <= k < w.len() ==> #[trigger] w[k] == core[at[i] + k]);
    }
    assert(spelled(b, t[i]));
    trimmed_and_blanks(text_in(b, s, t[i].span.end as int));
    trimmed_again(w, m - end);
}

/// The first byte of the word behind an atom, or of the gap before it, ends the atom.
#[verifier::spinoff_prover]
#[verifier::rlimit(30)]
proof fn atom_is_stopped(
    b: Seq<u8>,
    t: Seq<SpannedTokenView>,
    core: Seq<char>,
    at: Seq<int>,
    i: int,
)
    requires
        copied(b, t, core, at),
        0 <= i < t.len(),
        !(t[i].token is Comment),
        is_atom(b, t[i].span.start as int),
    ensures
        stops(
            encode_utf8(core.push('\n')),
            off(core.push('\n'), word_end(all_words(b, t), at, i)),
        ),
{
    let text = core.push('\n');
    let c = encode_utf8(text);
    let ws = all_words(b, t);
    let end = word_end(ws, at, i);
    let s = t[i].span.start as int;
    let e = t[i].span.end as int;
    let q = off(text, end);
    gap_before_word(b, t, core, at, i + 1);
    word_bytes(b, t, core, at, i);
    token_begins(b, t, i);
    if fixed(b, t, i + 1) && end < at[i + 1] {
        fixed_gap_bytes(b, t, core, at, i + 1);
        token_bytes(b, t, i);
        bytes_between(text, end, at[i + 1]);
        assert(stands(core, ws[i + 1], at[i + 1]));
        assert(gap_before(b, t, i + 1));
        if t[i + 1].span.start == e {
            gap_is_empty(text, end, at[i + 1]);
        }
        assert(b[e + 0] == c[q + 0]);
        assert(gap_byte(b[e]));
    } else if end < gap_end(t, core, at, i + 1) || i + 1 == t.len() {
        assert(stands(core, ws[i], at[i]));
        break_is_a_byte(text, end);
    } else {
        let j = i + 1;
        assert(follows(core, ws, at, j, true));
        word_bytes(b, t, core, at, j);
        token_bytes(b, t, j);
        token_begins(b, t, j);
        let r = t[j].span.start as int;
        assert(b[r + 0] == c[q + 0]);
        if !closes(t[j].token) {
            assert(t[i].span.end <= t[j].span.start);
            assert(!ws[j].apart);
            assert(!opens(t[i].token));
            assert(r == e);
            run_end_bounds(b, s + 1, |x: u8| !ws_byte(x) && !delim_byte(x));
        }
    }
}

/// Characters take bytes.
proof fn gap_is_empty(text: Seq<char>, i: int, j: int)
    requires
        0 <= i <= j <= text.len(),
        off(text, i) == off(text, j),
    ensures
        i == j,
{
    bytes_between(text, i, j);
    encode_utf8_decode_utf8(text.subrange(i, j));
    let nothing = Seq::<char>::empty();
    encode_utf8_decode_utf8(nothing);
    assert(encode_utf8(nothing) =~= Seq::<u8>::empty());
    assert(encode_utf8(text.subrange(i, j)) =~= Seq::<u8>::empty());
}

/// What stands behind a comma that unquotes: the form it belongs to.
proof fn unquoted_is_near(
    b: Seq<u8>,
    t: Seq<SpannedTokenView>,
    core: Seq<char>,
    at: Seq<int>,
    i: int,
)
    requires
        copied(b, t, core, at),
        0 <= i < t.len(),
        t[i].token is Unquote,
    ensures
        ({
            let c = encode_utf8(core.push('\n'));
            let q = off(core.push('\n'), word_end(all_words(b, t), at, i));
            0 <= q < c.len() && c[q] != AT && !ws_byte(c[q]) && !delim_byte(c[q])
        }),
{
    let text = core.push('\n');
    let c = encode_utf8(text);
    let ws = all_words(b, t);
    let s = t[i].span.start as int;
    let j = i + 1;
    assert(i != t.len() - 1);
    token_begins(b, t, i);
    assert(follows(core, ws, at, j, true));
    word_bytes(b, t, core, at, j);
    token_bytes(b, t, j);
    assert(comes_next(b, t[j - 1].span.end as int, t, j));
    assert(b[s] == COMMA);
    assert(blank_end(b, s + 1) == s + 1);
    assert(t[j].span.start == s + 1);
    if fixed(b, t, j) {
        fixed_gap_bytes(b, t, core, at, j);
        token_bytes(b, t, i);
    }
    assert(b[t[j].span.start + 0] == c[off(text, at[j]) + 0]);
}

proof fn token_is_reread(
    b: Seq<u8>,
    t: Seq<SpannedTokenView>,
    core: Seq<char>,
    at: Seq<int>,
    i: int,
    from: int,
)
    requires
        copied(b, t, core, at),
        0 <= i < t.len(),
        !(t[i].token is Comment),
        !left_open(b, t, i),
        starts_from(b, t, core, at, i, from),
    ensures
        reread(b, t, core, at, i, from),
{
    let text = core.push('\n');
    let c = encode_utf8(text);
    let ws = all_words(b, t);
    let p = off(text, at[i]);
    let s = t[i].span.start as int;
    let e = t[i].span.end as int;
    let end = word_end(ws, at, i);
    gap_is_passed(b, t, core, at, i, from);
    gap_before_word(b, t, core, at, i + 1);
    bytes_between(text, end, gap_end(t, core, at, i + 1));
    if fixed(b, t, i + 1) {
        fixed_gap_bytes(b, t, core, at, i + 1);
    }
    word_bytes(b, t, core, at, i);
    token_bytes(b, t, i);
    token_begins(b, t, i);
    assert(b[s + 0] == c[p + 0]);
    assert(!comment_at(b, s));
    if is_shebang(c, p) {
        if i > 0 {
            word_bytes(b, t, core, at, 0);
            token_bytes(b, t, 0);
            words_in_order(core, ws, at, 0, i);
            bytes_between(text, word_end(ws, at, 0), at[i]);
        }
        assert(false);
    }
    assert(!comment_at(c, p));
    if is_atom(b, s) {
        atom_is_stopped(b, t, core, at, i);
    }
    if b[s] == DQUOTE {
        string_ends(b, s + 1);
        if i + 1 < t.len() {
            assert(span_on_text(b, t[i + 1].span));
            assert(t[i].span.end <= t[i + 1].span.start);
        }
    }
    if b[s] == COMMA {
        if e == s + 1 {
            unquoted_is_near(b, t, core, at, i);
        } else {
            assert(b[s + 1] == c[p + 1]);
        }
    }
    token_is_local(b, s, c, p);
    if !fixed(b, t, i + 1) {
        assert(plain_from(text, end, gap_end(t, core, at, i + 1), end));
    }
    assert(next_token_at(c, from, true) == Some((t[i].token, p, p + (e - s))));
}

/// Two tokens are spelled alike; comments may differ in the blanks at their end.
pub open spec fn alike(b: Seq<u8>, x: SpannedTokenView, c: Seq<u8>, y: SpannedTokenView) -> bool {
    &&& x.token is Comment && y.token is Comment || x.token == y.token
    &&& token_text(b, x) == token_text(c, y)
}

/// The token `j` of one text is the token `j - i` of another.
pub open spec fn alike_at(
    b: Seq<u8>,
    t: Seq<SpannedTokenView>,
    c: Seq<u8>,
    u: Seq<SpannedTokenView>,
    i: int,
    j: int,
) -> bool {
    alike(b, t[j], c, u[j - i])
}

/// The token `j` of a laid text, counted from the `i`-th on, stands where its word
/// stands.
pub open spec fn set_as_laid(
    b: Seq<u8>,
    t: Seq<SpannedTokenView>,
    core: Seq<char>,
    at: Seq<int>,
    u: Seq<SpannedTokenView>,
    i: int,
    j: int,
) -> bool {
    let text = core.push('\n');
    &&& u[j - i].span.start == off(text, at[j])
    &&& if t[j].token is Comment {
        exact_end(b, t, j + 1) ==> u[j - i].span.end == off(text, at[j]) + (t[j].span.end
            - t[j].span.start)
    } else {
        u[j - i].span.end == off(text, word_end(all_words(b, t), at, j))
    }
}

/// The tokens of one text from the `i`-th on are those of another.
pub open spec fn all_alike(
    b: Seq<u8>,
    t: Seq<SpannedTokenView>,
    c: Seq<u8>,
    u: Seq<SpannedTokenView>,
    i: int,
) -> bool {
    &&& u.len() == t.len() - i
    &&& forall|j: int| i <= j < t.len() ==> #[trigger] alike_at(b, t, c, u, i, j)
}

/// An escape at the end of a text that goes on with line breaks only reaches the
/// end of a text that goes on with one.
proof fn escape_reaches_end(b: Seq<u8>, p: int, c: Seq<u8>, q: int, n: int)
    requires
        n >= 1,
        same_bytes(b, p, c, q, n),
        c.len() == q + n + 1,
        c[q + n] == LF,
        forall|k: int| p + n <= k < b.len() ==> #[trigger] b[k] == LF,
        escape_at(b, p).1 >= p + n,
    ensures
        q + n <= escape_at(c, q).1 <= c.len(),
{
    escape_bounds(c, q);
    escape_bounds(b, p);
    assert(b[p + 0] == c[q + 0]);
    let d = b[p];
    if n >= 2 {
        assert(b[p + 1] == c[q + 1]);
    }
    if n >= 3 {
        assert(b[p + 2] == c[q + 2]);
    }
    if d == 0x7a {
        let f = |x: u8| blank_byte(x);
        run_end_bounds(b, p + 1, f);
        assert forall|k: int| q + 1 <= k < c.len() implies f(#[trigger] c[k]) by {
            if k < q + n {
                assert(b[p + (k - q)] == c[q + (k - q)]);
            }
        }
        run_ends_at(c, q + 1, c.len() as int, f);
    } else if d == 0x75 {
        if n >= 2 && b[p + 1] == LBRACE {
            let f = |x: u8| x != RBRACE;
            run_end_bounds(b, p + 2, f);
            let e = brace_end(b, p + 2);
            if e < b.len() && e >= p + n {
                assert(b[e] == LF);
            }
            assert forall|k: int| q + 2 <= k < q + n - 1 implies f(#[trigger] c[k]) by {
                assert(b[p + (k - q)] == c[q + (k - q)]);
                assert(f(b[p + (k - q)]));
            }
            run_goes_on(c, q + 2, q + n - 1, f);
        } else if p + 1 < b.len() && n == 1 {
            assert(b[p + 1] == LF);
        }
    } else if digit_byte(d) {
        if n == 1 && p + 1 < b.len() {
            assert(b[p + 1] == LF);
        }
        if n == 2 && p + 2 < b.len() {
            assert(b[p + 2] == LF);
        }
    }
}

/// A run goes on at least as far as its bytes belong to it.
proof fn run_goes_on(c: Seq<u8>, q: int, r: int, f: spec_fn(u8) -> bool)
    requires
        0 <= q <= c.len(),
        r <= c.len(),
        forall|k: int| q <= k < r ==> f(#[trigger] c[k]),
    ensures
        run_end(c, q, f) >= r,
        run_end(c, q, f) >= q,
    decreases r - q,
{
    if q < r {
        assert(f(c[q]));
        run_goes_on(c, q + 1, r, f);
    } else {
        run_end_bounds(c, q, f);
    }
}

/// A string that is not closed stays so when the line breaks at its end make way for
/// a single one.
proof fn string_stays_open(b: Seq<u8>, p: int, c: Seq<u8>, q: int, n: int)
    requires
        n >= 0,
        same_bytes(b, p, c, q, n),
        c.len() == q + n + 1,
        c[q + n] == LF,
        forall|k: int| p + n <= k < b.len() ==> #[trigger] b[k] == LF,
        !string_closed(b, p),
    ensures
        !string_closed(c, q),
    decreases n,
{
    if n == 0 {
        assert(!string_closed(c, q + 1));
    } else {
        assert(b[p + 0] == c[q + 0]);
        if b[p] == BACKSLASH {
            if n == 1 {
                escape_bounds(c, q + 1);
                assert(escape_at(c, q + 1).1 == q + 2);
                assert(!string_closed(c, q + 2));
            } else {
                escape_bounds(b, p + 1);
                escape_bounds(c, q + 1);
                let e = escape_at(b, p + 1).1;
                same_bytes_from(b, p, c, q, n, 1);
                if e < p + n {
                    assert(same_bytes(b, p + 1, c, q + 1, e - (p + 1) + 1));
                    escape_is_local(b, p + 1, c, q + 1);
                    same_bytes_from(b, p, c, q, n, e - p);
                    string_stays_open(b, e, c, q + (e - p), n - (e - p));
                } else {
                    escape_reaches_end(b, p + 1, c, q + 1, n - 1);
                    nothing_closes(c, escape_at(c, q + 1).1);
                }
            }
        } else if b[p] < 0x80 {
            same_bytes_from(b, p, c, q, n, 1);
            string_stays_open(b, p + 1, c, q + 1, n - 1);
        } else {
            let w = char_width(b[p]);
            if w <= n {
                same_bytes_from(b, p, c, q, n, w);
                string_stays_open(b, p + w, c, q + w, n - w);
            } else {
                nothing_closes(c, char_end(c, q));
            }
        }
    }
}

/// A line break at the very end closes no string.
proof fn nothing_closes(c: Seq<u8>, q: int)
    requires
        0 <= q,
        c.len() - 1 <= q <= c.len(),
        c.len() > 0 ==> c.last() == LF,
    ensures
        !string_closed(c, q),
{
    if q < c.len() {
        assert(!string_closed(c, q + 1));
    }
}

/// A string that is not closed is read again up to the end of the text.
#[verifier::spinoff_prover]
#[verifier::rlimit(30)]
proof fn open_string_is_reread(
    b: Seq<u8>,
    t: Seq<SpannedTokenView>,
    core: Seq<char>,
    at: Seq<int>,
    from: int,
)
    requires
        copied(b, t, core, at),
        t.len() > 0,
        left_open(b, t, t.len() - 1),
        forall|k: int| t.last().span.end <= k < b.len() ==> #[trigger] b[k] == LF,
        starts_from(b, t, core, at, t.len() - 1, from),
    ensures
        ({
            let text = core.push('\n');
            let c = encode_utf8(text);
            &&& next_token_at(c, from, true) matches Some((tok, s, e))
            &&& tok is Str && e == c.len() && s < e - 1
            &&& s == off(text, at[t.len() - 1])
            &&& e - 1 == off(text, word_end(all_words(b, t), at, t.len() - 1))
            &&& text_in(c, s, e - 1) == token_text(b, t.last())
            &&& text_in(c, s, e) == token_text(b, t.last()).push('\n')
        }),
{
    let text = core.push('\n');
    let c = encode_utf8(text);
    let i = t.len() - 1;
    let ws = all_words(b, t);
    let p = off(text, at[i]);
    let s = t[i].span.start as int;
    let n = t[i].span.end - s;
    gap_is_passed(b, t, core, at, i, from);
    word_bytes(b, t, core, at, i);
    token_bytes(b, t, i);
    token_begins(b, t, i);
    ends_of_bytes(text);
    break_is_a_byte(text, core.len() as int);
    assert(b[s + 0] == c[p + 0]);
    same_bytes_from(b, s, c, p, n, 1);
    string_stays_open(b, s + 1, c, p + 1, n - 1);
    string_ends(c, p + 1);
    assert(stands(core, ws[i], at[i]));
    bytes_between(text, at[i], text.len() as int);
    assert(text.subrange(at[i], text.len() as int) =~= token_text(b, t[i]).push('\n'));
}

/// The last token as it would be if the string were cut before its last byte.
pub open spec fn cut_short(b: Seq<u8>, t: Seq<SpannedTokenView>, c: Seq<u8>, u: Seq<SpannedTokenView>) -> Seq<
    SpannedTokenView,
> {
    if t.len() > 0 && left_open(b, t, t.len() - 1) && u.len() > 0 {
        u.update(
            u.len() - 1,
            SpannedTokenView {
                token: t.last().token,
                span: Span { end: (c.len() - 1) as u32, ..u.last().span },
            },
        )
    } else {
        u
    }
}

/// The last token is a string that reaches the end of the text, where a line break
/// stands.
pub open spec fn ends_open(c: Seq<u8>, u: Seq<SpannedTokenView>) -> bool {
    &&& u.len() > 0
    &&& u.last().token is Str
    &&& u.last().span.start + 1 < u.last().span.end == c.len()
    &&& text_in(c, u.last().span.start as int, c.len() as int) == text_in(
        c,
        u.last().span.start as int,
        c.len() - 1,
    ).push('\n')
}

/// The token `i`, as it comes again.
pub open spec fn returned(
    b: Seq<u8>,
    t: Seq<SpannedTokenView>,
    c: Seq<u8>,
    i: int,
    tok: TokenView,
    s: int,
    e: int,
) -> SpannedTokenView {
    if left_open(b, t, i) {
        SpannedTokenView {
            token: t[i].token,
            span: Span { end: (c.len() - 1) as u32, ..span_at(c, s, e) },
        }
    } else {
        SpannedTokenView { token: tok, span: span_at(c, s, e) }
    }
}

/// The search for the `i`-th word finds its token.
proof fn next_is_reread(
    b: Seq<u8>,
    t: Seq<SpannedTokenView>,
    core: Seq<char>,
    at: Seq<int>,
    i: int,
    from: int,
)
    requires
        copied(b, t, core, at),
        encode_utf8(core.push('\n')).len() <= u32::MAX,
        t.len() > 0 && left_open(b, t, t.len() - 1) ==> forall|k: int|
            t.last().span.end <= k < b.len() ==> #[trigger] b[k] == LF,
        0 <= i < t.len(),
        starts_from(b, t, core, at, i, from),
    ensures
        ({
            let text = core.push('\n');
            let c = encode_utf8(text);
            &&& 0 <= from
            &&& next_token_at(c, from, true) matches Some((tok, s, e))
            &&& from <= s < e <= c.len()
            &&& if left_open(b, t, i) {
                &&& tok is Str && e == c.len() && s < e - 1
                &&& text_in(c, s, e) == text_in(c, s, e - 1).push('\n')
            } else {
                starts_from(b, t, core, at, i + 1, e)
            }
            &&& {
                let x = returned(b, t, c, i, tok, s, e);
                &&& alike(b, t[i], c, x)
                &&& x.span.start == off(text, at[i])
                &&& if t[i].token is Comment {
                    exact_end(b, t, i + 1) ==> x.span.end == off(text, at[i]) + (t[i].span.end
                        - t[i].span.start)
                } else {
                    x.span.end == off(text, word_end(all_words(b, t), at, i))
                }
            }
        }),
{
    if t[i].token is Comment {
        comment_is_reread(b, t, core, at, i, from);
    } else if left_open(b, t, i) {
        open_string_is_reread(b, t, core, at, from);
    } else {
        token_is_reread(b, t, core, at, i, from);
    }
    gap_is_passed(b, t, core, at, i, from);
    next_token_bounds(encode_utf8(core.push('\n')), from, true);
}

/// Behind the last word nothing is found.
proof fn nothing_more_is_reread(
    b: Seq<u8>,
    t: Seq<SpannedTokenView>,
    core: Seq<char>,
    at: Seq<int>,
    from: int,
)
    requires
        copied(b, t, core, at),
        starts_from(b, t, core, at, t.len() as int, from) || from == encode_utf8(
            core.push('\n'),
        ).len(),
    ensures
        0 <= from <= encode_utf8(core.push('\n')).len(),
        tokens_from(encode_utf8(core.push('\n')), from, true).len() == 0,
{
    let text = core.push('\n');
    let c = encode_utf8(text);
    gap_before_word(b, t, core, at, t.len() as int);
    bytes_between(text, 0, core.len() as int);
    ends_of_bytes(text);
    break_is_a_byte(text, core.len() as int);
    if from != c.len() {
        let k = choose|k: int| #[trigger]
            plain_from(text, gap_start(b, t, at, t.len() as int), core.len() as int, k) && from
                == off(text, k);
        assert(k == core.len());
    }
    blanks_are_passed(c, from, c.len() as int);
    assert(next_token_at(c, from, true) is None);
}

/// The tokens of a laid text are those it was laid from.
pub(crate) proof fn tokens_are_reread(
    b: Seq<u8>,
    t: Seq<SpannedTokenView>,
    core: Seq<char>,
    at: Seq<int>,
    i: int,
    from: int,
)
    requires
        copied(b, t, core, at),
        encode_utf8(core.push('\n')).len() <= u32::MAX,
        t.len() > 0 && left_open(b, t, t.len() - 1) ==> forall|k: int|
            t.last().span.end <= k < b.len() ==> #[trigger] b[k] == LF,
        0 <= i <= t.len(),
        starts_from(b, t, core, at, i, from) || i == t.len() && from == encode_utf8(
            core.push('\n'),
        ).len(),
    ensures
        ({
            let c = encode_utf8(core.push('\n'));
            let u = tokens_from(c, from, true);
            let x = cut_short(b, t, c, u);
            &&& all_alike(b, t, c, x, i)
            &&& forall|j: int| i <= j < t.len() ==> #[trigger] set_as_laid(b, t, core, at, x, i, j)
            &&& i < t.len() && left_open(b, t, t.len() - 1) ==> ends_open(c, u)
        }),
    decreases t.len() - i,
{
    let c = encode_utf8(core.push('\n'));
    let u = tokens_from(c, from, true);
    if i == t.len() {
        nothing_more_is_reread(b, t, core, at, from);
    } else {
        next_is_reread(b, t, core, at, i, from);
        let (tok, s, e) = next_token_at(c, from, true)->0;
        tokens_are_reread(b, t, core, at, i + 1, e);
        let rest = tokens_from(c, e, true);
        assert(u == seq![SpannedTokenView { token: tok, span: span_at(c, s, e) }] + rest);
        let x = cut_short(b, t, c, u);
        let y = cut_short(b, t, c, rest);
        assert(rest.len() == t.len() - i - 1);
        if rest.len() > 0 {
            assert(u.last() == rest.last());
        }
        assert(x[0] == returned(b, t, c, i, tok, s, e));
        assert forall|j: int| i <= j < t.len() implies #[trigger] alike_at(b, t, c, x, i, j) by {
            if j > i {
                assert(alike_at(b, t, c, y, i + 1, j));
                assert(x[j - i] == y[j - (i + 1)]);
            }
        }
        assert forall|j: int| i <= j < t.len() implies #[trigger] set_as_laid(
            b,
            t,
            core,
            at,
            x,
            i,
            j,
        ) by {
            if j > i {
                assert(set_as_laid(b, t, core, at, y, i + 1, j));
                assert(x[j - i] == y[j - (i + 1)]);
            }
        }
    }
}

// ── What is kept as it stands ───────────────────────────────────────────────

/// Tokens with fixed gaps between them have the bytes of the source.
pub(crate) proof fn kept_bytes(
    b: Seq<u8>,
    t: Seq<SpannedTokenView>,
    core: Seq<char>,
    at: Seq<int>,
    p: int,
    q: int,
)
    requires
        lexed(b, t),
        chained(b, 0, t),
        laid_at(core, all_words(b, t), at, true),
        0 <= p < q <= t.len(),
        forall|i: int| p < i < q ==> #[trigger] glued(b, t, i),
    ensures
        ({
            let text = core.push('\n');
            let x = off(text, at[p]);
            let n = text_end(b, t[q - 1]) - t[p].span.start;
            &&& n > 0
            &&& off(text, word_end(all_words(b, t), at, q - 1)) == x + n
            &&& same_bytes(b, t[p].span.start as int, encode_utf8(text), x, n)
        }),
    decreases q - p,
{
    let text = core.push('\n');
    let c = encode_utf8(text);
    let x = off(text, at[p]);
    let s = t[p].span.start as int;
    word_stands(b, t, core, at, q - 1);
    token_bytes(b, t, q - 1);
    if q > p + 1 {
        kept_bytes(b, t, core, at, p, q - 1);
        assert(glued(b, t, q - 1));
        fixed_gap_bytes(b, t, core, at, q - 1);
        let m = text_end(b, t[q - 2]);
        let k = t[q - 1].span.start as int;
        let n = text_end(b, t[q - 1]) - s;
        let g = off(text, gap_start(b, t, at, q - 1));
        let w = off(text, at[q - 1]);
        assert forall|j: int| 0 <= j < n implies #[trigger] b[s + j] == c[x + j] by {
            if s + j >= k {
                assert(b[k + (s + j - k)] == c[w + (s + j - k)]);
            } else if s + j >= m {
                assert(b[m + (s + j - m)] == c[g + (s + j - m)]);
            }
        }
    }
}

/// A comment at their end is kept to its end.
pub(crate) proof fn kept_comment_bytes(
    b: Seq<u8>,
    t: Seq<SpannedTokenView>,
    core: Seq<char>,
    at: Seq<int>,
    p: int,
    q: int,
)
    requires
        lexed(b, t),
        chained(b, 0, t),
        laid_at(core, all_words(b, t), at, true),
        0 <= p < q < t.len(),
        forall|i: int| p < i < q ==> #[trigger] glued(b, t, i),
        t[q - 1].token is Comment,
        exact_end(b, t, q),
    ensures
        ({
            let text = core.push('\n');
            let n = t[q - 1].span.end - t[p].span.start;
            &&& n > 0
            &&& off(text, at[q - 1]) + (t[q - 1].span.end - t[q - 1].span.start) == off(
                text,
                at[p],
            ) + n
            &&& same_bytes(b, t[p].span.start as int, encode_utf8(text), off(text, at[p]), n)
        }),
{
    let text = core.push('\n');
    let c = encode_utf8(text);
    let ws = all_words(b, t);
    let x = off(text, at[p]);
    let s = t[p].span.start as int;
    let m = text_end(b, t[q - 1]);
    let e = t[q - 1].span.end as int;
    let end = word_end(ws, at, q - 1);
    kept_bytes(b, t, core, at, p, q);
    word_stands(b, t, core, at, q - 1);
    token_bytes(b, t, q - 1);
    token_text_splits(b, t, q - 1);
    let g = off(text, end);
    assert(same_bytes(b, m, c, g, e - m)) by {
        if fixed(b, t, q) {
            fixed_gap_bytes(b, t, core, at, q);
            assert(span_on_text(b, t[q].span));
            assert(t[q - 1].span.end <= t[q].span.start);
        } else {
            tail_bytes(b, t, core, at, q - 1);
        }
    }
    assert forall|j: int| 0 <= j < e - s implies #[trigger] b[s + j] == c[x + j] by {
        if s + j >= m {
            assert(b[m + (s + j - m)] == c[g + (s + j - m)]);
        }
    }
}

} // verus!
