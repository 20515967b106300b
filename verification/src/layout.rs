//! What formatting keeps: the tokens of a source, comments included, come out in
//! their order, spelled as they were.
use vstd::prelude::*;
use vstd::utf8::*;

use crate::fmt::{
    ends_in_comment, flat, flat_items, formatted, is_white, node_text, packs, sign, source_text,
    spaces, tall, tall_items, top_level, trimmed_end, without_final_breaks,
};
use crate::lexer::{
    blank_byte, blank_end, comment_at, is_separator, lex_with_comments, next_token_at,
    next_token_bounds, run_end_bounds, span_at, span_on_text, spans_in_order, token_at,
    token_at_bounds, tokens_from, tokens_in_order, tokens_on_boundaries, Span, SpannedTokenView,
    TokenView, AT, COMMA, LF,
};
use crate::parser::{
    closer, form_at, form_at_placed, form_at_progress, forms_from, forms_until, is_prefix, opener,
    parse_rich_source, prefixed, Bracket, FormView, NodeView,
};
use crate::strings::{boundary_after_ascii, valid_between};

verus! {

// ── Words and gaps ──────────────────────────────────────────────────────────

/// A text that has to come out as it is, and how it stands to the word before it.
#[verifier::ext_equal]
pub ghost struct Word {
    pub text: Seq<char>,
    /// Something has to stand between them.
    pub apart: bool,
    /// The word before is a comment: it ends with its line.
    pub broken: bool,
    /// The word before is a sign, which belongs to this word.
    pub tight: bool,
    /// What has to stand between them, where that is fixed.
    pub glue: Option<Seq<char>>,
    /// What has to stand between the word before and a line break, where that is
    /// fixed.
    pub tail: Option<Seq<char>>,
}

/// What may stand between words: whitespace, and commas that separate items.
pub open spec fn gap_char(c: char) -> bool {
    is_white(c) || c == ','
}

pub open spec fn all_gap(s: Seq<char>) -> bool {
    forall|k: int| 0 <= k < s.len() ==> gap_char(#[trigger] s[k])
}

/// Blanks and line breaks only.
pub open spec fn plain_gap(text: Seq<char>, i: int, j: int) -> bool {
    forall|k: int| i <= k < j ==> (#[trigger] text[k] == ' ' || text[k] == '\n')
}

/// The end of the `i`-th word, which starts at `at[i]`.
pub open spec fn word_end(ws: Seq<Word>, at: Seq<int>, i: int) -> int {
    at[i] + ws[i].text.len()
}

/// The offset lies in the `i`-th word.
pub open spec fn in_this_word(ws: Seq<Word>, at: Seq<int>, i: int, k: int) -> bool {
    0 <= i < ws.len() && at[i] <= k < word_end(ws, at, i)
}

/// The offset lies in one of the words.
pub open spec fn in_word(ws: Seq<Word>, at: Seq<int>, k: int) -> bool {
    exists|i: int| #[trigger] in_this_word(ws, at, i, k)
}

/// The word stands in the text at the given place.
pub open spec fn stands(text: Seq<char>, w: Word, at: int) -> bool {
    0 <= at && at + w.text.len() <= text.len() && text.subrange(at, at + w.text.len()) == w.text
}

/// There is a line break between two offsets.
pub open spec fn breaks(text: Seq<char>, i: int, j: int) -> bool {
    exists|k: int| i <= k < j && #[trigger] text[k] == '\n'
}

/// What a plain layout asks of the gap before a word: it is the one that is fixed,
/// or it is made of blanks and line breaks, so that a comment ends with its line and
/// a sign stands right before its form.
pub open spec fn fits(text: Seq<char>, w: Word, i: int, j: int) -> bool {
    match (w.glue, w.tail) {
        (Some(g), _) => text.subrange(i, j) == g,
        (None, Some(x)) => {
            &&& i + x.len() < j
            &&& text.subrange(i, i + x.len()) == x
            &&& text[i + x.len()] == '\n'
            &&& plain_gap(text, i + x.len(), j)
        },
        (None, None) => {
            &&& plain_gap(text, i, j)
            &&& w.broken ==> breaks(text, i, j)
            &&& w.tight ==> i == j
        },
    }
}

/// The `i`-th word follows the word before it, apart from it where it has to be.
pub open spec fn follows(text: Seq<char>, ws: Seq<Word>, at: Seq<int>, i: int, plain: bool) -> bool {
    let e = word_end(ws, at, i - 1);
    &&& e <= at[i]
    &&& ws[i].apart ==> e < at[i]
    &&& plain ==> fits(text, ws[i], e, at[i])
}

/// The words stand in the text, in their order, at the given places; there is
/// nothing else in the text but gaps.
pub open spec fn set_at(text: Seq<char>, ws: Seq<Word>, at: Seq<int>, plain: bool) -> bool {
    &&& at.len() == ws.len()
    &&& forall|i: int| 0 <= i < ws.len() ==> #[trigger] stands(text, ws[i], at[i])
    &&& forall|i: int| 0 < i < ws.len() ==> #[trigger] follows(text, ws, at, i, plain)
    &&& forall|k: int|
        0 <= k < text.len() ==> gap_char(#[trigger] text[k]) || in_word(ws, at, k)
}

/// The text starts with the first word and ends with the last.
pub open spec fn snug(text: Seq<char>, ws: Seq<Word>, at: Seq<int>) -> bool {
    if ws.len() == 0 {
        text.len() == 0
    } else {
        at[0] == 0 && word_end(ws, at, ws.len() - 1) == text.len()
    }
}

/// The words are laid out in the text at the given places. A plain layout has no
/// gap at its ends.
pub open spec fn laid_at(text: Seq<char>, ws: Seq<Word>, at: Seq<int>, plain: bool) -> bool {
    set_at(text, ws, at, plain) && (plain ==> snug(text, ws, at))
}

/// The text consists of the words, in their order, and of gaps.
pub open spec fn laid(text: Seq<char>, ws: Seq<Word>, plain: bool) -> bool {
    exists|at: Seq<int>| laid_at(text, ws, at, plain)
}

proof fn nothing_is_laid(plain: bool)
    ensures
        laid(Seq::<char>::empty(), Seq::<Word>::empty(), plain),
{
    assert(laid_at(Seq::<char>::empty(), Seq::<Word>::empty(), Seq::<int>::empty(), plain));
}

proof fn word_is_laid(w: Word, plain: bool)
    ensures
        laid(w.text, seq![w], plain),
{
    let text = w.text;
    let ws = seq![w];
    let at = seq![0int];
    assert(text.subrange(0, text.len() as int) =~= text);
    assert(stands(text, ws[0], at[0]));
    assert forall|k: int| 0 <= k < text.len() implies in_word(ws, at, k) by {
        assert(in_this_word(ws, at, 0, k));
    }
    assert(laid_at(text, ws, at, plain));
}

/// The places of the words of two texts, one behind the other.
spec fn places(x: Seq<int>, y: Seq<int>, n: nat) -> Seq<int> {
    x + Seq::new(y.len(), |i: int| y[i] + n)
}

/// What stands before a word in a part of a text stands before it in the text.
proof fn part_fits(part: Seq<char>, text: Seq<char>, from: int, w: Word, i: int, j: int)
    requires
        fits(part, w, i, j),
        0 <= i <= j <= part.len(),
        0 <= from,
        from + part.len() <= text.len(),
        text.subrange(from, from + part.len()) == part,
    ensures
        fits(text, w, from + i, from + j),
{
    assert forall|k: int| from + i <= k < from + j implies #[trigger] text[k] == part[k - from] by {
        assert(text.subrange(from, from + part.len())[k - from] == text[k]);
    }
    assert(text.subrange(from + i, from + j) =~= part.subrange(i, j));
    if w.glue is None && w.tail is Some {
        let n = w.tail->0.len();
        assert(text.subrange(from + i, from + i + n) =~= part.subrange(i, i + n));
        assert(text[from + i + n] == part[i + n]);
    }
    if w.glue is None && w.tail is None && w.broken {
        let k = choose|k: int| i <= k < j && #[trigger] part[k] == '\n';
        assert(text[from + k] == '\n');
    }
}

/// Two texts, one behind the other.
proof fn set_together(
    a: Seq<char>,
    u: Seq<Word>,
    x: Seq<int>,
    c: Seq<char>,
    v: Seq<Word>,
    y: Seq<int>,
    plain: bool,
)
    requires
        set_at(a, u, x, plain),
        set_at(c, v, y, plain),
        u.len() > 0 && v.len() > 0 ==> follows(
            a + c,
            u + v,
            places(x, y, a.len()),
            u.len() as int,
            plain,
        ),
    ensures
        set_at(a + c, u + v, places(x, y, a.len()), plain),
{
    let t = a + c;
    let ws = u + v;
    let at = places(x, y, a.len());
    assert(t.subrange(0, a.len() as int) =~= a);
    assert(t.subrange(a.len() as int, t.len() as int) =~= c);
    assert forall|i: int| 0 <= i < ws.len() implies #[trigger] stands(t, ws[i], at[i]) by {
        if i < u.len() {
            assert(stands(a, u[i], x[i]));
            assert(t.subrange(at[i], at[i] + ws[i].text.len()) =~= a.subrange(
                x[i],
                x[i] + u[i].text.len(),
            ));
        } else {
            let j = i - u.len();
            assert(stands(c, v[j], y[j]));
            assert(t.subrange(at[i], at[i] + ws[i].text.len()) =~= c.subrange(
                y[j],
                y[j] + v[j].text.len(),
            ));
        }
    }
    assert forall|i: int| 0 < i < ws.len() implies #[trigger] follows(t, ws, at, i, plain) by {
        if i < u.len() {
            assert(follows(a, u, x, i, plain));
            assert(stands(a, u[i], x[i]));
            assert(stands(a, u[i - 1], x[i - 1]));
            if plain {
                part_fits(a, t, 0, u[i], word_end(u, x, i - 1), x[i]);
            }
        } else if i > u.len() {
            let j = i - u.len();
            assert(follows(c, v, y, j, plain));
            assert(stands(c, v[j], y[j]));
            assert(stands(c, v[j - 1], y[j - 1]));
            if plain {
                part_fits(c, t, a.len() as int, v[j], word_end(v, y, j - 1), y[j]);
            }
        }
    }
    assert forall|k: int| 0 <= k < t.len() implies gap_char(#[trigger] t[k]) || in_word(
        ws,
        at,
        k,
    ) by {
        if k < a.len() {
            assert(t[k] == a[k]);
            if !gap_char(a[k]) {
                assert(in_word(u, x, k));
                let i = choose|i: int| #[trigger] in_this_word(u, x, i, k);
                assert(in_this_word(ws, at, i, k));
            }
        } else {
            let m = k - a.len();
            assert(t[k] == c[m]);
            if !gap_char(c[m]) {
                assert(in_word(v, y, m));
                let j = choose|j: int| #[trigger] in_this_word(v, y, j, m);
                assert(in_this_word(ws, at, j + u.len(), k));
            }
        }
    }
}

proof fn gap_is_set(gap: Seq<char>, plain: bool)
    requires
        all_gap(gap),
    ensures
        set_at(gap, Seq::<Word>::empty(), Seq::<int>::empty(), plain),
{
}

/// Two laid texts with a gap between them.
proof fn laid_apart(
    a: Seq<char>,
    u: Seq<Word>,
    gap: Seq<char>,
    c: Seq<char>,
    v: Seq<Word>,
    plain: bool,
)
    requires
        laid(a, u, plain),
        laid(c, v, plain),
        gap.len() > 0,
        all_gap(gap),
        plain ==> u.len() > 0 && v.len() > 0 && fits(gap, v[0], 0, gap.len() as int),
    ensures
        laid(a + gap + c, u + v, plain),
{
    let none = Seq::<Word>::empty();
    let nowhere = Seq::<int>::empty();
    let x = choose|x: Seq<int>| laid_at(a, u, x, plain);
    let y = choose|y: Seq<int>| laid_at(c, v, y, plain);
    gap_is_set(gap, plain);
    set_together(a, u, x, gap, none, nowhere, plain);
    assert(places(x, nowhere, a.len()) =~= x);
    assert(u + none =~= u);
    let g = a + gap;
    assert(set_at(g, u, x, plain));
    if u.len() > 0 && v.len() > 0 {
        assert(stands(a, u[u.len() - 1], x[u.len() - 1]));
        assert(stands(c, v[0], y[0]));
        let t = g + c;
        if plain {
            assert(t.subrange(a.len() as int, a.len() as int + gap.len()) =~= gap);
            part_fits(gap, t, a.len() as int, v[0], 0, gap.len() as int);
        }
    }
    set_together(g, u, x, c, v, y, plain);
    assert(laid_at(g + c, u + v, places(x, y, g.len()), plain));
}

/// Two laid texts side by side, of which the second does not ask for a gap.
proof fn laid_close(a: Seq<char>, u: Seq<Word>, c: Seq<char>, v: Seq<Word>, plain: bool)
    requires
        laid(a, u, plain),
        laid(c, v, plain),
        u.len() > 0 && v.len() > 0 ==> !v[0].apart && (plain ==> fits(
            Seq::<char>::empty(),
            v[0],
            0,
            0,
        )),
    ensures
        laid(a + c, u + v, plain),
{
    let x = choose|x: Seq<int>| laid_at(a, u, x, plain);
    let y = choose|y: Seq<int>| laid_at(c, v, y, plain);
    if u.len() > 0 && v.len() > 0 {
        assert(stands(a, u[u.len() - 1], x[u.len() - 1]));
        assert(stands(c, v[0], y[0]));
        let t = a + c;
        if plain {
            let nothing = Seq::<char>::empty();
            assert(t.subrange(a.len() as int, a.len() as int) =~= nothing);
            part_fits(nothing, t, a.len() as int, v[0], 0, 0);
        }
    }
    set_together(a, u, x, c, v, y, plain);
    if u.len() == 0 {
        assert(a + c =~= c || !plain);
    }
    assert(laid_at(a + c, u + v, places(x, y, a.len()), plain));
}

// ── Tokens as words ─────────────────────────────────────────────────────────

/// The text between two byte offsets.
pub open spec fn text_in(b: Seq<u8>, i: int, j: int) -> Seq<char> {
    decode_utf8(b.subrange(i, j))
}

/// A token as it has to come out: verbatim, but for the whitespace at the end of a
/// comment.
pub open spec fn token_text(b: Seq<u8>, t: SpannedTokenView) -> Seq<char> {
    match t.token {
        TokenView::Comment(s) => trimmed_end(s),
        _ => text_in(b, t.span.start as int, t.span.end as int),
    }
}

/// Opening brackets and prefix signs: what follows may stand right behind them.
pub open spec fn opens(t: TokenView) -> bool {
    opener(t) is Some || is_prefix(t)
}

/// Closing brackets: they may stand right behind what they follow.
pub open spec fn closes(t: TokenView) -> bool {
    t is RParen || t is RBrace || t is RBracket
}

/// The first form of the bracket that token `m` opens does not fit on a single line:
/// it is written as it stands in the source.
pub open spec fn kept(b: Seq<u8>, t: Seq<SpannedTokenView>, m: int) -> bool {
    &&& 0 <= m < t.len()
    &&& opener(t[m].token) is Some
    &&& form_at(t, m + 1).node matches Some(head) && flat(head, b) is None
}

/// The token belongs to such a form, and is not its first token.
#[verifier::opaque]
pub open spec fn glued(b: Seq<u8>, t: Seq<SpannedTokenView>, i: int) -> bool {
    exists|m: int| #[trigger] kept(b, t, m) && m + 1 < i < form_at(t, m + 1).pos
}

/// The token belongs to no such form that starts at or before it.
pub open spec fn free(b: Seq<u8>, t: Seq<SpannedTokenView>, p: int) -> bool {
    forall|m: int| #[trigger] kept(b, t, m) && m < p ==> p >= form_at(t, m + 1).pos
}

/// The token follows the first form of a bracket that is kept as it stands.
#[verifier::opaque]
pub open spec fn follows_kept(b: Seq<u8>, t: Seq<SpannedTokenView>, i: int) -> bool {
    exists|m: int| #[trigger] kept(b, t, m) && form_at(t, m + 1).pos == i
}

/// The token follows a comment that is kept as it stands.
pub open spec fn tailed(b: Seq<u8>, t: Seq<SpannedTokenView>, i: int) -> bool {
    i > 0 && t[i - 1].token is Comment && follows_kept(b, t, i)
}

/// Where a token ends, as it has to come out.
pub open spec fn text_end(b: Seq<u8>, t: SpannedTokenView) -> int {
    t.span.start + encode_utf8(token_text(b, t)).len()
}

/// The `i`-th token as a word. It stays apart from the token before it where the
/// source keeps them apart, unless that one opens or this one closes.
pub open spec fn word_at(b: Seq<u8>, t: Seq<SpannedTokenView>, i: int) -> Word {
    Word {
        text: token_text(b, t[i]),
        apart: i > 0 && t[i - 1].span.end < t[i].span.start && !opens(t[i - 1].token) && !closes(
            t[i].token,
        ),
        broken: i > 0 && t[i - 1].token is Comment,
        tight: i > 0 && is_prefix(t[i - 1].token),
        glue: if i > 0 && glued(b, t, i) {
            Some(text_in(b, text_end(b, t[i - 1]), t[i].span.start as int))
        } else {
            None
        },
        tail: if tailed(b, t, i) {
            Some(text_in(b, text_end(b, t[i - 1]), t[i - 1].span.end as int))
        } else {
            None
        },
    }
}

/// The tokens from index `p` up to index `q`, as words.
pub open spec fn words(b: Seq<u8>, t: Seq<SpannedTokenView>, p: int, q: int) -> Seq<Word> {
    Seq::new((q - p) as nat, |i: int| word_at(b, t, p + i))
}

proof fn words_join(b: Seq<u8>, t: Seq<SpannedTokenView>, p: int, q: int, r: int)
    requires
        p <= q <= r,
    ensures
        words(b, t, p, q) + words(b, t, q, r) == words(b, t, p, r),
{
    assert(words(b, t, p, q) + words(b, t, q, r) =~= words(b, t, p, r));
}

// ── What lies between tokens ────────────────────────────────────────────────

pub open spec fn gap_byte(c: u8) -> bool {
    blank_byte(c) || c == COMMA
}

pub proof fn text_splits(b: Seq<u8>, i: int, j: int, k: int)
    requires
        valid_utf8(b),
        is_char_boundary(b, i),
        is_char_boundary(b, j),
        is_char_boundary(b, k),
        i <= j <= k,
    ensures
        text_in(b, i, k) == text_in(b, i, j) + text_in(b, j, k),
{
    valid_between(b, i, k);
    let s = b.subrange(i, k);
    if j == k {
        is_char_boundary_start_end_of_seq(s);
    } else {
        is_char_boundary_iff_not_is_continuation_byte(b, j);
        assert(s[j - i] == b[j]);
        is_char_boundary_iff_not_is_continuation_byte(s, j - i);
    }
    decode_utf8_split(s, j - i);
    assert(s.subrange(0, j - i) =~= b.subrange(i, j));
    assert(s.subrange(j - i, s.len() as int) =~= b.subrange(j, k));
}

pub proof fn ascii_text(b: Seq<u8>, i: int)
    requires
        0 <= i < b.len(),
        b[i] < 0x80,
    ensures
        text_in(b, i, i + 1) == seq![b[i] as char],
{
    let c = b[i] as char;
    let s = seq![c];
    is_ascii_chars_encode_utf8(s);
    assert(encode_utf8(s) =~= b.subrange(i, i + 1));
    encode_utf8_decode_utf8(s);
}

proof fn gap_text(b: Seq<u8>, i: int, j: int)
    requires
        valid_utf8(b),
        0 <= i <= j <= b.len(),
        forall|k: int| i <= k < j ==> gap_byte(#[trigger] b[k]),
    ensures
        text_in(b, i, j).len() == j - i,
        forall|k: int| 0 <= k < j - i ==> gap_char(#[trigger] text_in(b, i, j)[k]),
    decreases j - i,
{
    if i == j {
        assert(b.subrange(i, j) =~= Seq::<u8>::empty());
    } else {
        gap_text(b, i, j - 1);
        assert(gap_byte(b[j - 1]));
        assert(gap_byte(b[i]));
        boundary_after_ascii(b, j - 1);
        boundary_after_ascii(b, i);
        text_splits(b, i, j - 1, j);
        ascii_text(b, j - 1);
    }
}

/// Brackets and signs are spelled as they are, and a comment holds its text.
pub open spec fn spelled(b: Seq<u8>, t: SpannedTokenView) -> bool {
    let s = text_in(b, t.span.start as int, t.span.end as int);
    match t.token {
        TokenView::LParen => s == seq!['('],
        TokenView::RParen => s == seq![')'],
        TokenView::LBrace => s == seq!['{'],
        TokenView::RBrace => s == seq!['}'],
        TokenView::LBracket => s == seq!['['],
        TokenView::RBracket => s == seq![']'],
        TokenView::Quote => s == seq!['\''],
        TokenView::Quasiquote => s == seq!['`'],
        TokenView::Unquote => s == seq![','],
        TokenView::UnquoteSplice => s == seq![',', '@'],
        TokenView::HashFn => s == seq!['#'],
        TokenView::Comment(text) => s == text,
        _ => true,
    }
}

pub open spec fn gap_before(b: Seq<u8>, t: Seq<SpannedTokenView>, i: int) -> bool {
    forall|k: int| t[i - 1].span.end <= k < t[i].span.start ==> gap_byte(#[trigger] b[k])
}

/// The tokens of a text, with nothing but gaps between them.
pub open spec fn lexed(b: Seq<u8>, t: Seq<SpannedTokenView>) -> bool {
    &&& valid_utf8(b)
    &&& spans_in_order(t, 0, b.len() as int)
    &&& forall|i: int| 0 <= i < t.len() ==> span_on_text(b, (#[trigger] t[i]).span)
    &&& forall|i: int| 0 <= i < t.len() ==> spelled(b, #[trigger] t[i])
    &&& forall|i: int| 0 < i < t.len() ==> #[trigger] gap_before(b, t, i)
}

proof fn token_is_spelled(b: Seq<u8>, p: int)
    requires
        valid_utf8(b),
        b.len() <= u32::MAX,
        0 <= p < b.len(),
    ensures
        ({
            let (tok, e) = token_at(b, p);
            spelled(b, (SpannedTokenView { token: tok, span: span_at(b, p, e) }))
        }),
{
    token_at_bounds(b, p);
    if b[p] < 0x80 {
        ascii_text(b, p);
        if b[p] == COMMA && p + 1 < b.len() && b[p + 1] == AT {
            ascii_text(b, p + 1);
            boundary_after_ascii(b, p);
            boundary_after_ascii(b, p + 1);
            text_splits(b, p, p + 1, p + 2);
            assert(text_in(b, p, p + 2) =~= seq![',', '@']);
        }
    }
}

proof fn next_token_is_lexed(b: Seq<u8>, p: int)
    requires
        valid_utf8(b),
        b.len() <= u32::MAX,
        0 <= p <= b.len(),
    ensures
        next_token_at(b, p, true) matches Some((tok, s, e)) ==> {
            &&& spelled(b, (SpannedTokenView { token: tok, span: span_at(b, s, e) }))
            &&& forall|k: int| p <= k < s ==> gap_byte(#[trigger] b[k])
        },
    decreases b.len() - p,
{
    run_end_bounds(b, p, |c: u8| blank_byte(c));
    let q = blank_end(b, p);
    if comment_at(b, q) {
        run_end_bounds(b, q, |c: u8| c != LF);
    } else if q < b.len() {
        if b[q] == COMMA && is_separator(b, q + 1) {
            next_token_is_lexed(b, q + 1);
        } else {
            token_is_spelled(b, q);
        }
    }
}

proof fn tokens_are_lexed(b: Seq<u8>, p: int)
    requires
        valid_utf8(b),
        b.len() <= u32::MAX,
        0 <= p <= b.len(),
    ensures
        ({
            let t = tokens_from(b, p, true);
            &&& forall|i: int| 0 <= i < t.len() ==> spelled(b, #[trigger] t[i])
            &&& forall|i: int| 0 < i < t.len() ==> #[trigger] gap_before(b, t, i)
            &&& t.len() > 0 ==> forall|k: int|
                p <= k < t[0].span.start ==> gap_byte(#[trigger] b[k])
        }),
    decreases b.len() - p,
{
    next_token_bounds(b, p, true);
    next_token_is_lexed(b, p);
    if let Some((tok, s, e)) = next_token_at(b, p, true) {
        tokens_are_lexed(b, e);
        let t = tokens_from(b, p, true);
        let rest = tokens_from(b, e, true);
        assert(forall|i: int| 0 < i < t.len() ==> t[i] == rest[i - 1]);
        assert(t[0].span.end == e);
        assert forall|i: int| 0 < i < t.len() implies #[trigger] gap_before(b, t, i) by {
            if i > 1 {
                assert(gap_before(b, rest, i - 1));
            }
        }
    }
}

pub proof fn source_is_lexed(src: Seq<char>)
    requires
        encode_utf8(src).len() <= u32::MAX,
    ensures
        lexed(encode_utf8(src), lex_with_comments(src)),
{
    encode_utf8_valid_utf8(src);
    tokens_in_order(src, true);
    tokens_on_boundaries(src, true);
    tokens_are_lexed(encode_utf8(src), 0);
}

// ── The source itself ───────────────────────────────────────────────────────

/// A text and the blanks behind it.
pub proof fn trimmed_and_blanks(s: Seq<char>)
    ensures
        trimmed_end(s).len() <= s.len(),
        s.take(trimmed_end(s).len() as int) == trimmed_end(s),
        forall|k: int| trimmed_end(s).len() <= k < s.len() ==> is_white(#[trigger] s[k]),
        trimmed_end(s).len() > 0 ==> !is_white(trimmed_end(s).last()),
    decreases s.len(),
{
    if s.len() > 0 && is_white(s.last()) {
        trimmed_and_blanks(s.drop_last());
        let n = trimmed_end(s).len() as int;
        assert(s.take(n) =~= s.drop_last().take(n));
        assert forall|k: int| n <= k < s.len() implies is_white(#[trigger] s[k]) by {
            if k < s.len() - 1 {
                assert(s.drop_last()[k] == s[k]);
            }
        }
    } else {
        assert(s.take(s.len() as int) =~= s);
    }
}

/// A token is laid, as it has to come out.
proof fn token_is_laid(b: Seq<u8>, t: Seq<SpannedTokenView>, i: int, plain: bool)
    ensures
        laid(token_text(b, t[i]), words(b, t, i, i + 1), plain),
{
    let w = word_at(b, t, i);
    assert(words(b, t, i, i + 1) =~= seq![w]);
    word_is_laid(w, plain);
}

/// A token is laid, as it stands in the source.
proof fn token_source_is_laid(b: Seq<u8>, t: Seq<SpannedTokenView>, i: int)
    requires
        lexed(b, t),
        0 <= i < t.len(),
    ensures
        laid(text_in(b, t[i].span.start as int, t[i].span.end as int), words(b, t, i, i + 1), false),
{
    let s = text_in(b, t[i].span.start as int, t[i].span.end as int);
    let w = word_at(b, t, i);
    token_is_laid(b, t, i, false);
    assert(words(b, t, i, i + 1) =~= seq![w]);
    assert(spelled(b, t[i]));
    if let TokenView::Comment(text) = t[i].token {
        trimmed_and_blanks(text);
        let n = trimmed_end(text).len() as int;
        let tail = text.skip(n);
        assert(forall|k: int| 0 <= k < tail.len() ==> #[trigger] tail[k] == text[n + k]);
        let none = Seq::<Word>::empty();
        gap_is_set(tail, false);
        assert(laid_at(tail, none, Seq::<int>::empty(), false));
        laid_close(w.text, seq![w], tail, none, false);
        assert(w.text + tail =~= s);
        assert(seq![w] + none =~= seq![w]);
    }
}

/// A stretch of the source is laid.
proof fn source_is_laid(b: Seq<u8>, t: Seq<SpannedTokenView>, p: int, q: int)
    requires
        lexed(b, t),
        0 <= p < q <= t.len(),
    ensures
        laid(
            text_in(b, t[p].span.start as int, t[q - 1].span.end as int),
            words(b, t, p, q),
            false,
        ),
    decreases q - p,
{
    if q == p + 1 {
        token_source_is_laid(b, t, p);
    } else {
        source_is_laid(b, t, p, q - 1);
        token_source_is_laid(b, t, q - 1);
        let i = t[p].span.start as int;
        let j = t[q - 2].span.end as int;
        let k = t[q - 1].span.start as int;
        let l = t[q - 1].span.end as int;
        assert(span_on_text(b, t[p].span) && span_on_text(b, t[q - 2].span) && span_on_text(
            b,
            t[q - 1].span,
        ));
        assert(gap_before(b, t, q - 1));
        assert(i <= j <= k <= l);
        text_splits(b, i, j, k);
        text_splits(b, i, k, l);
        gap_text(b, j, k);
        let gap = text_in(b, j, k);
        let u = words(b, t, p, q - 1);
        let v = words(b, t, q - 1, q);
        if j < k {
            laid_apart(text_in(b, i, j), u, gap, text_in(b, k, l), v, false);
        } else {
            assert(gap =~= Seq::<char>::empty());
            laid_close(text_in(b, i, j), u, text_in(b, k, l), v, false);
            assert(text_in(b, i, j) + gap =~= text_in(b, i, j));
        }
        words_join(b, t, p, q - 1, q);
    }
}

/// A token as it has to come out, and what of its source it leaves.
pub(crate) proof fn token_text_splits(b: Seq<u8>, t: Seq<SpannedTokenView>, i: int)
    requires
        lexed(b, t),
        0 <= i < t.len(),
    ensures
        ({
            let s = t[i].span.start as int;
            let e = t[i].span.end as int;
            let m = text_end(b, t[i]);
            &&& s <= m <= e
            &&& is_char_boundary(b, m)
            &&& text_in(b, s, m) == token_text(b, t[i])
            &&& all_gap(text_in(b, m, e))
            &&& !(t[i].token is Comment) ==> m == e
        }),
{
    let s = t[i].span.start as int;
    let e = t[i].span.end as int;
    let m = text_end(b, t[i]);
    let x = text_in(b, s, e);
    let w = token_text(b, t[i]);
    assert(span_on_text(b, t[i].span) && spelled(b, t[i]));
    valid_between(b, s, e);
    decode_utf8_encode_utf8(b.subrange(s, e));
    trimmed_and_blanks(x);
    let tail = x.skip(w.len() as int);
    assert(w == x.take(w.len() as int)) by {
        assert(x.take(x.len() as int) =~= x);
    }
    assert(w + tail =~= x);
    crate::text::encode_concat(w, tail);
    let all = b.subrange(s, e);
    let n = encode_utf8(w).len() as int;
    assert(all == encode_utf8(w) + encode_utf8(tail));
    assert(b.subrange(s, m) =~= encode_utf8(w)) by {
        assert(all.subrange(0, n) =~= b.subrange(s, m));
        assert((encode_utf8(w) + encode_utf8(tail)).subrange(0, n) =~= encode_utf8(w));
    }
    assert(b.subrange(m, e) =~= encode_utf8(tail)) by {
        assert(all.subrange(n, e - s) =~= b.subrange(m, e));
        assert((encode_utf8(w) + encode_utf8(tail)).subrange(n, e - s) =~= encode_utf8(tail));
    }
    encode_utf8_decode_utf8(w);
    encode_utf8_decode_utf8(tail);
    assert(forall|k: int| 0 <= k < tail.len() ==> #[trigger] tail[k] == x[w.len() + k]);
    if m < e {
        let y = encode_utf8(tail);
        encode_utf8_valid_utf8(tail);
        is_char_boundary_start_end_of_seq(y);
        is_char_boundary_iff_not_is_continuation_byte(y, 0);
        assert(y[0] == b.subrange(m, e)[0]);
        is_char_boundary_iff_not_is_continuation_byte(b, m);
    }
    if !(t[i].token is Comment) {
        assert(tail =~= Seq::<char>::empty());
        assert(encode_utf8(tail) =~= Seq::<u8>::empty());
    }
}

/// A stretch of the source whose gaps are fixed is laid as it stands.
proof fn kept_source_is_laid(b: Seq<u8>, t: Seq<SpannedTokenView>, p: int, q: int)
    requires
        lexed(b, t),
        0 <= p < q <= t.len(),
        forall|i: int| p < i < q ==> #[trigger] glued(b, t, i),
    ensures
        laid(text_in(b, t[p].span.start as int, text_end(b, t[q - 1])), words(b, t, p, q), true),
    decreases q - p,
{
    token_text_splits(b, t, q - 1);
    token_is_laid(b, t, q - 1, true);
    if q > p + 1 {
        kept_source_is_laid(b, t, p, q - 1);
        token_text_splits(b, t, q - 2);
        token_text_splits(b, t, p);
        assert(glued(b, t, q - 1));
        let s = t[p].span.start as int;
        let m = text_end(b, t[q - 2]);
        let j = t[q - 2].span.end as int;
        let k = t[q - 1].span.start as int;
        let l = text_end(b, t[q - 1]);
        assert(span_on_text(b, t[p].span) && span_on_text(b, t[q - 2].span) && span_on_text(
            b,
            t[q - 1].span,
        ));
        assert(gap_before(b, t, q - 1));
        assert(s <= m <= j <= k <= l);
        text_splits(b, s, m, k);
        text_splits(b, s, k, l);
        text_splits(b, m, j, k);
        gap_text(b, j, k);
        let gap = text_in(b, m, k);
        let u = words(b, t, p, q - 1);
        let v = words(b, t, q - 1, q);
        let x = text_in(b, m, j);
        let y = text_in(b, j, k);
        assert forall|i: int| 0 <= i < gap.len() implies gap_char(#[trigger] gap[i]) by {
            if i < x.len() {
                assert(gap[i] == x[i]);
            } else {
                assert(gap[i] == y[i - x.len()]);
            }
        }
        if gap.len() > 0 {
            assert(gap.subrange(0, gap.len() as int) =~= gap);
            laid_apart(text_in(b, s, m), u, gap, text_in(b, k, l), v, true);
        } else {
            assert(gap =~= Seq::<char>::empty());
            assert(y.len() == 0);
            assert(j == k);
            assert(Seq::<char>::empty().subrange(0, 0) =~= gap);
            laid_close(text_in(b, s, m), u, text_in(b, k, l), v, true);
            assert(text_in(b, s, m) + gap =~= text_in(b, s, m));
        }
        words_join(b, t, p, q - 1, q);
    }
}

// ── The tokens of a form ────────────────────────────────────────────────────

/// The index behind `i` forms that follow one another from token `p` on.
pub open spec fn behind(t: Seq<SpannedTokenView>, p: int, i: int) -> int
    decreases i,
{
    if i <= 0 {
        p
    } else {
        form_at(t, behind(t, p, i - 1)).pos
    }
}

proof fn behind_first(t: Seq<SpannedTokenView>, p: int, i: int)
    requires
        i >= 1,
    ensures
        behind(t, p, i) == behind(t, form_at(t, p).pos, i - 1),
    decreases i,
{
    if i > 1 {
        behind_first(t, p, i - 1);
    } else {
        assert(behind(t, p, 0) == p);
    }
}

/// The form is read, without an error, from token `p` on.
pub open spec fn reads(t: Seq<SpannedTokenView>, p: int, n: NodeView) -> bool {
    0 <= p < t.len() && form_at(t, p).node == Some(n) && form_at(t, p).errors.len() == 0
}

/// The forms are read, without an error, one behind the other.
pub open spec fn reads_all(t: Seq<SpannedTokenView>, p: int, v: Seq<NodeView>) -> bool {
    forall|i: int| 0 <= i < v.len() ==> #[trigger] reads(t, behind(t, p, i), v[i])
}

proof fn reads_one_more(t: Seq<SpannedTokenView>, p: int, n: NodeView, v: Seq<NodeView>)
    requires
        reads(t, p, n),
        reads_all(t, form_at(t, p).pos, v),
    ensures
        reads_all(t, p, seq![n] + v),
        behind(t, p, v.len() as int + 1) == behind(t, form_at(t, p).pos, v.len() as int),
{
    let w = seq![n] + v;
    let q = form_at(t, p).pos;
    assert forall|i: int| 0 <= i < w.len() implies #[trigger] reads(t, behind(t, p, i), w[i]) by {
        if i == 0 {
            assert(behind(t, p, 0) == p);
        } else {
            behind_first(t, p, i);
            assert(reads(t, behind(t, q, i - 1), v[i - 1]));
            assert(w[i] == v[i - 1]);
        }
    }
    behind_first(t, p, v.len() as int + 1);
}

pub proof fn behind_moves(t: Seq<SpannedTokenView>, p: int, v: Seq<NodeView>, i: int)
    requires
        reads_all(t, p, v),
        0 <= i <= v.len(),
    ensures
        p <= behind(t, p, i),
        i > 0 ==> behind(t, p, i - 1) < behind(t, p, i) <= t.len(),
    decreases i,
{
    if i > 0 {
        behind_moves(t, p, v, i - 1);
        assert(reads(t, behind(t, p, i - 1), v[i - 1]));
        form_at_progress(t, behind(t, p, i - 1));
    }
}

/// Only a sign with nothing behind it is read as nothing without an error.
pub proof fn nothing_read(t: Seq<SpannedTokenView>, p: int)
    requires
        0 <= p < t.len(),
        form_at(t, p).node is None,
        form_at(t, p).errors.len() == 0,
    ensures
        form_at(t, p).pos == t.len(),
        is_prefix(t.last().token),
    decreases t.len() - p,
{
    if p + 1 < t.len() {
        nothing_read(t, p + 1);
    } else {
        assert(form_at(t, p + 1).pos == p + 1);
    }
}

pub proof fn inside_is_read(t: Seq<SpannedTokenView>, p: int, bracket: Bracket, open: Span)
    requires
        0 <= p <= t.len(),
        forms_until(t, p, bracket, open).errors.len() == 0,
    ensures
        ({
            let r = forms_until(t, p, bracket, open);
            &&& p < r.pos <= t.len()
            &&& t[r.pos - 1].token == closer(bracket)
            &&& reads_all(t, p, r.forms)
            &&& behind(t, p, r.forms.len() as int) == r.pos - 1
        }),
    decreases t.len() - p,
{
    let r = forms_until(t, p, bracket, open);
    if p < t.len() && t[p].token != closer(bracket) {
        let first = form_at(t, p);
        form_at_progress(t, p);
        let rest = forms_until(t, first.pos, bracket, open);
        assert(r.errors == first.errors + rest.errors);
        if first.node is None {
            nothing_read(t, p);
        }
        inside_is_read(t, first.pos, bracket, open);
        reads_one_more(t, p, first.node->0, rest.forms);
    }
}

pub proof fn all_is_read(t: Seq<SpannedTokenView>, p: int)
    requires
        0 <= p <= t.len(),
        forms_from(t, p).1.len() == 0,
        t.len() > 0 ==> !is_prefix(t.last().token),
    ensures
        reads_all(t, p, forms_from(t, p).0),
        behind(t, p, forms_from(t, p).0.len() as int) == t.len(),
    decreases t.len() - p,
{
    if p < t.len() {
        let first = form_at(t, p);
        form_at_progress(t, p);
        if first.node is None {
            if first.errors.len() == 0 {
                nothing_read(t, p);
            }
            assert(false);
        }
        let rest = forms_from(t, first.pos);
        assert(forms_from(t, p).1 == first.errors + rest.1);
        all_is_read(t, first.pos);
        reads_one_more(t, p, first.node->0, rest.0);
    }
}

/// The last token of a form is no sign, and a comment where the form ends in one.
pub(crate) proof fn last_token_of_form(t: Seq<SpannedTokenView>, p: int, n: NodeView)
    requires
        reads(t, p, n),
    ensures
        p < form_at(t, p).pos <= t.len(),
        !is_prefix(t[form_at(t, p).pos - 1].token),
        t[form_at(t, p).pos - 1].token is Comment <==> ends_in_comment(n),
    decreases t.len() - p,
{
    form_at_progress(t, p);
    match opener(t[p].token) {
        Some(bracket) => {
            inside_is_read(t, p + 1, bracket, t[p].span);
        },
        None => {
            if is_prefix(t[p].token) {
                last_token_of_form(t, p + 1, form_at(t, p + 1).node->0);
            }
        },
    }
}

/// A bracket inside a form has its first form inside the form.
proof fn inner_form_ends(t: Seq<SpannedTokenView>, p: int, n: NodeView, m: int)
    requires
        reads(t, p, n),
        p <= m < form_at(t, p).pos,
        opener(t[m].token) is Some,
        form_at(t, m + 1).node is Some,
    ensures
        form_at(t, m + 1).pos < form_at(t, p).pos,
    decreases t.len() - p, 0int, 0int,
{
    form_at_progress(t, p);
    match opener(t[p].token) {
        Some(bracket) => {
            inside_is_read(t, p + 1, bracket, t[p].span);
            let r = forms_until(t, p + 1, bracket, t[p].span);
            let k = r.forms.len() as int;
            if m == p {
                if k == 0 {
                    assert(behind(t, p + 1, 0) == p + 1);
                    assert(form_at(t, p + 1).node is None);
                } else {
                    behind_grows(t, p + 1, r.forms, 1, k);
                    assert(behind(t, p + 1, 0) == p + 1);
                }
            } else {
                inner_forms_end(t, p + 1, r.forms, k, m);
            }
        },
        None => {
            if is_prefix(t[p].token) {
                inner_form_ends(t, p + 1, form_at(t, p + 1).node->0, m);
            }
        },
    }
}

pub(crate) proof fn inner_forms_end(t: Seq<SpannedTokenView>, p: int, v: Seq<NodeView>, k: int, m: int)
    requires
        reads_all(t, p, v),
        0 <= p <= m < behind(t, p, k),
        0 <= k <= v.len(),
        opener(t[m].token) is Some,
        form_at(t, m + 1).node is Some,
    ensures
        form_at(t, m + 1).pos < behind(t, p, k),
    decreases t.len() - p, 1int, k,
{
    if k > 0 {
        let c = behind(t, p, k - 1);
        behind_moves(t, p, v, k - 1);
        behind_moves(t, p, v, k);
        if m < c {
            inner_forms_end(t, p, v, k - 1, m);
        } else {
            assert(reads(t, c, v[k - 1]));
            inner_form_ends(t, c, v[k - 1], m);
        }
    }
}

proof fn behind_grows(t: Seq<SpannedTokenView>, p: int, v: Seq<NodeView>, i: int, k: int)
    requires
        reads_all(t, p, v),
        0 <= i <= k <= v.len(),
    ensures
        behind(t, p, i) <= behind(t, p, k),
    decreases k,
{
    if i < k {
        behind_moves(t, p, v, k);
        behind_grows(t, p, v, i, k - 1);
    }
}

/// What follows the first of some forms belongs to no form that is kept.
proof fn free_behind(b: Seq<u8>, t: Seq<SpannedTokenView>, p: int, v: Seq<NodeView>, k: int)
    requires
        reads_all(t, p, v),
        0 <= p,
        1 <= k <= v.len(),
        forall|m: int| #[trigger]
            kept(b, t, m) && m < p ==> form_at(t, m + 1).pos <= behind(t, p, 1),
    ensures
        free(b, t, behind(t, p, k)),
        !glued(b, t, behind(t, p, k)),
{
    reveal(glued);
    behind_grows(t, p, v, 1, k);
    let c = behind(t, p, k);
    assert forall|m: int| #[trigger] kept(b, t, m) && m < c implies c >= form_at(t, m + 1).pos by {
        if m >= p {
            inner_forms_end(t, p, v, k, m);
        }
    }
}

/// The forms between two brackets, and the closing bracket.
proof fn free_inside(b: Seq<u8>, t: Seq<SpannedTokenView>, p: int, v: Seq<NodeView>, k: int)
    requires
        0 <= p,
        free(b, t, p),
        reads_all(t, p + 1, v),
        0 <= k <= v.len(),
        k == 0 ==> !kept(b, t, p),
    ensures
        free(b, t, behind(t, p + 1, k)),
        !glued(b, t, behind(t, p + 1, k)),
        !glued(b, t, p + 1),
{
    reveal(glued);
    assert(behind(t, p + 1, 0) == p + 1);
    assert(!glued(b, t, p + 1)) by {
        if glued(b, t, p + 1) {
            let m = choose|m: int| #[trigger]
                kept(b, t, m) && m + 1 < p + 1 < form_at(t, m + 1).pos;
            assert(p >= form_at(t, m + 1).pos);
        }
    }
    if k > 0 {
        behind_moves(t, p + 1, v, 1);
        assert forall|m: int| #[trigger] kept(b, t, m) && m < p + 1 implies form_at(t, m + 1).pos
            <= behind(t, p + 1, 1) by {
            if m < p {
                assert(p >= form_at(t, m + 1).pos);
            }
        }
        free_behind(b, t, p + 1, v, k);
    }
}

// ── Comments and signs ──────────────────────────────────────────────────────

proof fn flat_ends_in_no_comment(n: NodeView, b: Seq<u8>)
    requires
        flat(n, b) is Some,
    ensures
        !ends_in_comment(n),
    decreases n,
{
    match n.node {
        FormView::Quote(i) => flat_ends_in_no_comment(*i, b),
        FormView::Quasiquote(i) => flat_ends_in_no_comment(*i, b),
        FormView::Unquote(i) => flat_ends_in_no_comment(*i, b),
        FormView::UnquoteSplice(i) => flat_ends_in_no_comment(*i, b),
        FormView::HashFn(i) => flat_ends_in_no_comment(*i, b),
        _ => {},
    }
}

/// The form after a sign.
pub proof fn signed_is_read(t: Seq<SpannedTokenView>, p: int, n: NodeView)
    requires
        reads(t, p, n),
        is_prefix(t[p].token),
    ensures
        form_at(t, p + 1).node is Some,
        reads(t, p + 1, form_at(t, p + 1).node->0),
        n.node == prefixed(t[p].token, form_at(t, p + 1).node->0),
        form_at(t, p + 1).pos == form_at(t, p).pos,
{
}

// ── What the formatter writes ───────────────────────────────────────────────

/// The brackets around a laid text.
proof fn enclosed_is_laid(
    b: Seq<u8>,
    t: Seq<SpannedTokenView>,
    p: int,
    q: int,
    bracket: Bracket,
    s: Seq<char>,
    plain: bool,
)
    requires
        lexed(b, t),
        0 <= p < q < t.len(),
        opener(t[p].token) == Some(bracket),
        t[q].token == closer(bracket),
        plain ==> !(t[q - 1].token is Comment) && !glued(b, t, p + 1) && !glued(b, t, q),
        laid(s, words(b, t, p + 1, q), plain),
    ensures
        laid(seq![left(bracket)] + s + seq![right(bracket)], words(b, t, p, q + 1), plain),
{
    token_is_laid(b, t, p, plain);
    token_is_laid(b, t, q, plain);
    assert(spelled(b, t[p]) && spelled(b, t[q]));
    laid_close(seq![left(bracket)], words(b, t, p, p + 1), s, words(b, t, p + 1, q), plain);
    words_join(b, t, p, p + 1, q);
    laid_close(
        seq![left(bracket)] + s,
        words(b, t, p, q),
        seq![right(bracket)],
        words(b, t, q, q + 1),
        plain,
    );
    words_join(b, t, p, q, q + 1);
}

/// The brackets around a laid text, with a gap before the second.
proof fn enclosed_apart_is_laid(
    b: Seq<u8>,
    t: Seq<SpannedTokenView>,
    p: int,
    q: int,
    bracket: Bracket,
    s: Seq<char>,
    gap: Seq<char>,
    plain: bool,
)
    requires
        lexed(b, t),
        0 <= p < q < t.len(),
        opener(t[p].token) == Some(bracket),
        t[q].token == closer(bracket),
        gap.len() > 0,
        all_gap(gap),
        plain ==> !glued(b, t, p + 1) && fits(gap, word_at(b, t, q), 0, gap.len() as int),
        laid(s, words(b, t, p + 1, q), plain),
    ensures
        laid(seq![left(bracket)] + s + gap + seq![right(bracket)], words(b, t, p, q + 1), plain),
{
    token_is_laid(b, t, p, plain);
    token_is_laid(b, t, q, plain);
    assert(spelled(b, t[p]) && spelled(b, t[q]));
    laid_close(seq![left(bracket)], words(b, t, p, p + 1), s, words(b, t, p + 1, q), plain);
    words_join(b, t, p, p + 1, q);
    laid_apart(
        seq![left(bracket)] + s,
        words(b, t, p, q),
        gap,
        seq![right(bracket)],
        words(b, t, q, q + 1),
        plain,
    );
    words_join(b, t, p, q, q + 1);
}

spec fn left(b: Bracket) -> char {
    match b {
        Bracket::Paren => '(',
        Bracket::Brace => '{',
        Bracket::Square => '[',
    }
}

spec fn right(b: Bracket) -> char {
    match b {
        Bracket::Paren => ')',
        Bracket::Brace => '}',
        Bracket::Square => ']',
    }
}

/// A sign in front of a laid text.
proof fn signed_is_laid(
    b: Seq<u8>,
    t: Seq<SpannedTokenView>,
    p: int,
    q: int,
    f: FormView,
    s: Seq<char>,
    plain: bool,
)
    requires
        lexed(b, t),
        0 <= p < q <= t.len(),
        is_prefix(t[p].token),
        exists|m: NodeView| f == prefixed(t[p].token, m),
        plain ==> !glued(b, t, p + 1),
        laid(s, words(b, t, p + 1, q), plain),
    ensures
        laid(sign(f) + s, words(b, t, p, q), plain),
{
    token_is_laid(b, t, p, plain);
    assert(spelled(b, t[p]));
    laid_close(sign(f), words(b, t, p, p + 1), s, words(b, t, p + 1, q), plain);
    words_join(b, t, p, p + 1, q);
}

/// Blanks and line breaks fit before a form that is free.
proof fn blanks_fit(b: Seq<u8>, t: Seq<SpannedTokenView>, c: int, gap: Seq<char>)
    requires
        0 < c < t.len(),
        plain_gap(gap, 0, gap.len() as int),
        !is_prefix(t[c - 1].token),
        !glued(b, t, c),
        !tailed(b, t, c),
        t[c - 1].token is Comment ==> breaks(gap, 0, gap.len() as int),
    ensures
        fits(gap, word_at(b, t, c), 0, gap.len() as int),
{
}

/// What follows a free form does not follow a comment that is kept as it stands.
proof fn free_is_not_tailed(b: Seq<u8>, t: Seq<SpannedTokenView>, p: int, n: NodeView)
    requires
        reads(t, p, n),
        free(b, t, p),
    ensures
        !tailed(b, t, form_at(t, p).pos),
{
    reveal(follows_kept);
    let c = form_at(t, p).pos;
    form_at_progress(t, p);
    if follows_kept(b, t, c) {
        let m = choose|m: int| #[trigger] kept(b, t, m) && form_at(t, m + 1).pos == c;
        if m < p {
            assert(p >= form_at(t, m + 1).pos);
        } else if m < c {
            inner_form_ends(t, p, n, m);
        } else {
            assert(m + 1 < t.len()) by {
                if m + 1 >= t.len() {
                    assert(form_at(t, m + 1).node is None);
                }
            }
            form_at_progress(t, m + 1);
        }
    }
}

/// A form behind another one, with a gap between them.
proof fn next_is_laid(
    b: Seq<u8>,
    t: Seq<SpannedTokenView>,
    p: int,
    c: int,
    q: int,
    before: Seq<char>,
    gap: Seq<char>,
    item: Seq<char>,
    plain: bool,
)
    requires
        0 <= p < c < q <= t.len(),
        laid(before, words(b, t, p, c), plain),
        laid(item, words(b, t, c, q), plain),
        gap.len() > 0,
        all_gap(gap),
        plain ==> fits(gap, word_at(b, t, c), 0, gap.len() as int),
    ensures
        laid(before + gap + item, words(b, t, p, q), plain),
{
    laid_apart(before, words(b, t, p, c), gap, item, words(b, t, c, q), plain);
    words_join(b, t, p, c, q);
}

/// A form on a single line.
proof fn flat_is_laid(b: Seq<u8>, t: Seq<SpannedTokenView>, p: int, n: NodeView, plain: bool)
    requires
        lexed(b, t),
        reads(t, p, n),
        flat(n, b) is Some,
        plain ==> free(b, t, p),
    ensures
        laid(flat(n, b)->0, words(b, t, p, form_at(t, p).pos), plain),
    decreases t.len() - p, 1int, 0int,
{
    let tok = t[p].token;
    form_at_progress(t, p);
    match opener(tok) {
        Some(bracket) => {
            inside_is_read(t, p + 1, bracket, t[p].span);
            let r = forms_until(t, p + 1, bracket, t[p].span);
            let k = r.forms.len() as int;
            if k > 0 {
                flat_head(r.forms, b, k);
                assert(behind(t, p + 1, 0) == p + 1);
                assert(reads(t, behind(t, p + 1, 0), r.forms[0]));
            } else {
                assert(form_at(t, p + 1).node is None);
            }
            assert(!kept(b, t, p));
            if plain {
                free_inside(b, t, p, r.forms, 0);
                free_inside(b, t, p, r.forms, k);
            }
            assert(behind(t, p + 1, 0) == p + 1);
            flat_items_are_laid(b, t, p + 1, r.forms, k, plain);
            enclosed_is_laid(b, t, p, r.pos - 1, bracket, flat_items(r.forms, b, k)->0, plain);
        },
        None => {
            if is_prefix(tok) {
                let m = form_at(t, p + 1).node->0;
                signed_is_read(t, p, n);
                if plain {
                    free_after_sign(b, t, p);
                }
                flat_is_laid(b, t, p + 1, m, plain);
                signed_is_laid(b, t, p, form_at(t, p).pos, n.node, flat(m, b)->0, plain);
            } else {
                token_is_laid(b, t, p, plain);
            }
        },
    }
}

/// Forms on a single line; the last token of them is no comment.
proof fn flat_items_are_laid(
    b: Seq<u8>,
    t: Seq<SpannedTokenView>,
    p: int,
    v: Seq<NodeView>,
    k: int,
    plain: bool,
)
    requires
        lexed(b, t),
        0 <= p <= t.len(),
        reads_all(t, p, v),
        0 <= k <= v.len(),
        flat_items(v, b, k) is Some,
        plain ==> free(b, t, p),
    ensures
        laid(flat_items(v, b, k)->0, words(b, t, p, behind(t, p, k)), plain),
        k > 0 ==> !(t[behind(t, p, k) - 1].token is Comment),
    decreases t.len() - p, 2int, k,
{
    if k == 0 {
        nothing_is_laid(plain);
        assert(words(b, t, p, p) =~= Seq::<Word>::empty());
    } else {
        let c = behind(t, p, k - 1);
        let q = behind(t, p, k);
        behind_moves(t, p, v, k - 1);
        behind_moves(t, p, v, k);
        assert(reads(t, c, v[k - 1]));
        flat_items_are_laid(b, t, p, v, k - 1, plain);
        if plain && k > 1 {
            behind_moves(t, p, v, 1);
            assert forall|m: int| #[trigger] kept(b, t, m) && m < p implies form_at(t, m + 1).pos
                <= behind(t, p, 1) by {
                assert(p >= form_at(t, m + 1).pos);
            }
            free_behind(b, t, p, v, k - 1);
        }
        flat_is_laid(b, t, c, v[k - 1], plain);
        last_token_of_form(t, c, v[k - 1]);
        flat_ends_in_no_comment(v[k - 1], b);
        if k > 1 {
            behind_moves(t, p, v, k - 2);
            assert(reads(t, behind(t, p, k - 2), v[k - 2]));
            last_token_of_form(t, behind(t, p, k - 2), v[k - 2]);
            if plain {
                blanks_fit(b, t, c, seq![' ']);
            }
            next_is_laid(
                b,
                t,
                p,
                c,
                q,
                flat_items(v, b, k - 1)->0,
                seq![' '],
                flat(v[k - 1], b)->0,
                plain,
            );
        }
    }
}

/// The source of the form at token `p`, up to the last character of its last token.
pub open spec fn kept_text(b: Seq<u8>, t: Seq<SpannedTokenView>, p: int) -> Seq<char> {
    text_in(b, t[p].span.start as int, text_end(b, t[form_at(t, p).pos - 1]))
}

/// The blanks at the end of a comment that ends the form at token `p`.
pub open spec fn kept_tail(b: Seq<u8>, t: Seq<SpannedTokenView>, p: int) -> Seq<char> {
    let last = t[form_at(t, p).pos - 1];
    text_in(b, text_end(b, last), last.span.end as int)
}

/// The source of a form.
proof fn form_source_is_laid(
    b: Seq<u8>,
    t: Seq<SpannedTokenView>,
    p: int,
    n: NodeView,
    plain: bool,
)
    requires
        lexed(b, t),
        b.len() <= u32::MAX,
        reads(t, p, n),
        plain ==> kept(b, t, p - 1),
    ensures
        p < form_at(t, p).pos <= t.len(),
        !plain || !ends_in_comment(n) ==> laid(
            source_text(n.span, b),
            words(b, t, p, form_at(t, p).pos),
            plain,
        ),
        plain ==> laid(kept_text(b, t, p), words(b, t, p, form_at(t, p).pos), true),
        source_text(n.span, b) == kept_text(b, t, p) + kept_tail(b, t, p),
        all_gap(kept_tail(b, t, p)),
{
    let q = form_at(t, p).pos;
    form_at_placed(b, t, p);
    last_token_of_form(t, p, n);
    token_text_splits(b, t, q - 1);
    token_text_splits(b, t, p);
    assert(span_on_text(b, t[p].span) && span_on_text(b, t[q - 1].span));
    text_splits(b, t[p].span.start as int, text_end(b, t[q - 1]), t[q - 1].span.end as int);
    if plain {
        assert forall|i: int| p < i < q implies #[trigger] glued(b, t, i) by {
            reveal(glued);
            assert(kept(b, t, p - 1));
        }
        kept_source_is_laid(b, t, p, q);
    } else {
        source_is_laid(b, t, p, q);
    }
}

proof fn flat_head(v: Seq<NodeView>, b: Seq<u8>, k: int)
    requires
        1 <= k <= v.len(),
        flat_items(v, b, k) is Some,
    ensures
        flat(v[0], b) is Some,
    decreases k,
{
    if k > 1 {
        flat_head(v, b, k - 1);
    }
}

proof fn free_after_sign(b: Seq<u8>, t: Seq<SpannedTokenView>, p: int)
    requires
        0 <= p < t.len(),
        is_prefix(t[p].token),
        free(b, t, p),
    ensures
        free(b, t, p + 1),
        !glued(b, t, p + 1),
{
    reveal(glued);
    assert forall|m: int| #[trigger] kept(b, t, m) && m < p + 1 implies p + 1 >= form_at(
        t,
        m + 1,
    ).pos by {
        if m < p {
            assert(p >= form_at(t, m + 1).pos);
        }
    }
}

/// A form as it is written at a column.
proof fn node_is_laid(
    b: Seq<u8>,
    t: Seq<SpannedTokenView>,
    p: int,
    n: NodeView,
    indent: int,
    plain: bool,
)
    requires
        lexed(b, t),
        b.len() <= u32::MAX,
        reads(t, p, n),
        plain ==> free(b, t, p),
    ensures
        laid(node_text(n, b, indent), words(b, t, p, form_at(t, p).pos), plain),
    decreases t.len() - p, 3int, 0int,
{
    form_at_progress(t, p);
    if n.node is Comment {
        token_is_laid(b, t, p, plain);
    } else {
        if flat(n, b) is Some {
            flat_is_laid(b, t, p, n, plain);
        }
        tall_is_laid(b, t, p, n, indent, plain);
    }
}

/// A form spread over several lines.
proof fn tall_is_laid(
    b: Seq<u8>,
    t: Seq<SpannedTokenView>,
    p: int,
    n: NodeView,
    indent: int,
    plain: bool,
)
    requires
        lexed(b, t),
        b.len() <= u32::MAX,
        reads(t, p, n),
        plain ==> free(b, t, p),
    ensures
        laid(tall(n, b, indent), words(b, t, p, form_at(t, p).pos), plain),
    decreases t.len() - p, 2int, 0int,
{
    let tok = t[p].token;
    form_at_progress(t, p);
    match opener(tok) {
        Some(bracket) => {
            inside_is_read(t, p + 1, bracket, t[p].span);
            let r = forms_until(t, p + 1, bracket, t[p].span);
            let v = r.forms;
            let k = v.len() as int;
            if k == 0 {
                nothing_is_laid(plain);
                assert(words(b, t, p + 1, p + 1) =~= Seq::<Word>::empty());
                assert(form_at(t, p + 1).node is None);
                if plain {
                    free_inside(b, t, p, v, 0);
                }
                assert(behind(t, p + 1, 0) == p + 1);
                enclosed_is_laid(b, t, p, r.pos - 1, bracket, Seq::<char>::empty(), plain);
                assert(seq![left(bracket)] + Seq::<char>::empty() + seq![right(bracket)] =~= seq![
                    left(bracket),
                    right(bracket),
                ]);
            } else {
                if plain {
                    free_inside(b, t, p, v, k);
                }
                tall_items_are_laid(b, t, p + 1, v, indent, k, plain);
                behind_moves(t, p + 1, v, k);
                assert(reads(t, behind(t, p + 1, k - 1), v[k - 1]));
                last_token_of_form(t, behind(t, p + 1, k - 1), v[k - 1]);
                let items = tall_items(v, b, indent, k).0;
                if ends_in_comment(v.last()) {
                    closed_below_is_laid(b, t, p, n, indent, plain);
                } else {
                    enclosed_is_laid(b, t, p, r.pos - 1, bracket, items, plain);
                }
                assert(seq![left(bracket)] + items + Seq::<char>::empty() + seq![right(bracket)]
                    =~= seq![left(bracket)] + items + seq![right(bracket)]);
            }
        },
        None => {
            if is_prefix(tok) {
                let m = form_at(t, p + 1).node->0;
                signed_is_read(t, p, n);
                let deeper = if tok is UnquoteSplice {
                    indent + 2
                } else {
                    indent + 1
                };
                if plain {
                    free_after_sign(b, t, p);
                }
                node_is_laid(b, t, p + 1, m, deeper, plain);
                signed_is_laid(b, t, p, form_at(t, p).pos, n.node, node_text(m, b, deeper), plain);
            } else {
                token_is_laid(b, t, p, plain);
            }
        },
    }
}

/// A comment that is kept as it stands, and a line break behind it.
proof fn break_fits_behind_kept(
    b: Seq<u8>,
    t: Seq<SpannedTokenView>,
    p: int,
    n: NodeView,
    gap: Seq<char>,
)
    requires
        0 < p,
        reads(t, p, n),
        ends_in_comment(n),
        kept(b, t, p - 1),
        form_at(t, p).pos < t.len(),
        !glued(b, t, form_at(t, p).pos),
        all_gap(kept_tail(b, t, p)),
        gap.len() > 0,
        gap[0] == '\n',
        plain_gap(gap, 0, gap.len() as int),
    ensures
        all_gap(kept_tail(b, t, p) + gap),
        fits(
            kept_tail(b, t, p) + gap,
            word_at(b, t, form_at(t, p).pos),
            0,
            (kept_tail(b, t, p) + gap).len() as int,
        ),
{
    let c = form_at(t, p).pos;
    let tail = kept_tail(b, t, p);
    let wide = tail + gap;
    last_token_of_form(t, p, n);
    assert(tailed(b, t, c)) by {
        reveal(follows_kept);
        assert(kept(b, t, p - 1));
    }
    assert(wide.subrange(0, tail.len() as int) =~= tail);
    assert forall|i: int| 0 <= i < wide.len() implies gap_char(#[trigger] wide[i]) by {
        if i < tail.len() {
            assert(wide[i] == tail[i]);
        } else {
            assert(wide[i] == gap[i - tail.len()]);
        }
    }
    assert forall|i: int| tail.len() <= i < wide.len() implies (#[trigger] wide[i] == ' '
        || wide[i] == '\n') by {
        assert(wide[i] == gap[i - tail.len()]);
    }
}

/// A bracket whose last form ends in a comment is closed on a line of its own.
proof fn closed_below_is_laid(
    b: Seq<u8>,
    t: Seq<SpannedTokenView>,
    p: int,
    n: NodeView,
    indent: int,
    plain: bool,
)
    requires
        lexed(b, t),
        b.len() <= u32::MAX,
        reads(t, p, n),
        opener(t[p].token) is Some,
        ({
            let v = forms_until(t, p + 1, opener(t[p].token)->0, t[p].span).forms;
            v.len() > 0 && ends_in_comment(v.last())
        }),
        plain ==> free(b, t, p),
    ensures
        laid(tall(n, b, indent), words(b, t, p, form_at(t, p).pos), plain),
    decreases t.len() - p, 1int, 0int,
{
    let bracket = opener(t[p].token)->0;
    form_at_progress(t, p);
    inside_is_read(t, p + 1, bracket, t[p].span);
    let r = forms_until(t, p + 1, bracket, t[p].span);
    let v = r.forms;
    let k = v.len() as int;
    let q = r.pos - 1;
    let o = behind(t, p + 1, k - 1);
    behind_moves(t, p + 1, v, k);
    behind_moves(t, p + 1, v, k - 1);
    assert(reads(t, o, v[k - 1]));
    last_token_of_form(t, o, v[k - 1]);
    tall_items_are_laid(b, t, p + 1, v, indent, k, plain);
    let items = tall_items(v, b, indent, k).0;
    let gap = seq!['\n'] + spaces(indent + 2);
    assert(gap[0] == '\n');
    if plain {
        free_inside(b, t, p, v, k);
        assert(behind(t, p + 1, 0) == p + 1);
    }
    if plain && k == 1 {
        let tail = kept_tail(b, t, p + 1);
        break_fits_behind_kept(b, t, p + 1, v[0], gap);
        enclosed_apart_is_laid(b, t, p, q, bracket, kept_text(b, t, p + 1), tail + gap, true);
        assert(seq![left(bracket)] + kept_text(b, t, p + 1) + (tail + gap) =~= seq![left(bracket)]
            + items + gap);
    } else {
        if plain {
            free_inside(b, t, p, v, k - 1);
            free_is_not_tailed(b, t, o, v[k - 1]);
            blanks_fit(b, t, q, gap);
        }
        enclosed_apart_is_laid(b, t, p, q, bracket, items, gap, plain);
    }
}

/// The forms of a compound that is spread over several lines.
proof fn tall_items_are_laid(
    b: Seq<u8>,
    t: Seq<SpannedTokenView>,
    p: int,
    v: Seq<NodeView>,
    indent: int,
    k: int,
    plain: bool,
)
    requires
        lexed(b, t),
        b.len() <= u32::MAX,
        0 <= p <= t.len(),
        reads_all(t, p, v),
        1 <= k <= v.len(),
        plain ==> {
            &&& 0 < p
            &&& opener(t[p - 1].token) is Some
            &&& free(b, t, p - 1)
        },
    ensures
        !(plain && k == 1 && ends_in_comment(v[0])) ==> laid(
            tall_items(v, b, indent, k).0,
            words(b, t, p, behind(t, p, k)),
            plain,
        ),
        plain && k == 1 && ends_in_comment(v[0]) ==> {
            &&& tall_items(v, b, indent, k).0 == kept_text(b, t, p) + kept_tail(b, t, p)
            &&& laid(kept_text(b, t, p), words(b, t, p, behind(t, p, k)), true)
            &&& all_gap(kept_tail(b, t, p))
            &&& kept(b, t, p - 1)
        },
    decreases t.len() - p, 4int, k,
{
    let c = behind(t, p, k - 1);
    let q = behind(t, p, k);
    behind_moves(t, p, v, k - 1);
    behind_moves(t, p, v, k);
    assert(reads(t, c, v[k - 1]));
    if k == 1 {
        assert(c == p);
        if flat(v[0], b) is Some {
            if plain {
                free_inside(b, t, p - 1, v, 0);
            }
            flat_is_laid(b, t, p, v[0], plain);
            flat_ends_in_no_comment(v[0], b);
        } else {
            form_source_is_laid(b, t, p, v[0], plain);
        }
    } else {
        tall_items_are_laid(b, t, p, v, indent, k - 1, plain);
        let (before, col) = tall_items(v, b, indent, k - 1);
        behind_moves(t, p, v, k - 2);
        let o = behind(t, p, k - 2);
        assert(reads(t, o, v[k - 2]));
        last_token_of_form(t, o, v[k - 2]);
        if plain {
            free_inside(b, t, p - 1, v, k - 1);
            if !(k == 2 && ends_in_comment(v[0])) && ends_in_comment(v[k - 2]) {
                free_inside(b, t, p - 1, v, k - 2);
                free_is_not_tailed(b, t, o, v[k - 2]);
            }
        }
        if packs(v, b, col, k - 1) {
            if plain {
                if k > 2 {
                    packed_is_flat(v, b, indent, k - 1);
                    flat_ends_in_no_comment(v[k - 2], b);
                }
                assert(!ends_in_comment(v[k - 2]));
                blanks_fit(b, t, c, seq![' ']);
            }
            flat_is_laid(b, t, c, v[k - 1], plain);
            next_is_laid(b, t, p, c, q, before, seq![' '], flat(v[k - 1], b)->0, plain);
        } else {
            node_is_laid(b, t, c, v[k - 1], indent + 2, plain);
            let gap = seq!['\n'] + spaces(indent + 2);
            let item = node_text(v[k - 1], b, indent + 2);
            assert(gap[0] == '\n');
            if plain && k == 2 && ends_in_comment(v[0]) {
                assert(behind(t, p, 0) == p);
                let tail = kept_tail(b, t, p);
                let wide = tail + gap;
                break_fits_behind_kept(b, t, p, v[0], gap);
                next_is_laid(b, t, p, c, q, kept_text(b, t, p), wide, item, true);
                assert(kept_text(b, t, p) + wide + item =~= before + seq!['\n'] + spaces(
                    indent + 2,
                ) + item);
            } else {
                if plain {
                    blanks_fit(b, t, c, gap);
                }
                next_is_laid(b, t, p, c, q, before, gap, item, plain);
                assert(before + gap =~= before + seq!['\n'] + spaces(indent + 2));
            }
        }
    }
}

/// What stands on the head line stands there on a single line.
proof fn packed_is_flat(v: Seq<NodeView>, b: Seq<u8>, indent: int, k: int)
    requires
        2 <= k <= v.len(),
        tall_items(v, b, indent, k).1 is Some,
    ensures
        flat(v[k - 1], b) is Some,
{
}

pub proof fn top_level_is_laid(
    b: Seq<u8>,
    t: Seq<SpannedTokenView>,
    v: Seq<NodeView>,
    k: int,
    plain: bool,
)
    requires
        lexed(b, t),
        b.len() <= u32::MAX,
        reads_all(t, 0, v),
        0 <= k <= v.len(),
    ensures
        laid(top_level(v, b, k), words(b, t, 0, behind(t, 0, k)), plain),
    decreases k,
{
    if k == 0 {
        nothing_is_laid(plain);
        assert(words(b, t, 0, 0) =~= Seq::<Word>::empty());
    } else {
        let c = behind(t, 0, k - 1);
        let q = behind(t, 0, k);
        behind_moves(t, 0, v, k - 1);
        behind_moves(t, 0, v, k);
        assert(reads(t, c, v[k - 1]));
        if k > 1 {
            free_behind(b, t, 0, v, k - 1);
        } else {
            assert(c == 0);
            assert(free(b, t, 0));
        }
        node_is_laid(b, t, c, v[k - 1], 0, plain);
        if k == 1 {
            assert(c == 0);
        } else {
            top_level_is_laid(b, t, v, k - 1, plain);
            assert(reads(t, behind(t, 0, k - 2), v[k - 2]));
            last_token_of_form(t, behind(t, 0, k - 2), v[k - 2]);
            if k > 2 {
                free_behind(b, t, 0, v, k - 2);
            } else {
                assert(behind(t, 0, 0) == 0);
                assert(free(b, t, 0));
            }
            free_is_not_tailed(b, t, behind(t, 0, k - 2), v[k - 2]);
            let gap = if v[k - 2].node is Comment {
                seq!['\n']
            } else {
                seq!['\n', '\n']
            };
            assert(gap[0] == '\n');
            blanks_fit(b, t, c, gap);
            next_is_laid(
                b,
                t,
                0,
                c,
                q,
                top_level(v, b, k - 1),
                gap,
                node_text(v[k - 1], b, 0),
                plain,
            );
        }
    }
}

/// Line breaks at the end can go, unless the last word ends with one.
proof fn final_breaks_can_go(text: Seq<char>, ws: Seq<Word>)
    requires
        laid(text, ws, false),
        ws.len() > 0 ==> ws.last().text.len() > 0 && ws.last().text.last() != '\n',
    ensures
        laid(without_final_breaks(text), ws, false),
    decreases text.len(),
{
    if text.len() > 0 && text.last() == '\n' {
        let at = choose|at: Seq<int>| laid_at(text, ws, at, false);
        let cut = text.drop_last();
        let n = cut.len() as int;
        assert forall|i: int| 0 <= i < ws.len() implies #[trigger] stands(cut, ws[i], at[i]) by {
            assert(stands(text, ws[i], at[i]));
            last_word_is_last(text, ws, at, i);
            if word_end(ws, at, i) == text.len() {
                let last = ws[i].text.len() - 1;
                assert(text.subrange(at[i], at[i] + ws[i].text.len())[last] == text[n]);
            }
            assert(cut.subrange(at[i], at[i] + ws[i].text.len()) =~= text.subrange(
                at[i],
                at[i] + ws[i].text.len(),
            ));
        }
        assert forall|i: int| 0 < i < ws.len() implies #[trigger] follows(cut, ws, at, i, false) by {
            assert(follows(text, ws, at, i, false));
        }
        assert forall|k: int| 0 <= k < cut.len() implies gap_char(#[trigger] cut[k]) || in_word(
            ws,
            at,
            k,
        ) by {
            assert(cut[k] == text[k]);
        }
        assert(laid_at(cut, ws, at, false));
        final_breaks_can_go(cut, ws);
    }
}

/// No word but the last reaches the end of the text.
proof fn last_word_is_last(text: Seq<char>, ws: Seq<Word>, at: Seq<int>, i: int)
    requires
        set_at(text, ws, at, false),
        0 <= i < ws.len(),
        ws.last().text.len() > 0,
    ensures
        i < ws.len() - 1 ==> word_end(ws, at, i) < text.len(),
    decreases ws.len() - i,
{
    if i < ws.len() - 1 {
        assert(follows(text, ws, at, i + 1, false));
        assert(stands(text, ws[i + 1], at[i + 1]));
        last_word_is_last(text, ws, at, i + 1);
    }
}

/// The words of a source: its tokens, comments included.
pub open spec fn source_words(src: Seq<char>) -> Seq<Word> {
    words(encode_utf8(src), lex_with_comments(src), 0, lex_with_comments(src).len() as int)
}

/// The source ends neither in a sign that has nothing to stand before nor in a
/// string that is not closed and ends in a line break.
pub open spec fn ends_well(src: Seq<char>) -> bool {
    let t = lex_with_comments(src);
    t.len() > 0 ==> !is_prefix(t.last().token) && token_text(encode_utf8(src), t.last()).len() > 0
        && token_text(encode_utf8(src), t.last()).last() != '\n'
}

/// Formatting keeps the tokens: the formatted text consists of the tokens of the
/// source, comments included, in their order and spelled as they were (but for the
/// whitespace at the end of a comment), and of whitespace and separating commas.
/// Tokens that the source keeps apart stay apart, unless the first opens a bracket
/// or is a sign, or the second closes a bracket.
pub proof fn formatting_keeps_tokens(src: Seq<char>)
    requires
        encode_utf8(src).len() <= u32::MAX,
        ends_well(src),
    ensures
        formatted(src) matches Some(text) ==> laid(text, source_words(src), false),
{
    let b = encode_utf8(src);
    let t = lex_with_comments(src);
    let (nodes, errors) = parse_rich_source(src);
    if errors.len() == 0 {
        source_is_lexed(src);
        all_is_read(t, 0);
        let k = nodes.len() as int;
        top_level_is_laid(b, t, nodes, k, false);
        let ws = source_words(src);
        if ws.len() > 0 {
            assert(ws.last().text == token_text(b, t.last()));
        }
        let text = top_level(nodes, b, k);
        final_breaks_can_go(text, ws);
        let none = Seq::<Word>::empty();
        gap_is_set(seq!['\n'], false);
        assert(laid_at(seq!['\n'], none, Seq::<int>::empty(), false));
        laid_close(without_final_breaks(text), ws, seq!['\n'], none, false);
        assert(ws + none =~= ws);
        assert(without_final_breaks(text) + seq!['\n'] =~= without_final_breaks(text).push('\n'));
    }
}

} // verus!
