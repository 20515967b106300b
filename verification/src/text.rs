//! LSP position ↔ byte-offset conversion utilities.
//!
//! LSP positions are (0-based line, 0-based UTF-16 character index).
//! Internally we work with byte offsets into the file's UTF-8 text.
use vstd::prelude::*;
use vstd::string::*;
use vstd::utf8::*;

use crate::lexer::Span;
use crate::strings::{boundary_in_range, byte_len, chars_of, slice};

verus! {

/// A place in a text: a line, and a number of UTF-16 code units on that line.
#[derive(Debug, Clone, Copy, PartialEq, Eq, Structural)]
pub struct Position {
    pub line: u32,
    pub character: u32,
}

/// A stretch of a text, from `start` up to, not including, `end`.
#[derive(Debug, Clone, Copy, PartialEq, Eq, Structural)]
pub struct Range {
    pub start: Position,
    pub end: Position,
}

// ── Lines and columns ───────────────────────────────────────────────────────

/// The UTF-16 code units of a character.
pub open spec fn units(c: char) -> nat {
    if c as u32 >= 0x10000 {
        2
    } else {
        1
    }
}

/// The UTF-16 code units of a text.
pub open spec fn utf16_units(s: Seq<char>) -> nat
    decreases s.len(),
{
    if s.len() == 0 {
        0
    } else {
        utf16_units(s.drop_last()) + units(s.last())
    }
}

/// The number of line breaks in a text.
pub open spec fn breaks(s: Seq<char>) -> nat
    decreases s.len(),
{
    if s.len() == 0 {
        0
    } else if s.last() == '\n' {
        breaks(s.drop_last()) + 1
    } else {
        breaks(s.drop_last())
    }
}

/// The index behind the last line break of a text.
pub open spec fn last_line(s: Seq<char>) -> int
    decreases s.len(),
{
    if s.len() == 0 {
        0
    } else if s.last() == '\n' {
        s.len() as int
    } else {
        last_line(s.drop_last())
    }
}

/// The place behind a text that starts at line 0, column 0.
pub open spec fn place_after(s: Seq<char>) -> (nat, nat) {
    (breaks(s), utf16_units(s.skip(last_line(s))))
}

/// The text before a byte offset.
pub open spec fn text_before(b: Seq<u8>, byte: int) -> Seq<char> {
    decode_utf8(b.subrange(0, byte))
}

/// The start of the character that an offset lies in; the end of the text where
/// it lies beyond it.
pub open spec fn char_start(b: Seq<u8>, byte: int) -> int
    decreases byte,
{
    if byte >= b.len() {
        b.len() as int
    } else if byte <= 0 || is_char_boundary(b, byte) {
        byte
    } else {
        char_start(b, byte - 1)
    }
}

/// The position of a byte offset.
pub open spec fn position_of(b: Seq<u8>, byte: int) -> Position {
    let (line, character) = place_after(text_before(b, char_start(b, byte)));
    Position { line: line as u32, character: character as u32 }
}

pub open spec fn range_of(b: Seq<u8>, span: Span) -> Range {
    Range { start: position_of(b, span.start as int), end: position_of(b, span.end as int) }
}

/// The index at which the `n`-th line behind index `i` starts.
pub open spec fn line_start(s: Seq<char>, i: int, n: nat) -> Option<int>
    decreases s.len() - i,
{
    if n == 0 {
        Some(i)
    } else if !(0 <= i < s.len()) {
        None
    } else if s[i] == '\n' {
        line_start(s, i + 1, (n - 1) as nat)
    } else {
        line_start(s, i + 1, n)
    }
}

/// The index reached from `i` after at least `n` UTF-16 code units; none where
/// the line ends before that.
pub open spec fn walk_units(s: Seq<char>, i: int, n: int) -> Option<int>
    decreases s.len() - i,
{
    if n <= 0 {
        Some(i)
    } else if 0 <= i < s.len() && s[i] != '\n' {
        walk_units(s, i + 1, n - units(s[i]))
    } else {
        None
    }
}

/// The byte offset of an index.
pub open spec fn byte_at(s: Seq<char>, i: int) -> nat {
    encode_utf8(s.take(i)).len()
}

/// The index of a position; none where the text has no such line, or the line
/// ends before the position.
pub open spec fn index_at(s: Seq<char>, pos: Position) -> Option<int> {
    match line_start(s, 0, pos.line as nat) {
        Some(i) => walk_units(s, i, pos.character as int),
        None => None,
    }
}

/// The byte offset of a position; none where it is out of bounds.
pub open spec fn offset_of(s: Seq<char>, pos: Position) -> Option<nat> {
    match index_at(s, pos) {
        Some(i) => Some(byte_at(s, i)),
        None => None,
    }
}

// ── Facts ───────────────────────────────────────────────────────────────────

/// The bytes of a text are those of its parts.
pub proof fn encode_concat(a: Seq<char>, b: Seq<char>)
    ensures
        encode_utf8(a + b) == encode_utf8(a) + encode_utf8(b),
    decreases a.len(),
{
    if a.len() == 0 {
        assert(a + b =~= b);
        assert(encode_utf8(a) + encode_utf8(b) =~= encode_utf8(b));
    } else {
        assert((a + b).drop_first() =~= a.drop_first() + b);
        encode_concat(a.drop_first(), b);
        assert(encode_utf8(a + b) =~= encode_utf8(a) + encode_utf8(b));
    }
}

/// The number of bytes of a character.
pub open spec fn char_bytes(c: char) -> nat {
    encode_scalar(c as u32).len()
}

proof fn encode_one(c: char)
    ensures
        encode_utf8(seq![c]) == encode_scalar(c as u32),
        units(c) <= char_bytes(c),
        1 <= char_bytes(c),
{
    let s = seq![c];
    assert(s[0] == c);
    assert(encode_utf8(s.drop_first()) =~= Seq::<u8>::empty());
    assert(encode_utf8(s) =~= encode_scalar(c as u32));
}

proof fn byte_at_next(s: Seq<char>, i: int)
    requires
        0 <= i < s.len(),
    ensures
        byte_at(s, i + 1) == byte_at(s, i) + char_bytes(s[i]),
{
    assert(s.take(i + 1) =~= s.take(i) + seq![s[i]]);
    encode_concat(s.take(i), seq![s[i]]);
    encode_one(s[i]);
}

proof fn byte_at_bound(s: Seq<char>, i: int)
    requires
        0 <= i <= s.len(),
    ensures
        byte_at(s, i) <= encode_utf8(s).len(),
        i <= byte_at(s, i),
    decreases s.len() - i,
{
    assert(s =~= s.take(i) + s.skip(i));
    encode_concat(s.take(i), s.skip(i));
    chars_fit(s.take(i));
}

/// A text has no more characters, line breaks and half as many UTF-16 code
/// units as bytes.
pub proof fn chars_fit(s: Seq<char>)
    ensures
        s.len() <= encode_utf8(s).len(),
        breaks(s) <= encode_utf8(s).len(),
        utf16_units(s) <= encode_utf8(s).len(),
    decreases s.len(),
{
    if s.len() > 0 {
        let t = s.drop_last();
        chars_fit(t);
        assert(s =~= t + seq![s.last()]);
        encode_concat(t, seq![s.last()]);
        encode_one(s.last());
    }
}

proof fn last_line_bounds(s: Seq<char>)
    ensures
        0 <= last_line(s) <= s.len(),
    decreases s.len(),
{
    if s.len() > 0 {
        last_line_bounds(s.drop_last());
    }
}

proof fn units_of_tail(s: Seq<char>, i: int)
    requires
        0 <= i <= s.len(),
    ensures
        utf16_units(s.skip(i)) <= utf16_units(s),
    decreases s.len(),
{
    if s.len() > 0 && i < s.len() {
        units_of_tail(s.drop_last(), i);
        assert(s.skip(i).drop_last() =~= s.drop_last().skip(i));
    } else {
        assert(s.skip(i).len() == 0);
    }
}

/// The place behind a text fits into a position.
pub proof fn place_fits(s: Seq<char>)
    requires
        encode_utf8(s).len() <= u32::MAX,
    ensures
        place_after(s).0 <= u32::MAX,
        place_after(s).1 <= u32::MAX,
{
    chars_fit(s);
    last_line_bounds(s);
    units_of_tail(s, last_line(s));
}

/// A byte offset at a character boundary survives the way to its position and back.
pub proof fn position_round_trip(s: Seq<char>, byte: int)
    requires
        encode_utf8(s).len() <= u32::MAX,
        is_char_boundary(encode_utf8(s), byte),
    ensures
        offset_of(s, position_of(encode_utf8(s), byte)) == Some(byte as nat),
{
    let b = encode_utf8(s);
    encode_utf8_valid_utf8(s);
    boundary_in_range(b, byte);
    valid_utf8_split(b, byte);
    decode_utf8_split(b, byte);
    encode_utf8_decode_utf8(s);
    let p = text_before(b, byte);
    let q = decode_utf8(b.subrange(byte, b.len() as int));
    assert(s == p + q);
    decode_utf8_encode_utf8(b.subrange(0, byte));
    assert(encode_utf8(p) == b.subrange(0, byte));
    place_fits(p);
    let k = p.len() as int;
    assert(s.take(k) =~= p);
    last_line_bounds(p);
    line_start_of_prefix(s, k);
    no_break_after(s, k);
    walk_to(s, last_line(p), k);
    assert(s.subrange(last_line(p), k) =~= p.skip(last_line(p)));
}

/// The last line of a prefix starts where the line of that number starts.
proof fn line_start_of_prefix(s: Seq<char>, k: int)
    requires
        0 <= k <= s.len(),
    ensures
        line_start(s, 0, breaks(s.take(k))) == Some(last_line(s.take(k))),
    decreases k,
{
    if k > 0 {
        let t = s.take(k);
        assert(t.drop_last() =~= s.take(k - 1));
        line_start_of_prefix(s, k - 1);
        if t.last() == '\n' {
            last_line_bounds(s.take(k - 1));
            no_break_after(s, k - 1);
            line_start_skips(s, 0, breaks(s.take(k - 1)), last_line(s.take(k - 1)), k - 1);
        }
    }
}

/// There is no line break between the start of the last line and the end.
proof fn no_break_after(s: Seq<char>, k: int)
    requires
        0 <= k <= s.len(),
    ensures
        forall|i: int| last_line(s.take(k)) <= i < k ==> #[trigger] s[i] != '\n',
    decreases k,
{
    if k > 0 {
        assert(s.take(k).drop_last() =~= s.take(k - 1));
        no_break_after(s, k - 1);
    }
}

/// One line further: the next line starts behind the next line break.
proof fn line_start_skips(s: Seq<char>, i: int, n: nat, j: int, e: int)
    requires
        0 <= i,
        line_start(s, i, n) == Some(j),
        0 <= j <= e < s.len(),
        s[e] == '\n',
        forall|m: int| j <= m < e ==> #[trigger] s[m] != '\n',
    ensures
        line_start(s, i, n + 1) == Some(e + 1),
    decreases s.len() - i,
{
    if n == 0 {
        next_line_start(s, j, e);
    } else if s[i] == '\n' {
        line_start_skips(s, i + 1, (n - 1) as nat, j, e);
    } else {
        line_start_skips(s, i + 1, n, j, e);
    }
}

proof fn next_line_start(s: Seq<char>, j: int, e: int)
    requires
        0 <= j <= e < s.len(),
        s[e] == '\n',
        forall|m: int| j <= m < e ==> #[trigger] s[m] != '\n',
    ensures
        line_start(s, j, 1) == Some(e + 1),
    decreases e - j,
{
    reveal_with_fuel(line_start, 2);
    if j < e {
        next_line_start(s, j + 1, e);
    }
}

/// Walking the units of a stretch ends at its end.
proof fn walk_to(s: Seq<char>, i: int, k: int)
    requires
        0 <= i <= k <= s.len(),
        forall|m: int| i <= m < k ==> #[trigger] s[m] != '\n',
    ensures
        walk_units(s, i, utf16_units(s.subrange(i, k)) as int) == Some(k),
    decreases k - i,
{
    if i < k {
        let t = s.subrange(i, k);
        units_first(t);
        assert(t.drop_first() =~= s.subrange(i + 1, k));
        walk_to(s, i + 1, k);
    } else {
        assert(s.subrange(i, k).len() == 0);
    }
}

proof fn units_first(s: Seq<char>)
    requires
        s.len() > 0,
    ensures
        utf16_units(s) == units(s[0]) + utf16_units(s.drop_first()),
    decreases s.len(),
{
    reveal_with_fuel(utf16_units, 2);
    if s.len() > 1 {
        units_first(s.drop_last());
        assert(s.drop_last().drop_first() =~= s.drop_first().drop_last());
    } else {
        assert(s.drop_last().len() == 0);
        assert(s.drop_first().len() == 0);
    }
}

/// The index behind the line that starts at `i`: that of its line break, or the
/// end of the text.
pub open spec fn line_end(s: Seq<char>, i: int) -> int
    decreases s.len() - i,
{
    if 0 <= i < s.len() && s[i] != '\n' {
        line_end(s, i + 1)
    } else {
        i
    }
}

/// A position has an offset exactly where the text has its line and the line is
/// long enough.
pub proof fn offset_exists_within_lines(s: Seq<char>, pos: Position)
    ensures
        offset_of(s, pos) is Some <==> {
            &&& pos.line <= breaks(s)
            &&& line_start(s, 0, pos.line as nat) matches Some(i) && pos.character
                <= utf16_units(s.subrange(i, line_end(s, i)))
        },
        offset_of(s, pos) matches Some(b) ==> b <= encode_utf8(s).len(),
{
    line_exists(s, 0, pos.line as nat);
    assert(s.skip(0) =~= s);
    if let Some(i) = line_start(s, 0, pos.line as nat) {
        line_start_bounds(s, 0, pos.line as nat);
        walk_bounds(s, i, pos.character as int);
        if let Some(j) = walk_units(s, i, pos.character as int) {
            byte_at_bound(s, j);
        }
    }
}

proof fn breaks_first(s: Seq<char>)
    requires
        s.len() > 0,
    ensures
        breaks(s) == breaks(s.drop_first()) + (if s[0] == '\n' {
            1nat
        } else {
            0nat
        }),
    decreases s.len(),
{
    reveal_with_fuel(breaks, 2);
    if s.len() > 1 {
        breaks_first(s.drop_last());
        assert(s.drop_last().drop_first() =~= s.drop_first().drop_last());
    } else {
        assert(s.drop_last().len() == 0);
        assert(s.drop_first().len() == 0);
    }
}

proof fn line_exists(s: Seq<char>, i: int, n: nat)
    requires
        0 <= i <= s.len(),
    ensures
        line_start(s, i, n) is Some <==> n <= breaks(s.skip(i)),
    decreases s.len() - i,
{
    if n > 0 && i < s.len() {
        breaks_first(s.skip(i));
        assert(s.skip(i).drop_first() =~= s.skip(i + 1));
        if s[i] == '\n' {
            line_exists(s, i + 1, (n - 1) as nat);
        } else {
            line_exists(s, i + 1, n);
        }
    } else if i == s.len() {
        assert(s.skip(i).len() == 0);
    }
}

proof fn line_start_bounds(s: Seq<char>, i: int, n: nat)
    requires
        0 <= i <= s.len(),
    ensures
        line_start(s, i, n) matches Some(j) ==> i <= j <= s.len(),
    decreases s.len() - i,
{
    if n > 0 && i < s.len() {
        if s[i] == '\n' {
            line_start_bounds(s, i + 1, (n - 1) as nat);
        } else {
            line_start_bounds(s, i + 1, n);
        }
    }
}

proof fn walk_bounds(s: Seq<char>, i: int, n: int)
    requires
        0 <= i <= s.len(),
    ensures
        i <= line_end(s, i) <= s.len(),
        walk_units(s, i, n) matches Some(j) ==> i <= j <= line_end(s, i),
        walk_units(s, i, n) is Some <==> n <= utf16_units(s.subrange(i, line_end(s, i))),
    decreases s.len() - i,
{
    if i < s.len() && s[i] != '\n' {
        walk_bounds(s, i + 1, n - units(s[i]));
        let t = s.subrange(i, line_end(s, i));
        units_first(t);
        assert(t.drop_first() =~= s.subrange(i + 1, line_end(s, i)));
    } else {
        assert(s.subrange(i, i).len() == 0);
    }
}

// ── Conversions ─────────────────────────────────────────────────────────────

fn char_width(c: char) -> (r: usize)
    ensures
        r == char_bytes(c),
{
    let u = c as u32;
    if u < 0x80 {
        1
    } else if u < 0x800 {
        2
    } else if u < 0x10000 {
        3
    } else {
        4
    }
}

fn char_units(c: char) -> (r: u64)
    ensures
        r == units(c),
{
    if c as u32 >= 0x10000 {
        2
    } else {
        1
    }
}

/// Number of UTF-16 code units needed to encode the characters from `from` on.
fn utf16_len(chars: &Vec<char>, from: usize) -> (r: u128)
    requires
        from <= chars@.len(),
    ensures
        r == utf16_units(chars@.skip(from as int)),
{
    let ghost tail = chars@.skip(from as int);
    let mut total: u128 = 0;
    let mut i: usize = from;
    while i < chars.len()
        invariant
            from <= i <= chars@.len(),
            tail == chars@.skip(from as int),
            total == utf16_units(tail.take(i - from)),
            total <= 2 * (i - from),
        decreases chars@.len() - i,
    {
        assert(tail.take(i + 1 - from).drop_last() =~= tail.take(i - from));
        total = total + char_units(chars[i]) as u128;
        i = i + 1;
    }
    assert(tail.take(tail.len() as int) =~= tail);
    total
}

/// The start of the character that an offset lies in.
pub fn floor_to_char(text: &str, byte: usize) -> (r: usize)
    ensures
        r == char_start(text.spec_bytes(), byte as int),
        r <= text.spec_bytes().len(),
        is_char_boundary(text.spec_bytes(), r as int),
{
    let n = byte_len(text);
    proof {
        encode_utf8_valid_utf8(text@);
        is_char_boundary_start_end_of_seq(text.spec_bytes());
    }
    if byte >= n {
        return n;
    }
    let mut i: usize = byte;
    while i > 0 && !text.is_char_boundary(i)
        invariant
            i < text.spec_bytes().len(),
            is_char_boundary(text.spec_bytes(), 0),
            char_start(text.spec_bytes(), i as int) == char_start(
                text.spec_bytes(),
                byte as int,
            ),
        decreases i,
    {
        i = i - 1;
    }
    i
}

/// Convert a byte offset in `text` to an LSP Position (UTF-16 character units).
/// An offset inside a character stands for the start of that character, one past
/// the end of the text for its end.
pub fn byte_to_position(text: &str, byte: usize) -> (r: Position)
    ensures
        r == position_of(text.spec_bytes(), byte as int),
{
    let byte = floor_to_char(text, byte);
    proof {
        encode_utf8_valid_utf8(text@);
        is_char_boundary_start_end_of_seq(text.spec_bytes());
    }
    let prefix = slice(text, 0, byte);
    let chars = chars_of(prefix);
    let ghost p = prefix@;
    let mut line: usize = 0;
    let mut start: usize = 0;
    let mut i: usize = 0;
    while i < chars.len()
        invariant
            i <= chars@.len(),
            chars@ == p,
            line == breaks(p.take(i as int)),
            line <= i,
            start == last_line(p.take(i as int)),
            start <= i,
        decreases chars@.len() - i,
    {
        assert(p.take(i + 1).drop_last() =~= p.take(i as int));
        if chars[i] == '\n' {
            line = line + 1;
            start = i + 1;
        }
        i = i + 1;
    }
    assert(p.take(p.len() as int) =~= p);
    // Count UTF-16 code units on the current line
    let character = utf16_len(&chars, start);
    Position { line: line as u32, character: character as u32 }
}

/// Convert an LSP Position to a byte offset in `text`.
/// Returns the byte offset of the start of the character, or None if out of bounds.
pub fn position_to_byte(text: &str, pos: Position) -> (r: Option<usize>)
    ensures
        match r {
            Some(b) => offset_of(text@, pos) == Some(b as nat),
            None => offset_of(text@, pos) is None,
        },
        r matches Some(b) ==> b <= text.spec_bytes().len() && is_char_boundary(
            text.spec_bytes(),
            b as int,
        ),
{
    let chars = chars_of(text);
    let n = byte_len(text);
    let ghost s = text@;
    let mut line: u32 = 0;
    let mut i: usize = 0;
    let mut byte: usize = 0;
    assert(s.take(0) =~= Seq::<char>::empty());
    while i < chars.len() && line < pos.line
        invariant
            i <= chars@.len(),
            chars@ == s,
            n == encode_utf8(s).len(),
            line <= pos.line,
            byte == byte_at(s, i as int),
            line_start(s, i as int, (pos.line - line) as nat) == line_start(
                s,
                0,
                pos.line as nat,
            ),
        decreases chars@.len() - i,
    {
        proof {
            byte_at_next(s, i as int);
            byte_at_bound(s, i + 1);
        }
        byte = byte + char_width(chars[i]);
        if chars[i] == '\n' {
            line = line + 1;
        }
        i = i + 1;
    }
    if line != pos.line {
        return None;
    }
    // Now walk `pos.character` UTF-16 code units along the line
    let ghost start = i as int;
    let mut count: u64 = 0;
    while i < chars.len() && chars[i] != '\n' && count < pos.character as u64
        invariant
            start <= i <= chars@.len(),
            chars@ == s,
            n == encode_utf8(s).len(),
            count <= pos.character + 1,
            byte == byte_at(s, i as int),
            walk_units(s, i as int, pos.character - count) == walk_units(
                s,
                start,
                pos.character as int,
            ),
        decreases chars@.len() - i,
    {
        proof {
            byte_at_next(s, i as int);
            byte_at_bound(s, i + 1);
        }
        byte = byte + char_width(chars[i]);
        count = count + char_units(chars[i]);
        i = i + 1;
    }
    if count < pos.character as u64 {
        return None;
    }
    proof {
        boundary_of_index(s, i as int);
    }
    Some(byte)
}

/// The byte offset of every index is a character boundary.
pub proof fn boundary_of_index(s: Seq<char>, i: int)
    requires
        0 <= i <= s.len(),
    ensures
        is_char_boundary(encode_utf8(s), byte_at(s, i) as int),
        byte_at(s, i) <= encode_utf8(s).len(),
    decreases i,
{
    let b = encode_utf8(s);
    encode_utf8_valid_utf8(s);
    byte_at_bound(s, i);
    if i > 0 {
        let t = s.drop_first();
        boundary_of_index(t, i - 1);
        encode_utf8_first_scalar(s);
        assert(pop_first_scalar(b) =~= encode_utf8(t));
        assert(s.take(i).drop_first() =~= t.take(i - 1));
    } else {
        assert(s.take(0).len() == 0);
        is_char_boundary_start_end_of_seq(b);
    }
}

/// Convert a Span (byte offsets) to an LSP Range.
pub fn span_to_range(text: &str, span: &Span) -> (r: Range)
    ensures
        r == range_of(text.spec_bytes(), *span),
{
    Range {
        start: byte_to_position(text, span.start as usize),
        end: byte_to_position(text, span.end as usize),
    }
}

/// The index of a position among the characters of a text.
pub fn position_to_index(chars: &[char], pos: Position) -> (r: Option<usize>)
    ensures
        match r {
            Some(i) => index_at(chars@, pos) == Some(i as int) && i <= chars@.len(),
            None => index_at(chars@, pos) is None,
        },
{
    let mut line: u32 = pos.line;
    let mut i: usize = 0;
    while i < chars.len() && line > 0
        invariant
            i <= chars@.len(),
            line_start(chars@, i as int, line as nat) == line_start(chars@, 0, pos.line as nat),
        decreases chars@.len() - i,
    {
        if chars[i] == '\n' {
            line = line - 1;
        }
        i = i + 1;
    }
    if line > 0 {
        return None;
    }
    let ghost start = i as int;
    let mut left: u32 = pos.character;
    let mut over: bool = false;
    while i < chars.len() && chars[i] != '\n' && left > 0 && !over
        invariant
            0 <= start <= i <= chars@.len(),
            over ==> left == 0,
            walk_units(
                chars@,
                i as int,
                if over {
                    -1
                } else {
                    left as int
                },
            ) == walk_units(chars@, start, pos.character as int),
        decreases chars@.len() - i,
    {
        let n = char_units(chars[i]);
        if n as u32 > left {
            left = 0;
            over = true;
        } else {
            left = left - n as u32;
        }
        i = i + 1;
    }
    if left > 0 {
        return None;
    }
    Some(i)
}

// ── Order ───────────────────────────────────────────────────────────────────

/// The first place is not behind the second.
pub open spec fn not_behind(p: Position, q: Position) -> bool {
    p.line < q.line || (p.line == q.line && p.character <= q.character)
}

proof fn char_start_order(b: Seq<u8>, x: int, y: int)
    requires
        valid_utf8(b),
        0 <= x <= y,
    ensures
        0 <= char_start(b, x) <= char_start(b, y) <= b.len(),
        is_char_boundary(b, char_start(b, x)),
        char_start(b, x) <= x,
    decreases y, x,
{
    is_char_boundary_start_end_of_seq(b);
    if x < b.len() && x > 0 && !is_char_boundary(b, x) {
        char_start_order(b, x - 1, x - 1);
        if x < y {
            char_start_order(b, x, y - 1);
        }
    } else if x < y {
        char_start_order(b, x, y - 1);
        if y < b.len() && !is_char_boundary(b, y) {
        } else if y >= b.len() {
        } else {
            char_start_small(b, y - 1);
        }
    }
}

proof fn char_start_small(b: Seq<u8>, x: int)
    requires
        0 <= x < b.len(),
    ensures
        char_start(b, x) <= x,
    decreases x,
{
    if x > 0 && !is_char_boundary(b, x) {
        char_start_small(b, x - 1);
    }
}

/// What is read later in a text does not stand before what is read earlier.
proof fn place_order(p: Seq<char>, q: Seq<char>)
    requires
        p.is_prefix_of(q),
    ensures
        breaks(p) <= breaks(q),
        breaks(p) == breaks(q) ==> place_after(p).1 <= place_after(q).1,
    decreases q.len(),
{
    if p.len() < q.len() {
        let t = q.drop_last();
        assert(p =~= t.subrange(0, p.len() as int));
        place_order(p, t);
        last_line_bounds(t);
        if q.last() != '\n' {
            assert(q.skip(last_line(q)).drop_last() =~= t.skip(last_line(t)));
        }
    } else {
        assert(p =~= q);
    }
}

/// The position of an offset is not behind the position of a later offset.
pub proof fn positions_in_order(b: Seq<u8>, x: int, y: int)
    requires
        valid_utf8(b),
        b.len() <= u32::MAX,
        0 <= x <= y,
    ensures
        not_behind(position_of(b, x), position_of(b, y)),
{
    let i = char_start(b, x);
    let j = char_start(b, y);
    char_start_order(b, x, y);
    char_start_order(b, y, y);
    let p = text_before(b, i);
    let q = text_before(b, j);
    let u = b.subrange(0, j);
    valid_utf8_split(b, j);
    crate::strings::boundary_in_tail(b, i, j);
    if i == j {
        is_char_boundary_start_end_of_seq(u);
    } else {
        is_char_boundary_iff_not_is_continuation_byte(b, i);
        assert(u[i] == b[i]);
        is_char_boundary_iff_not_is_continuation_byte(u, i);
    }
    decode_utf8_split(u, i);
    assert(u.subrange(0, i) =~= b.subrange(0, i));
    assert(q == p + decode_utf8(u.subrange(i, j)));
    assert(p =~= q.subrange(0, p.len() as int));
    place_order(p, q);
    valid_utf8_split(b, i);
    decode_utf8_encode_utf8(b.subrange(0, i));
    decode_utf8_encode_utf8(u);
    place_fits(p);
    place_fits(q);
}

} // verus!
