//! Number literals. A literal is kept as the plain parts that determine its
//! value; turning the parts into a floating-point number is left to the caller.
use vstd::prelude::*;

use crate::strings::{same, text_of};

verus! {

/// The value of a number literal, as written in the source.
#[derive(Debug, Clone, PartialEq, Eq)]
pub enum Number {
    /// `0x` followed by hexadecimal digits.
    HexInt { negative: bool, magnitude: u64 },
    /// A hexadecimal float: `(int_part + frac_part / 16^frac_digits) * 2^exponent`.
    HexFloat { negative: bool, int_part: u64, frac_part: u64, frac_digits: usize, exponent: i32 },
    /// `.nan`, with or without a sign.
    Nan,
    /// `.inf`, with or without a sign.
    Inf { negative: bool },
    /// A decimal literal: its text without the `_` separators.
    Decimal(String),
}

/// The model of a [`Number`].
#[verifier::ext_equal]
pub ghost enum NumberView {
    HexInt { negative: bool, magnitude: u64 },
    HexFloat { negative: bool, int_part: u64, frac_part: u64, frac_digits: nat, exponent: i32 },
    Nan,
    Inf { negative: bool },
    Decimal(Seq<char>),
}

impl View for Number {
    type V = NumberView;

    open spec fn view(&self) -> NumberView {
        match *self {
            Number::HexInt { negative, magnitude } => NumberView::HexInt { negative, magnitude },
            Number::HexFloat { negative, int_part, frac_part, frac_digits, exponent } =>
                NumberView::HexFloat {
                negative,
                int_part,
                frac_part,
                frac_digits: frac_digits as nat,
                exponent,
            },
            Number::Nan => NumberView::Nan,
            Number::Inf { negative } => NumberView::Inf { negative },
            Number::Decimal(s) => NumberView::Decimal(s@),
        }
    }
}

impl Number {
    /// A copy of the literal.
    pub fn dup(&self) -> (r: Number)
        ensures
            r@ == self@,
            r == *self,
    {
        match self {
            Number::HexInt { negative, magnitude } => Number::HexInt {
                negative: *negative,
                magnitude: *magnitude,
            },
            Number::HexFloat { negative, int_part, frac_part, frac_digits, exponent } =>
                Number::HexFloat {
                negative: *negative,
                int_part: *int_part,
                frac_part: *frac_part,
                frac_digits: *frac_digits,
                exponent: *exponent,
            },
            Number::Nan => Number::Nan,
            Number::Inf { negative } => Number::Inf { negative: *negative },
            Number::Decimal(s) => Number::Decimal(s.clone()),
        }
    }
}

// ── Digits ──────────────────────────────────────────────────────────────────

pub open spec fn is_digit(c: char) -> bool {
    '0' <= c <= '9'
}

pub open spec fn is_hex_digit(c: char) -> bool {
    ('0' <= c <= '9') || ('a' <= c <= 'f') || ('A' <= c <= 'F')
}

pub open spec fn all_digits(s: Seq<char>) -> bool {
    forall|i: int| 0 <= i < s.len() ==> is_digit(#[trigger] s[i])
}

pub open spec fn all_hex_digits(s: Seq<char>) -> bool {
    forall|i: int| 0 <= i < s.len() ==> is_hex_digit(#[trigger] s[i])
}

/// The value of a hexadecimal digit.
pub open spec fn hex_value(c: char) -> nat {
    if '0' <= c <= '9' {
        (c as int - '0' as int) as nat
    } else if 'a' <= c <= 'f' {
        (c as int - 'a' as int + 10) as nat
    } else {
        (c as int - 'A' as int + 10) as nat
    }
}

/// The number that the digits spell in base 16.
pub open spec fn hex_number(d: Seq<char>) -> nat
    decreases d.len(),
{
    if d.len() == 0 {
        0
    } else {
        hex_number(d.drop_last()) * 16 + hex_value(d.last())
    }
}

/// The number that the digits spell in base 10.
pub open spec fn dec_number(d: Seq<char>) -> nat
    decreases d.len(),
{
    if d.len() == 0 {
        0
    } else {
        dec_number(d.drop_last()) * 10 + (d.last() as int - '0' as int) as nat
    }
}

/// A 64-bit hexadecimal integer: an optional `+`, at least one digit, no overflow.
pub open spec fn hex_u64(s: Seq<char>) -> Option<u64> {
    let d = if s.len() > 1 && s[0] == '+' {
        s.skip(1)
    } else {
        s
    };
    if d.len() > 0 && all_hex_digits(d)
        && hex_number(d) <= u64::MAX {
        Some(hex_number(d) as u64)
    } else {
        None
    }
}

/// A 32-bit decimal integer: an optional sign, at least one digit, no overflow.
pub open spec fn dec_i32(s: Seq<char>) -> Option<i32> {
    let negative = s.len() > 0 && s[0] == '-';
    let d = if s.len() > 0 && (s[0] == '+' || s[0] == '-') {
        s.skip(1)
    } else {
        s
    };
    let value = if negative {
        -(dec_number(d) as int)
    } else {
        dec_number(d) as int
    };
    if d.len() > 0 && all_digits(d) && i32::MIN
        <= value <= i32::MAX {
        Some(value as i32)
    } else {
        None
    }
}

proof fn hex_number_grows(d: Seq<char>, n: int)
    requires
        0 <= n <= d.len(),
    ensures
        hex_number(d.take(n)) <= hex_number(d),
    decreases d.len() - n,
{
    if n < d.len() {
        hex_number_grows(d, n + 1);
        assert(d.take(n + 1).drop_last() =~= d.take(n));
    } else {
        assert(d.take(n) =~= d);
    }
}

proof fn dec_number_grows(d: Seq<char>, n: int)
    requires
        0 <= n <= d.len(),
    ensures
        dec_number(d.take(n)) <= dec_number(d),
    decreases d.len() - n,
{
    if n < d.len() {
        dec_number_grows(d, n + 1);
        assert(d.take(n + 1).drop_last() =~= d.take(n));
    } else {
        assert(d.take(n) =~= d);
    }
}

fn parse_hex_u64(s: &[char]) -> (r: Option<u64>)
    ensures
        r == hex_u64(s@),
{
    let start: usize = if s.len() > 1 && s[0] == '+' {
        1
    } else {
        0
    };
    let ghost d = s@.skip(start as int);
    assert(start == 0 ==> d =~= s@);
    if s.len() == start {
        return None;
    }
    let mut value: u64 = 0;
    let mut i: usize = start;
    while i < s.len()
        invariant
            start <= i <= s.len(),
            d == s@.skip(start as int),
            start == 0 ==> d == s@,
            start == 1 ==> s.len() > 1 && s@[0] == '+',
            start == 0 ==> !(s.len() > 1 && s@[0] == '+'),
            start <= 1,
            value == hex_number(d.take(i - start)),
            forall|j: int| 0 <= j < i - start ==> is_hex_digit(#[trigger] d[j]),
        decreases s.len() - i,
    {
        let c = s[i];
        assert(d[i - start] == c);
        let v: u64 = if c >= '0' && c <= '9' {
            (c as u32 - '0' as u32) as u64
        } else if c >= 'a' && c <= 'f' {
            (c as u32 - 'a' as u32 + 10) as u64
        } else if c >= 'A' && c <= 'F' {
            (c as u32 - 'A' as u32 + 10) as u64
        } else {
            assert(!is_hex_digit(d[i - start]));
            assert(!all_hex_digits(d));
            return None;
        };
        assert(d.take(i + 1 - start).drop_last() =~= d.take(i - start));
        proof {
            hex_number_grows(d, i + 1 - start);
        }
        if value > (u64::MAX - v) / 16 {
            assert(value as int * 16 + v as int > u64::MAX as int);
            assert(hex_number(d) > u64::MAX);
            return None;
        }
        value = value * 16 + v;
        i = i + 1;
    }
    assert(d.take(d.len() as int) =~= d);
    Some(value)
}

fn parse_dec_i32(s: &[char]) -> (r: Option<i32>)
    ensures
        r == dec_i32(s@),
{
    if s.len() == 0 {
        return None;
    }
    let negative = s[0] == '-';
    let start: usize = if s[0] == '+' || s[0] == '-' {
        1
    } else {
        0
    };
    let ghost d = s@.skip(start as int);
    assert(start == 0 ==> d =~= s@);
    if s.len() == start {
        return None;
    }
    let limit: u64 = if negative {
        2147483648
    } else {
        2147483647
    };
    let mut value: u64 = 0;
    let mut i: usize = start;
    while i < s.len()
        invariant
            0 < s.len(),
            start <= i <= s.len(),
            d == s@.skip(start as int),
            start == 0 ==> d == s@,
            start <= 1,
            start == 1 <==> (s@[0] == '+' || s@[0] == '-'),
            negative == (s@[0] == '-'),
            limit == (if negative { 2147483648u64 } else { 2147483647u64 }),
            value == dec_number(d.take(i - start)),
            value <= limit,
            forall|j: int| 0 <= j < i - start ==> is_digit(#[trigger] d[j]),
        decreases s.len() - i,
    {
        let c = s[i];
        assert(d[i - start] == c);
        if !(c >= '0' && c <= '9') {
            assert(!is_digit(d[i - start]));
            assert(!all_digits(d));
            return None;
        }
        let v: u64 = (c as u32 - '0' as u32) as u64;
        assert(d.take(i + 1 - start).drop_last() =~= d.take(i - start));
        proof {
            dec_number_grows(d, i + 1 - start);
        }
        if value * 10 + v > limit {
            return None;
        }
        value = value * 10 + v;
        i = i + 1;
    }
    assert(d.take(d.len() as int) =~= d);
    if negative {
        Some((-(value as i64)) as i32)
    } else {
        Some(value as i32)
    }
}

// ── Literals ────────────────────────────────────────────────────────────────

/// The text without its `_` separators.
pub open spec fn without_separators(s: Seq<char>) -> Seq<char>
    decreases s.len(),
{
    if s.len() == 0 {
        s
    } else if s.last() == '_' {
        without_separators(s.drop_last())
    } else {
        without_separators(s.drop_last()).push(s.last())
    }
}

fn strip_separators(s: &[char]) -> (r: Vec<char>)
    ensures
        r@ == without_separators(s@),
        r@.len() <= s@.len(),
{
    let mut out: Vec<char> = Vec::new();
    let mut i: usize = 0;
    while i < s.len()
        invariant
            i <= s.len(),
            out@ == without_separators(s@.take(i as int)),
            out@.len() <= i,
        decreases s.len() - i,
    {
        assert(s@.take(i + 1).drop_last() =~= s@.take(i as int));
        if s[i] != '_' {
            out.push(s[i]);
        }
        i = i + 1;
    }
    assert(s@.take(s.len() as int) =~= s@);
    out
}

/// The first index at or after `i` whose character is not a decimal digit.
pub open spec fn digits_end(s: Seq<char>, i: int) -> int
    decreases s.len() - i,
{
    if 0 <= i < s.len() && is_digit(s[i]) {
        digits_end(s, i + 1)
    } else {
        i
    }
}

/// The index after an optional sign at `i`.
pub open spec fn after_sign(s: Seq<char>, i: int) -> int {
    if 0 <= i < s.len() && (s[i] == '+' || s[i] == '-') {
        i + 1
    } else {
        i
    }
}

/// A decimal floating-point literal: an optional sign; digits with at most one
/// point among them and at least one digit; an optional exponent. Bare `nan`,
/// `inf` and `infinity` are names, in either case.
pub open spec fn is_decimal(s: Seq<char>) -> bool {
    let i = after_sign(s, 0);
    let a = digits_end(s, i);
    let point = a < s.len() && s[a] == '.';
    let b = if point {
        digits_end(s, a + 1)
    } else {
        a
    };
    let count = if point {
        b - i - 1
    } else {
        b - i
    };
    let j = after_sign(s, b + 1);
    let k = digits_end(s, j);
    count > 0 && (b == s.len() || ((s[b] == 'e' || s[b] == 'E') && k > j && k == s.len()))
}

proof fn digits_end_bounds(s: Seq<char>, i: int)
    requires
        0 <= i <= s.len(),
    ensures
        i <= digits_end(s, i) <= s.len(),
    decreases s.len() - i,
{
    if i < s.len() && is_digit(s[i]) {
        digits_end_bounds(s, i + 1);
    }
}

pub(crate) fn skip_digits(s: &[char], from: usize) -> (r: usize)
    requires
        from <= s.len(),
    ensures
        r == digits_end(s@, from as int),
        from <= r <= s.len(),
{
    let mut i = from;
    while i < s.len() && s[i] >= '0' && s[i] <= '9'
        invariant
            from <= i <= s.len(),
            digits_end(s@, i as int) == digits_end(s@, from as int),
        decreases s.len() - i,
    {
        i = i + 1;
    }
    i
}

fn skip_sign(s: &[char], from: usize) -> (r: usize)
    requires
        from <= s.len(),
    ensures
        r == after_sign(s@, from as int),
        from <= r <= s.len(),
{
    if from < s.len() && (s[from] == '+' || s[from] == '-') {
        from + 1
    } else {
        from
    }
}

fn decimal_literal(s: &[char]) -> (r: bool)
    ensures
        r == is_decimal(s@),
{
    let i = skip_sign(s, 0);
    let a = skip_digits(s, i);
    let point = a < s.len() && s[a] == '.';
    let b: usize = if point {
        skip_digits(s, a + 1)
    } else {
        a
    };
    let count: usize = if point {
        b - i - 1
    } else {
        b - i
    };
    if count == 0 {
        return false;
    }
    if b == s.len() {
        return true;
    }
    if s[b] != 'e' && s[b] != 'E' {
        return false;
    }
    let j = skip_sign(s, b + 1);
    let k = skip_digits(s, j);
    k > j && k == s.len()
}

/// The first index at or after `i` that holds one of two characters, or the length.
pub open spec fn find_either(s: Seq<char>, i: int, x: char, y: char) -> int
    decreases s.len() - i,
{
    if 0 <= i < s.len() && s[i] != x && s[i] != y {
        find_either(s, i + 1, x, y)
    } else {
        i
    }
}

fn position_of(s: &[char], x: char, y: char) -> (r: usize)
    ensures
        r == find_either(s@, 0, x, y),
        r <= s.len(),
        r < s.len() ==> s@[r as int] == x || s@[r as int] == y,
{
    let mut i: usize = 0;
    while i < s.len() && s[i] != x && s[i] != y
        invariant
            i <= s.len(),
            find_either(s@, i as int, x, y) == find_either(s@, 0, x, y),
        decreases s.len() - i,
    {
        i = i + 1;
    }
    i
}

/// A hexadecimal float without its `0x`: a mantissa with an optional point, and
/// an optional decimal exponent after `p` or `P`.
pub open spec fn hex_float(s: Seq<char>, negative: bool) -> Option<NumberView> {
    let p = find_either(s, 0, 'p', 'P');
    let mantissa = s.take(p);
    let exponent = if p < s.len() {
        dec_i32(s.skip(p + 1))
    } else {
        Some(0i32)
    };
    let d = find_either(mantissa, 0, '.', '.');
    let int_s = mantissa.take(d);
    let frac_s = if d < mantissa.len() {
        mantissa.skip(d + 1)
    } else {
        Seq::empty()
    };
    let int_part = if int_s.len() == 0 {
        Some(0u64)
    } else {
        hex_u64(int_s)
    };
    let frac_part = if frac_s.len() == 0 {
        Some(0u64)
    } else {
        hex_u64(frac_s)
    };
    if int_s.len() == 0 && frac_s.len() == 0 {
        None
    } else {
        match (int_part, frac_part, exponent) {
            (Some(i), Some(f), Some(e)) => Some(
                NumberView::HexFloat {
                    negative,
                    int_part: i,
                    frac_part: f,
                    frac_digits: frac_s.len(),
                    exponent: e,
                },
            ),
            _ => None,
        }
    }
}

fn parse_hex_float(s: &[char], negative: bool) -> (r: Option<Number>)
    ensures
        match r {
            Some(n) => hex_float(s@, negative) == Some(n@),
            None => hex_float(s@, negative) is None,
        },
{
    let p = position_of(s, 'p', 'P');
    let mantissa = vstd::slice::slice_subrange(s, 0, p);
    assert(mantissa@ =~= s@.take(p as int));
    let exponent: Option<i32> = if p < s.len() {
        let rest = vstd::slice::slice_subrange(s, p + 1, s.len());
        assert(rest@ =~= s@.skip(p + 1));
        parse_dec_i32(rest)
    } else {
        Some(0)
    };
    let d = position_of(mantissa, '.', '.');
    let int_s = vstd::slice::slice_subrange(mantissa, 0, d);
    assert(int_s@ =~= mantissa@.take(d as int));
    let from: usize = if d < mantissa.len() {
        d + 1
    } else {
        mantissa.len()
    };
    let frac_s = vstd::slice::slice_subrange(mantissa, from, mantissa.len());
    assert(d < mantissa@.len() ==> frac_s@ =~= mantissa@.skip(d + 1));
    assert(d >= mantissa@.len() ==> frac_s@ =~= Seq::<char>::empty());
    if int_s.len() == 0 && frac_s.len() == 0 {
        return None;
    }
    let int_part = if int_s.len() == 0 {
        Some(0)
    } else {
        parse_hex_u64(int_s)
    };
    let frac_part = if frac_s.len() == 0 {
        Some(0)
    } else {
        parse_hex_u64(frac_s)
    };
    match (int_part, frac_part, exponent) {
        (Some(i), Some(f), Some(e)) => Some(
            Number::HexFloat {
                negative,
                int_part: i,
                frac_part: f,
                frac_digits: frac_s.len(),
                exponent: e,
            },
        ),
        _ => None,
    }
}

/// A hexadecimal literal with an optional sign: an integer if the digits are
/// one, else a hexadecimal float.
pub open spec fn hex_literal(s: Seq<char>) -> Option<NumberView> {
    let i = after_sign(s, 0);
    let negative = s.len() > 0 && s[0] == '-';
    if s.len() >= i + 2 && s[i] == '0' && (s[i + 1] == 'x' || s[i + 1] == 'X') {
        let digits = without_separators(s.skip(i + 2));
        match hex_u64(digits) {
            Some(n) => Some(NumberView::HexInt { negative, magnitude: n }),
            None => hex_float(digits, negative),
        }
    } else {
        None
    }
}

fn parse_hex_literal(s: &[char]) -> (r: Option<Number>)
    ensures
        match r {
            Some(n) => hex_literal(s@) == Some(n@),
            None => hex_literal(s@) is None,
        },
{
    let i = skip_sign(s, 0);
    let negative = s.len() > 0 && s[0] == '-';
    if s.len() - i >= 2 && s[i] == '0' && (s[i + 1] == 'x' || s[i + 1] == 'X') {
        let rest = vstd::slice::slice_subrange(s, i + 2, s.len());
        assert(rest@ =~= s@.skip(i + 2));
        let digits = strip_separators(rest);
        match parse_hex_u64(&digits) {
            Some(n) => Some(Number::HexInt { negative, magnitude: n }),
            None => parse_hex_float(&digits, negative),
        }
    } else {
        None
    }
}

/// The number that an atom spells, if it spells one.
pub open spec fn number_literal(s: Seq<char>) -> Option<NumberView> {
    let clean = without_separators(s);
    if hex_literal(s) is Some {
        hex_literal(s)
    } else if clean == ".nan"@ || clean == "+.nan"@ || clean == "-.nan"@ {
        Some(NumberView::Nan)
    } else if clean == ".inf"@ || clean == "+.inf"@ {
        Some(NumberView::Inf { negative: false })
    } else if clean == "-.inf"@ {
        Some(NumberView::Inf { negative: true })
    } else if is_decimal(clean) {
        Some(NumberView::Decimal(clean))
    } else {
        None
    }
}

/// Reads an atom as a number literal.
pub fn parse_number(s: &[char]) -> (r: Option<Number>)
    ensures
        match r {
            Some(n) => number_literal(s@) == Some(n@),
            None => number_literal(s@) is None,
        },
{
    if let Some(n) = parse_hex_literal(s) {
        return Some(n);
    }
    let clean = strip_separators(s);
    let text = text_of(&clean);
    if same(&text, ".nan") || same(&text, "+.nan") || same(&text, "-.nan") {
        return Some(Number::Nan);
    }
    if same(&text, ".inf") || same(&text, "+.inf") {
        return Some(Number::Inf { negative: false });
    }
    if same(&text, "-.inf") {
        return Some(Number::Inf { negative: true });
    }
    // Bare nan/inf variants are names, whatever their case: no digit stands in them.
    if decimal_literal(&clean) {
        return Some(Number::Decimal(text));
    }
    None
}

} // verus!
