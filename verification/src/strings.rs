//! Small string helpers shared by the other modules, stated over the
//! characters (`s@`) and the UTF-8 bytes (`s.spec_bytes()`) of a string.
use vstd::prelude::*;
use vstd::string::*;
use vstd::utf8::*;

verus! {

/// `String::push` appends one character to the text.
pub assume_specification[ String::push ](s: &mut String, c: char)
    ensures
        final(s)@ == old(s)@.push(c),
;

/// `char::from_u32` yields the character of a code point, and nothing where the
/// code is not that of a character (a surrogate, or past the last code point).
pub assume_specification[ char::from_u32 ](code: u32) -> (r: Option<char>)
    ensures
        r == (if is_scalar(code) { Some(code as char) } else { None }),
;

/// Wraps `std::str::from_utf8`: it accepts exactly the byte sequences that are
/// valid UTF-8, and the text it yields is the decoding of those bytes.
#[verifier::external_body]
pub(crate) fn utf8_text(bytes: &[u8]) -> (r: Option<String>)
    ensures
        r is Some <==> valid_utf8(bytes@),
        r matches Some(s) ==> s@ == decode_utf8(bytes@),
{
    std::str::from_utf8(bytes).ok().map(|s| s.to_owned())
}

/// Two strings are equal when they hold the same characters.
pub fn same(a: &str, b: &str) -> (r: bool)
    ensures
        r == (a@ == b@),
{
    broadcast use {encode_utf8_decode_utf8, encode_utf8_valid_utf8};

    let x = a.as_bytes();
    let y = b.as_bytes();
    if x.len() != y.len() {
        return false;
    }
    let mut i: usize = 0;
    while i < x.len()
        invariant
            i <= x.len(),
            x.len() == y.len(),
            x@ == a.spec_bytes(),
            y@ == b.spec_bytes(),
            forall|j: int| 0 <= j < i ==> x@[j] == y@[j],
        decreases x.len() - i,
    {
        if x[i] != y[i] {
            return false;
        }
        i = i + 1;
    }
    assert(x@ =~= y@);
    assert(decode_utf8(a.spec_bytes()) == a@);
    assert(decode_utf8(b.spec_bytes()) == b@);
    true
}

/// The characters of a string, as a vector.
pub fn chars_of(s: &str) -> (r: Vec<char>)
    ensures
        r@ == s@,
{
    let mut out: Vec<char> = Vec::new();
    for c in it: s.chars()
        invariant
            out@ == it.seq().take(it.index()),
            it.seq() == s@,
    {
        out.push(c);
    }
    out
}

/// The string made of the given characters.
pub fn text_of(chars: &[char]) -> (r: String)
    ensures
        r@ == chars@,
{
    let mut out = String::new();
    let mut i: usize = 0;
    while i < chars.len()
        invariant
            i <= chars.len(),
            out@ == chars@.take(i as int),
        decreases chars.len() - i,
    {
        out.push(chars[i]);
        i = i + 1;
        assert(out@ =~= chars@.take(i as int));
    }
    assert(chars@.take(chars.len() as int) =~= chars@);
    out
}

/// The length of a string in bytes.
pub fn byte_len(s: &str) -> (r: usize)
    ensures
        r == s.spec_bytes().len(),
{
    s.as_bytes().len()
}

/// The byte after an ASCII byte of a valid text starts a character (or ends the text).
pub proof fn boundary_after_ascii(b: Seq<u8>, i: int)
    requires
        valid_utf8(b),
        0 <= i < b.len(),
        b[i] < 0x80,
    ensures
        is_char_boundary(b, i),
        is_char_boundary(b, i + 1),
    decreases b.len(),
{
    is_char_boundary_iff_is_leading_byte(b, i);
    if i == 0 {
        is_char_boundary_start_end_of_seq(pop_first_scalar(b));
        assert(length_of_first_scalar(b) == 1);
        reveal_with_fuel(is_char_boundary, 2);
    } else {
        let n = length_of_first_scalar(b);
        assert(i >= n);
        let t = pop_first_scalar(b);
        assert(t[i - n] == b[i]);
        boundary_after_ascii(t, i - n);
    }
}

/// The end of a text, and every ASCII byte of it, are character boundaries.
pub proof fn boundary_at_stop(b: Seq<u8>, i: int)
    requires
        valid_utf8(b),
        0 <= i <= b.len(),
        i == b.len() || b[i] < 0x80,
    ensures
        is_char_boundary(b, i),
{
    if i == b.len() {
        is_char_boundary_start_end_of_seq(b);
    } else {
        is_char_boundary_iff_is_leading_byte(b, i);
    }
}

/// Character boundaries lie inside the text.
pub proof fn boundary_in_range(b: Seq<u8>, i: int)
    requires
        valid_utf8(b),
        is_char_boundary(b, i),
    ensures
        0 <= i <= b.len(),
    decreases b.len(),
{
    if i != 0 && 0 <= i <= b.len() {
        boundary_in_range(pop_first_scalar(b), i - length_of_first_scalar(b));
    }
}

/// A boundary of the whole text is a boundary of what follows an earlier boundary.
pub proof fn boundary_in_tail(b: Seq<u8>, i: int, j: int)
    requires
        valid_utf8(b),
        is_char_boundary(b, i),
        is_char_boundary(b, j),
        i <= j,
    ensures
        0 <= i <= j <= b.len(),
        valid_utf8(b.subrange(i, b.len() as int)),
        is_char_boundary(b.subrange(i, b.len() as int), j - i),
{
    boundary_in_range(b, i);
    boundary_in_range(b, j);
    valid_utf8_split(b, i);
    let t = b.subrange(i, b.len() as int);
    if j == b.len() {
        is_char_boundary_start_end_of_seq(t);
    } else {
        is_char_boundary_iff_not_is_continuation_byte(b, j);
        assert(t[j - i] == b[j]);
        is_char_boundary_iff_not_is_continuation_byte(t, j - i);
    }
}

/// What stands between two character boundaries of a valid text is valid itself.
pub proof fn valid_between(b: Seq<u8>, i: int, j: int)
    requires
        valid_utf8(b),
        is_char_boundary(b, i),
        is_char_boundary(b, j),
        i <= j,
    ensures
        0 <= i <= j <= b.len(),
        valid_utf8(b.subrange(i, j)),
{
    boundary_in_tail(b, i, j);
    let t = b.subrange(i, b.len() as int);
    valid_utf8_split(t, j - i);
    assert(t.subrange(0, j - i) =~= b.subrange(i, j));
}

/// The text between two byte offsets of `s`, both on character boundaries.
pub fn slice<'a>(s: &'a str, from: usize, to: usize) -> (r: &'a str)
    requires
        from <= to,
        is_char_boundary(s.spec_bytes(), from as int),
        is_char_boundary(s.spec_bytes(), to as int),
    ensures
        to <= s.spec_bytes().len(),
        r.spec_bytes() == s.spec_bytes().subrange(from as int, to as int),
        r@ == decode_utf8(s.spec_bytes().subrange(from as int, to as int)),
{
    broadcast use {encode_utf8_decode_utf8, encode_utf8_valid_utf8};

    let ghost b = s.spec_bytes();
    proof {
        boundary_in_tail(b, from as int, to as int);
    }
    let (_, tail) = s.split_at(from);
    let (mid, _) = tail.split_at(to - from);
    assert(mid.spec_bytes() =~= b.subrange(from as int, to as int));
    assert(mid@ == decode_utf8(mid.spec_bytes()));
    mid
}

// ── Numbers as text ─────────────────────────────────────────────────────────

/// The digit of a number below ten.
pub open spec fn digit_char(n: nat) -> char {
    (('0' as u32) + n) as char
}

/// The decimal digits of a number.
pub open spec fn decimal(n: nat) -> Seq<char>
    decreases n,
{
    if n < 10 {
        seq![digit_char(n)]
    } else {
        decimal(n / 10).push(digit_char(n % 10))
    }
}

/// Appends the decimal digits of a number.
pub fn push_decimal(out: &mut String, n: u128)
    ensures
        final(out)@ == old(out)@ + decimal(n as nat),
    decreases n,
{
    let ghost o = out@;
    if n >= 10 {
        push_decimal(out, n / 10);
    }
    let d = (n % 10) as u8;
    out.push((48 + d) as char);
    assert(out@ =~= o + decimal(n as nat));
}

// ── Multisyms ───────────────────────────────────────────────────────────────

/// The characters between the parts of a multisym like `a.b.c` or `a:method`.
pub open spec fn is_joint(c: char) -> bool {
    c == '.' || c == ':'
}

/// The first index at or after `i` that holds no joint.
pub open spec fn part_start(s: Seq<char>, i: int) -> int
    decreases s.len() - i,
{
    if 0 <= i < s.len() && is_joint(s[i]) {
        part_start(s, i + 1)
    } else {
        i
    }
}

/// The first index at or after `i` that holds a joint, or the length.
pub open spec fn part_end(s: Seq<char>, i: int) -> int
    decreases s.len() - i,
{
    if 0 <= i < s.len() && !is_joint(s[i]) {
        part_end(s, i + 1)
    } else {
        i
    }
}

/// The first part of a multisym; a name that is all joints (like `..`) is its own root.
pub open spec fn root_of(s: Seq<char>) -> Seq<char> {
    let i = part_start(s, 0);
    if i < s.len() {
        s.subrange(i, part_end(s, i))
    } else {
        s
    }
}

/// The root of a multisym is its first part that is not empty: only joints stand
/// before it, it holds none, and a joint or nothing follows it.
pub proof fn root_is_first_part(s: Seq<char>)
    ensures
        (forall|k: int| 0 <= k < s.len() ==> is_joint(#[trigger] s[k])) ==> root_of(s) == s,
        !(forall|k: int| 0 <= k < s.len() ==> is_joint(#[trigger] s[k])) ==> {
            let i = part_start(s, 0);
            let e = part_end(s, i);
            &&& 0 <= i < e <= s.len()
            &&& root_of(s) == s.subrange(i, e)
            &&& forall|k: int| 0 <= k < i ==> is_joint(#[trigger] s[k])
            &&& forall|k: int| i <= k < e ==> !is_joint(#[trigger] s[k])
            &&& e < s.len() ==> is_joint(s[e])
        },
{
    part_start_skips(s, 0);
    part_end_skips(s, part_start(s, 0));
}

proof fn part_start_skips(s: Seq<char>, i: int)
    requires
        0 <= i <= s.len(),
    ensures
        i <= part_start(s, i) <= s.len(),
        forall|k: int| i <= k < part_start(s, i) ==> is_joint(#[trigger] s[k]),
        part_start(s, i) < s.len() ==> !is_joint(s[part_start(s, i)]),
    decreases s.len() - i,
{
    if i < s.len() && is_joint(s[i]) {
        part_start_skips(s, i + 1);
    }
}

/// The end of a part lies behind characters that are no joints.
pub proof fn part_end_skips(s: Seq<char>, i: int)
    requires
        0 <= i <= s.len(),
    ensures
        i <= part_end(s, i) <= s.len(),
        i < s.len() && !is_joint(s[i]) ==> i < part_end(s, i),
        forall|k: int| i <= k < part_end(s, i) ==> !is_joint(#[trigger] s[k]),
        part_end(s, i) < s.len() ==> is_joint(s[part_end(s, i)]),
    decreases s.len() - i,
{
    if i < s.len() && !is_joint(s[i]) {
        part_end_skips(s, i + 1);
    }
}

/// The first part of a multisym.
pub fn root(name: &str) -> (r: String)
    ensures
        r@ == root_of(name@),
{
    let chars = chars_of(name);
    let n = chars.len();
    let mut i: usize = 0;
    while i < n && (chars[i] == '.' || chars[i] == ':')
        invariant
            n == chars@.len(),
            i <= n,
            part_start(chars@, i as int) == part_start(chars@, 0),
        decreases n - i,
    {
        i = i + 1;
    }
    if i == n {
        return name.to_owned();
    }
    let start = i;
    while i < n && !(chars[i] == '.' || chars[i] == ':')
        invariant
            n == chars@.len(),
            start <= i <= n,
            part_end(chars@, i as int) == part_end(chars@, start as int),
        decreases n - i,
    {
        i = i + 1;
    }
    let r = text_of(vstd::slice::slice_subrange(chars.as_slice(), start, i));
    assert(r@ =~= name@.subrange(start as int, i as int));
    r
}

/// Whether the text starts with the character.
pub fn starts_with_char(s: &str, c: char) -> (r: bool)
    ensures
        r == (s@.len() > 0 && s@[0] == c),
{
    let chars = chars_of(s);
    chars.len() > 0 && chars[0] == c
}

// ── Searching and joining ───────────────────────────────────────────────────

/// The second text stands somewhere in the first.
pub open spec fn holds(s: Seq<char>, t: Seq<char>) -> bool {
    exists|i: int| 0 <= i && i + t.len() <= s.len() && #[trigger] s.skip(i).take(t.len() as int) == t
}

/// The first text starts with the second.
pub open spec fn begins(s: Seq<char>, t: Seq<char>) -> bool {
    t.len() <= s.len() && s.take(t.len() as int) == t
}

/// The first text ends with the second.
pub open spec fn ends(s: Seq<char>, t: Seq<char>) -> bool {
    t.len() <= s.len() && s.skip(s.len() - t.len()) == t
}

/// Whether `t` stands in `s` at index `i`.
pub fn stands_at(s: &[char], t: &[char], i: usize) -> (r: bool)
    ensures
        r == (i + t@.len() <= s@.len() && s@.skip(i as int).take(t@.len() as int) == t@),
{
    if i > s.len() || s.len() - i < t.len() {
        return false;
    }
    let ghost part = s@.skip(i as int).take(t@.len() as int);
    let mut j: usize = 0;
    while j < t.len()
        invariant
            i + t.len() <= s.len(),
            j <= t@.len(),
            part == s@.skip(i as int).take(t@.len() as int),
            forall|k: int| 0 <= k < j ==> part[k] == t@[k],
        decreases t@.len() - j,
    {
        if s[i + j] != t[j] {
            assert(part[j as int] != t@[j as int]);
            return false;
        }
        j = j + 1;
    }
    assert(part =~= t@);
    true
}

/// Whether the text holds another.
pub fn contains(s: &str, t: &str) -> (r: bool)
    ensures
        r == holds(s@, t@),
{
    let x = chars_of(s);
    let y = chars_of(t);
    let mut i: usize = 0;
    while i <= x.len()
        invariant
            i <= x@.len() + 1,
            x@ == s@,
            y@ == t@,
            forall|k: int|
                0 <= k < i && k + t@.len() <= s@.len() ==> #[trigger] s@.skip(k).take(
                    t@.len() as int,
                ) != t@,
        decreases x@.len() + 1 - i,
    {
        if stands_at(&x, &y, i) {
            return true;
        }
        if i == x.len() {
            return false;
        }
        i = i + 1;
    }
    false
}

/// Whether the text starts with another.
pub fn starts_with(s: &str, t: &str) -> (r: bool)
    ensures
        r == begins(s@, t@),
{
    let x = chars_of(s);
    let y = chars_of(t);
    assert(s@.skip(0) =~= s@);
    stands_at(&x, &y, 0)
}

/// The texts with a separator between them.
pub open spec fn joined(parts: Seq<Seq<char>>, sep: Seq<char>, k: int) -> Seq<char>
    decreases k,
{
    if k <= 0 || k > parts.len() {
        Seq::empty()
    } else if k == 1 {
        parts[0]
    } else {
        joined(parts, sep, k - 1) + sep + parts[k - 1]
    }
}

/// The texts of some strings.
pub open spec fn texts(s: Seq<String>) -> Seq<Seq<char>> {
    Seq::new(s.len(), |i: int| s[i]@)
}

/// The strings with a separator between them.
pub fn join(parts: &[String], sep: &str) -> (r: String)
    ensures
        r@ == joined(texts(parts@), sep@, parts@.len() as int),
{
    let mut out = String::new();
    let mut i: usize = 0;
    let ghost t = texts(parts@);
    while i < parts.len()
        invariant
            i <= parts@.len(),
            t == texts(parts@),
            out@ == joined(t, sep@, i as int),
        decreases parts@.len() - i,
    {
        if i > 0 {
            out.append(sep);
        }
        out.append(&parts[i]);
        i = i + 1;
        assert(out@ =~= joined(t, sep@, i as int));
    }
    out
}

/// The concatenation of two texts.
pub fn concat(a: &str, b: &str) -> (r: String)
    ensures
        r@ == a@ + b@,
{
    let mut out = a.to_owned();
    out.append(b);
    out
}

/// Part of a run of characters, as a string.
pub fn text_between(s: &[char], from: usize, to: usize) -> (r: String)
    requires
        from <= to <= s@.len(),
    ensures
        r@ == s@.subrange(from as int, to as int),
{
    text_of(vstd::slice::slice_subrange(s, from, to))
}

/// A multisym split at its first joint.
pub open spec fn split_at_joint(s: Seq<char>) -> Option<(Seq<char>, Seq<char>)> {
    let e = part_end(s, 0);
    if e < s.len() {
        Some((s.take(e), s.skip(e + 1)))
    } else {
        None
    }
}

/// Split `name` on the first `.` or `:` separator.
/// Returns `(root, rest)` or `None` if there is no separator.
pub fn split_multisym(name: &str) -> (r: Option<(String, String)>)
    ensures
        match r {
            Some((a, b)) => split_at_joint(name@) == Some((a@, b@)),
            None => split_at_joint(name@) is None,
        },
{
    let chars = chars_of(name);
    let e = first_joint(&chars, 0);
    if e < chars.len() {
        let a = text_between(&chars, 0, e);
        let b = text_between(&chars, e + 1, chars.len());
        assert(a@ =~= name@.take(e as int));
        assert(b@ =~= name@.skip(e + 1));
        Some((a, b))
    } else {
        None
    }
}

/// The first index at or after `from` that holds a joint, or the length.
fn first_joint(chars: &[char], from: usize) -> (r: usize)
    requires
        from <= chars@.len(),
    ensures
        r == part_end(chars@, from as int),
        from <= r <= chars@.len(),
{
    let mut i: usize = from;
    while i < chars.len() && !(chars[i] == '.' || chars[i] == ':')
        invariant
            from <= i <= chars@.len(),
            part_end(chars@, i as int) == part_end(chars@, from as int),
        decreases chars@.len() - i,
    {
        i = i + 1;
    }
    i
}

/// The text before its first joint.
pub open spec fn first_part(s: Seq<char>) -> Seq<char> {
    s.take(part_end(s, 0))
}

/// The text before the first joint of a name.
pub fn before_joint(name: &str) -> (r: String)
    ensures
        r@ == first_part(name@),
{
    let chars = chars_of(name);
    let e = first_joint(&chars, 0);
    let r = text_between(&chars, 0, e);
    assert(r@ =~= first_part(name@));
    r
}

/// The text behind its last joint.
pub open spec fn last_part(s: Seq<char>) -> Seq<char>
    decreases s.len(),
{
    if s.len() == 0 || is_joint(s.last()) {
        Seq::empty()
    } else {
        last_part(s.drop_last()).push(s.last())
    }
}

/// The text behind the last joint of a name.
pub fn behind_joints(name: &str) -> (r: String)
    ensures
        r@ == last_part(name@),
{
    let chars = chars_of(name);
    let n = chars.len();
    let mut i: usize = n;
    assert(chars@.take(n as int) =~= chars@);
    assert(chars@.skip(n as int) =~= Seq::<char>::empty());
    assert(last_part(chars@) =~= last_part(chars@) + chars@.skip(n as int));
    while i > 0 && !(chars[i - 1] == '.' || chars[i - 1] == ':')
        invariant
            i <= n,
            n == chars@.len(),
            last_part(chars@) == last_part(chars@.take(i as int)) + chars@.skip(i as int),
        decreases i,
    {
        assert(chars@.take(i as int).drop_last() =~= chars@.take(i - 1));
        assert(last_part(chars@.take(i - 1)).push(chars@[i - 1]) + chars@.skip(i as int)
            =~= last_part(chars@.take(i - 1)) + chars@.skip(i - 1));
        i = i - 1;
    }
    let r = text_between(&chars, i, n);
    assert(r@ =~= chars@.skip(i as int));
    assert(last_part(chars@.take(i as int)) =~= Seq::<char>::empty());
    assert(r@ =~= last_part(name@));
    r
}

// ── Order ───────────────────────────────────────────────────────────────────

/// The order of texts by their bytes, from index `i` on.
pub open spec fn bytes_before(a: Seq<u8>, b: Seq<u8>, i: int) -> bool
    decreases a.len() - i,
{
    if !(0 <= i < a.len()) {
        i < b.len()
    } else if i >= b.len() {
        false
    } else if a[i] != b[i] {
        a[i] < b[i]
    } else {
        bytes_before(a, b, i + 1)
    }
}

/// The first text comes before the second in the order of their bytes.
pub open spec fn text_before(a: Seq<char>, b: Seq<char>) -> bool {
    bytes_before(encode_utf8(a), encode_utf8(b), 0)
}

/// No text comes before one that comes before it.
pub proof fn order_is_strict(a: Seq<char>, b: Seq<char>)
    ensures
        !(text_before(a, b) && text_before(b, a)),
{
    bytes_in_order(encode_utf8(a), encode_utf8(b), 0);
}

proof fn bytes_in_order(a: Seq<u8>, b: Seq<u8>, i: int)
    requires
        0 <= i,
    ensures
        !(bytes_before(a, b, i) && bytes_before(b, a, i)),
    decreases a.len() - i,
{
    if i < a.len() && i < b.len() && a[i] == b[i] {
        bytes_in_order(a, b, i + 1);
    }
}

/// Whether the first text comes before the second in the order of their bytes.
pub fn comes_before(a: &str, b: &str) -> (r: bool)
    ensures
        r == text_before(a@, b@),
{
    let x = a.as_bytes();
    let y = b.as_bytes();
    let mut i: usize = 0;
    while i < x.len() && i < y.len() && x[i] == y[i]
        invariant
            i <= x@.len(),
            i <= y@.len(),
            bytes_before(x@, y@, i as int) == bytes_before(x@, y@, 0),
        decreases x@.len() - i,
    {
        i = i + 1;
    }
    if i >= x.len() {
        i < y.len()
    } else if i >= y.len() {
        false
    } else {
        x[i] < y[i]
    }
}

} // verus!
