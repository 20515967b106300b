//! Two things that keep a Lua text from being read: a backtick that stands in no
//! string or comment, where no token starts with one, and a comment that is not closed
//! where there is nothing else behind a `#!` line.
use vstd::prelude::*;

use crate::number::{digits_end, is_digit, skip_digits};
use crate::text::line_end;

verus! {

// ── Ends of tokens ──────────────────────────────────────────────────────────

pub open spec fn starts_name(c: char) -> bool {
    ('a' <= c <= 'z') || ('A' <= c <= 'Z') || c == '_'
}

pub open spec fn is_hex_digit(c: char) -> bool {
    is_digit(c) || ('a' <= c <= 'f') || ('A' <= c <= 'F')
}

/// White space that ends a malformed number.
pub open spec fn ends_number(c: char) -> bool {
    c == ' ' || c == '\t' || c == '\n' || c == '\x0C' || c == '\r'
}

/// The first index from `i` on whose character fails a test, or the length.
pub open spec fn run_end(s: Seq<char>, i: int, f: spec_fn(char) -> bool) -> int
    decreases s.len() - i,
{
    if 0 <= i < s.len() && f(s[i]) {
        run_end(s, i + 1, f)
    } else {
        i
    }
}

/// The end of a name, from any index in it on.
pub open spec fn name_end(s: Seq<char>, i: int) -> int {
    run_end(s, i, |c: char| starts_name(c) || is_digit(c))
}

pub open spec fn hex_end(s: Seq<char>, i: int) -> int {
    run_end(s, i, |c: char| is_hex_digit(c))
}

/// The end of a number that turns out malformed at `i`: it takes all up to the
/// next white space.
pub open spec fn malformed_end(s: Seq<char>, i: int) -> int {
    run_end(s, i, |c: char| !ends_number(c))
}

/// The end of an exponent whose `e` stands at `i`.
pub open spec fn exponent_end(s: Seq<char>, i: int) -> int {
    let j = if i + 1 < s.len() && (s[i + 1] == '+' || s[i + 1] == '-') {
        i + 2
    } else {
        i + 1
    };
    if j < s.len() && is_digit(s[j]) {
        digits_end(s, j)
    } else {
        malformed_end(s, j)
    }
}

/// The end of a decimal number, from index `i` on, where a point has been seen
/// or not.
pub open spec fn decimal_end(s: Seq<char>, i: int, point: bool) -> int
    decreases s.len() - i,
{
    if !(0 <= i < s.len()) {
        i
    } else if is_digit(s[i]) {
        decimal_end(s, i + 1, point)
    } else if s[i] == '.' {
        if point {
            malformed_end(s, i)
        } else {
            decimal_end(s, i + 1, true)
        }
    } else if s[i] == 'e' || s[i] == 'E' {
        exponent_end(s, i)
    } else {
        i
    }
}

/// The end of a number that starts at `i`, with a digit or a point.
pub open spec fn number_end(s: Seq<char>, i: int) -> int {
    if s[i] == '0' && i + 1 < s.len() && (s[i + 1] == 'x' || s[i + 1] == 'X') {
        let j = hex_end(s, i + 2);
        if j == i + 2 {
            malformed_end(s, j)
        } else {
            j
        }
    } else {
        decimal_end(s, i + 1, false)
    }
}

/// The end of a string in quotes, from an index inside it on. The end of the
/// line ends it too.
pub open spec fn quoted_end(s: Seq<char>, i: int, quote: char) -> int
    decreases s.len() - i,
{
    if !(0 <= i < s.len()) {
        i
    } else if s[i] == '\\' {
        if i + 1 < s.len() {
            quoted_end(s, i + 2, quote)
        } else {
            i + 1
        }
    } else if s[i] == '\n' || s[i] == '\r' || s[i] == quote {
        i + 1
    } else {
        quoted_end(s, i + 1, quote)
    }
}

/// The end of the equals signs from `i` on.
pub open spec fn equals_end(s: Seq<char>, i: int) -> int {
    run_end(s, i, |c: char| c == '=')
}

/// A long bracket opens at `i`: two square brackets with equals signs, or none,
/// between them.
pub open spec fn opens_long(s: Seq<char>, i: int) -> bool {
    &&& i < s.len() && s[i] == '['
    &&& equals_end(s, i + 1) < s.len() && s[equals_end(s, i + 1)] == '['
}

/// A long bracket with `n` equals signs closes at `i`.
pub open spec fn closes_long(s: Seq<char>, i: int, n: int) -> bool {
    &&& i + n + 1 < s.len()
    &&& s[i] == ']'
    &&& s[i + n + 1] == ']'
    &&& forall|k: int| i < k <= i + n ==> #[trigger] s[k] == '='
}

/// The end of a long bracket with `n` equals signs, from an index inside it on.
pub open spec fn long_end(s: Seq<char>, i: int, n: int) -> int
    decreases s.len() - i,
{
    if !(0 <= i < s.len()) {
        i
    } else if closes_long(s, i, n) {
        i + n + 2
    } else {
        long_end(s, i + 1, n)
    }
}

/// The end of a long bracket that opens at `i`.
pub open spec fn long_bracket_end(s: Seq<char>, i: int) -> int {
    let k = equals_end(s, i + 1);
    long_end(s, k + 1, k - i - 1)
}

/// The end of a comment, from the index behind its two dashes on.
pub open spec fn comment_end(s: Seq<char>, i: int) -> int {
    if opens_long(s, i) {
        long_bracket_end(s, i)
    } else {
        line_end(s, i)
    }
}

/// The end of the token at `i`; of a symbol, only its first character.
pub open spec fn lua_token_end(s: Seq<char>, i: int) -> int {
    let c = s[i];
    if starts_name(c) {
        name_end(s, i + 1)
    } else if is_digit(c) || (c == '.' && i + 1 < s.len() && is_digit(s[i + 1])) {
        number_end(s, i)
    } else if c == '"' || c == '\'' {
        quoted_end(s, i + 1, c)
    } else if c == '-' && i + 1 < s.len() && s[i + 1] == '-' {
        comment_end(s, i + 2)
    } else if opens_long(s, i) {
        long_bracket_end(s, i)
    } else {
        i + 1
    }
}

/// A token from index `i` on starts with a backtick.
pub open spec fn backtick_from(s: Seq<char>, i: int) -> bool
    decreases s.len() - i,
    via backtick_from_ends
{
    if !(0 <= i < s.len()) {
        false
    } else if s[i] == '`' {
        true
    } else {
        backtick_from(s, lua_token_end(s, i))
    }
}

/// The index behind a `#!` line at the start.
pub open spec fn shebang_end(s: Seq<char>) -> int {
    if s.len() >= 2 && s[0] == '#' && s[1] == '!' {
        line_end(s, 2)
    } else {
        0
    }
}

/// No backtick stands outside the strings, long brackets and comments of a Lua
/// text.
pub open spec fn no_bare_backtick(s: Seq<char>) -> bool {
    !backtick_from(s, shebang_end(s))
}

/// A long bracket with `n` equals signs is closed, from an index inside it on.
pub open spec fn long_is_closed(s: Seq<char>, i: int, n: int) -> bool
    decreases s.len() - i,
{
    if !(0 <= i < s.len()) {
        false
    } else if closes_long(s, i, n) {
        true
    } else {
        long_is_closed(s, i + 1, n)
    }
}

pub open spec fn is_blank(c: char) -> bool {
    c == ' ' || c == '\t' || c == '\r' || c == '\n'
}

/// From index `i` on there is nothing but blanks and comments, of which the last is
/// not closed.
pub open spec fn open_comment_from(s: Seq<char>, i: int) -> bool
    decreases s.len() - i,
    via open_comment_from_ends
{
    if !(0 <= i < s.len()) {
        false
    } else if is_blank(s[i]) {
        open_comment_from(s, i + 1)
    } else if s[i] == '-' && i + 1 < s.len() && s[i + 1] == '-' {
        let k = equals_end(s, i + 3);
        if opens_long(s, i + 2) && !long_is_closed(s, k + 1, k - i - 3) {
            true
        } else {
            open_comment_from(s, comment_end(s, i + 2))
        }
    } else {
        false
    }
}

/// A `#!` line opens the text, and nothing follows it but blanks and comments, of
/// which the last is not closed.
pub open spec fn ends_in_comment_behind_shebang(s: Seq<char>) -> bool {
    shebang_end(s) > 0 && open_comment_from(s, shebang_end(s))
}

// ── Tokens have an end ──────────────────────────────────────────────────────

#[via_fn]
proof fn backtick_from_ends(s: Seq<char>, i: int) {
    if 0 <= i < s.len() {
        lua_token_moves(s, i);
    }
}

#[via_fn]
proof fn open_comment_from_ends(s: Seq<char>, i: int) {
    if 0 <= i && i + 1 < s.len() {
        comment_moves(s, i);
    }
}

/// A comment that starts at `i`.
proof fn comment_moves(s: Seq<char>, i: int)
    requires
        0 <= i,
        i + 1 < s.len(),
    ensures
        i < comment_end(s, i + 2) <= s.len(),
{
    line_moves(s, i + 2);
    if i + 2 < s.len() && opens_long(s, i + 2) {
        long_bracket_moves(s, i + 2);
    }
}

proof fn run_moves(s: Seq<char>, i: int, f: spec_fn(char) -> bool)
    requires
        0 <= i <= s.len(),
    ensures
        i <= run_end(s, i, f) <= s.len(),
    decreases s.len() - i,
{
    if i < s.len() && f(s[i]) {
        run_moves(s, i + 1, f);
    }
}

proof fn digits_move(s: Seq<char>, i: int)
    requires
        0 <= i <= s.len(),
    ensures
        i <= digits_end(s, i) <= s.len(),
    decreases s.len() - i,
{
    if i < s.len() && is_digit(s[i]) {
        digits_move(s, i + 1);
    }
}

proof fn exponent_moves(s: Seq<char>, i: int)
    requires
        0 <= i < s.len(),
    ensures
        i < exponent_end(s, i) <= s.len(),
{
    let j = if i + 1 < s.len() && (s[i + 1] == '+' || s[i + 1] == '-') {
        i + 2
    } else {
        i + 1
    };
    digits_move(s, j);
    run_moves(s, j, |c: char| !ends_number(c));
}

proof fn decimal_moves(s: Seq<char>, i: int, point: bool)
    requires
        0 <= i <= s.len(),
    ensures
        i <= decimal_end(s, i, point) <= s.len(),
    decreases s.len() - i,
{
    if i < s.len() {
        if is_digit(s[i]) {
            decimal_moves(s, i + 1, point);
        } else if s[i] == '.' && !point {
            decimal_moves(s, i + 1, true);
        }
        run_moves(s, i, |c: char| !ends_number(c));
        exponent_moves(s, i);
    }
}

proof fn quoted_moves(s: Seq<char>, i: int, quote: char)
    requires
        0 <= i <= s.len(),
    ensures
        i <= quoted_end(s, i, quote) <= s.len(),
    decreases s.len() - i,
{
    if i < s.len() {
        if s[i] == '\\' {
            if i + 1 < s.len() {
                quoted_moves(s, i + 2, quote);
            }
        } else {
            quoted_moves(s, i + 1, quote);
        }
    }
}

proof fn long_moves(s: Seq<char>, i: int, n: int)
    requires
        0 <= i <= s.len(),
        0 <= n,
    ensures
        i <= long_end(s, i, n) <= s.len(),
    decreases s.len() - i,
{
    if i < s.len() {
        long_moves(s, i + 1, n);
    }
}

proof fn line_moves(s: Seq<char>, i: int)
    requires
        0 <= i <= s.len(),
    ensures
        i <= line_end(s, i) <= s.len(),
    decreases s.len() - i,
{
    if i < s.len() {
        line_moves(s, i + 1);
    }
}

proof fn long_bracket_moves(s: Seq<char>, i: int)
    requires
        0 <= i < s.len(),
        opens_long(s, i),
    ensures
        i < equals_end(s, i + 1) < long_bracket_end(s, i) <= s.len(),
{
    run_moves(s, i + 1, |c: char| c == '=');
    let k = equals_end(s, i + 1);
    long_moves(s, k + 1, k - i - 1);
}

proof fn lua_token_moves(s: Seq<char>, i: int)
    requires
        0 <= i < s.len(),
    ensures
        i < lua_token_end(s, i) <= s.len(),
{
    run_moves(s, i + 1, |c: char| starts_name(c) || is_digit(c));
    decimal_moves(s, i + 1, false);
    quoted_moves(s, i + 1, s[i]);
    if i + 1 < s.len() {
        run_moves(s, i + 2, |c: char| is_hex_digit(c));
        run_moves(s, i + 2, |c: char| !ends_number(c));
        line_moves(s, i + 2);
        if i + 2 < s.len() && opens_long(s, i + 2) {
            long_bracket_moves(s, i + 2);
        }
    }
    if opens_long(s, i) {
        long_bracket_moves(s, i);
    }
}

// ── Scanning ────────────────────────────────────────────────────────────────

fn skip_name(s: &[char], from: usize) -> (r: usize)
    requires
        from <= s@.len(),
    ensures
        r == name_end(s@, from as int),
        from <= r <= s@.len(),
{
    let mut i: usize = from;
    while i < s.len() && ((s[i] >= 'a' && s[i] <= 'z') || (s[i] >= 'A' && s[i] <= 'Z') || s[i]
        == '_' || (s[i] >= '0' && s[i] <= '9'))
        invariant
            from <= i <= s@.len(),
            name_end(s@, i as int) == name_end(s@, from as int),
        decreases s@.len() - i,
    {
        i = i + 1;
    }
    i
}

fn skip_hex(s: &[char], from: usize) -> (r: usize)
    requires
        from <= s@.len(),
    ensures
        r == hex_end(s@, from as int),
        from <= r <= s@.len(),
{
    let mut i: usize = from;
    while i < s.len() && ((s[i] >= '0' && s[i] <= '9') || (s[i] >= 'a' && s[i] <= 'f') || (s[i]
        >= 'A' && s[i] <= 'F'))
        invariant
            from <= i <= s@.len(),
            hex_end(s@, i as int) == hex_end(s@, from as int),
        decreases s@.len() - i,
    {
        i = i + 1;
    }
    i
}

fn skip_malformed(s: &[char], from: usize) -> (r: usize)
    requires
        from <= s@.len(),
    ensures
        r == malformed_end(s@, from as int),
        from <= r <= s@.len(),
{
    let mut i: usize = from;
    while i < s.len() && !(s[i] == ' ' || s[i] == '\t' || s[i] == '\n' || s[i] == '\x0C' || s[i]
        == '\r')
        invariant
            from <= i <= s@.len(),
            malformed_end(s@, i as int) == malformed_end(s@, from as int),
        decreases s@.len() - i,
    {
        i = i + 1;
    }
    i
}

fn skip_exponent(s: &[char], at: usize) -> (r: usize)
    requires
        at < s@.len(),
    ensures
        r == exponent_end(s@, at as int),
        at < r <= s@.len(),
{
    let n = s.len();
    let j: usize = if at + 1 < n && (s[at + 1] == '+' || s[at + 1] == '-') {
        at + 2
    } else {
        at + 1
    };
    proof {
        exponent_moves(s@, at as int);
    }
    if j < s.len() && s[j] >= '0' && s[j] <= '9' {
        skip_digits(s, j)
    } else {
        skip_malformed(s, j)
    }
}

fn skip_number(s: &[char], at: usize) -> (r: usize)
    requires
        at < s@.len(),
    ensures
        r == number_end(s@, at as int),
        r <= s@.len(),
{
    if s[at] == '0' && at + 1 < s.len() && (s[at + 1] == 'x' || s[at + 1] == 'X') {
        let j = skip_hex(s, at + 2);
        return if j == at + 2 {
            skip_malformed(s, j)
        } else {
            j
        };
    }
    let mut i: usize = at + 1;
    let mut point = false;
    while i < s.len() && ((s[i] >= '0' && s[i] <= '9') || (s[i] == '.' && !point))
        invariant
            at < i <= s@.len(),
            decimal_end(s@, i as int, point) == decimal_end(s@, at + 1, false),
        decreases s@.len() - i,
    {
        if s[i] == '.' {
            point = true;
        }
        i = i + 1;
    }
    if i < s.len() && s[i] == '.' {
        skip_malformed(s, i)
    } else if i < s.len() && (s[i] == 'e' || s[i] == 'E') {
        skip_exponent(s, i)
    } else {
        i
    }
}

fn skip_quoted(s: &[char], from: usize, quote: char) -> (r: usize)
    requires
        from <= s@.len(),
    ensures
        r == quoted_end(s@, from as int, quote),
        r <= s@.len(),
{
    let mut i: usize = from;
    while i < s.len()
        invariant
            from <= i <= s@.len(),
            quoted_end(s@, i as int, quote) == quoted_end(s@, from as int, quote),
        decreases s@.len() - i,
    {
        if s[i] == '\\' {
            if i + 1 < s.len() {
                i = i + 2;
            } else {
                return i + 1;
            }
        } else if s[i] == '\n' || s[i] == '\r' || s[i] == quote {
            return i + 1;
        } else {
            i = i + 1;
        }
    }
    i
}

fn skip_equals(s: &[char], from: usize) -> (r: usize)
    requires
        from <= s@.len(),
    ensures
        r == equals_end(s@, from as int),
        from <= r <= s@.len(),
        forall|k: int| from <= k < r ==> #[trigger] s@[k] == '=',
{
    let mut i: usize = from;
    while i < s.len() && s[i] == '='
        invariant
            from <= i <= s@.len(),
            equals_end(s@, i as int) == equals_end(s@, from as int),
            forall|k: int| from <= k < i ==> #[trigger] s@[k] == '=',
        decreases s@.len() - i,
    {
        i = i + 1;
    }
    i
}

fn long_closes(s: &[char], at: usize, n: usize) -> (r: bool)
    requires
        at < s@.len(),
        n < s@.len(),
    ensures
        r == closes_long(s@, at as int, n as int),
{
    if s[at] != ']' || s.len() - at < 2 || s.len() - at - 2 < n || s[at + n + 1] != ']' {
        return false;
    }
    let mut k: usize = at + 1;
    while k <= at + n
        invariant
            at < k <= at + n + 1 < s@.len(),
            s@.len() <= usize::MAX,
            forall|m: int| at < m < k ==> #[trigger] s@[m] == '=',
        decreases at + n + 1 - k,
    {
        if s[k] != '=' {
            return false;
        }
        k = k + 1;
    }
    true
}

/// The end of the long bracket that opens at `at`, if one opens there, and whether
/// it is closed.
fn skip_long_bracket(s: &[char], at: usize) -> (r: Option<(usize, bool)>)
    requires
        at <= s@.len(),
    ensures
        match r {
            Some((end, closed)) => {
                let k = equals_end(s@, at + 1);
                &&& opens_long(s@, at as int)
                &&& end == long_bracket_end(s@, at as int)
                &&& end <= s@.len()
                &&& closed == long_is_closed(s@, k + 1, k - at - 1)
            },
            None => !opens_long(s@, at as int),
        },
{
    if at >= s.len() || s[at] != '[' {
        return None;
    }
    let k = skip_equals(s, at + 1);
    if k >= s.len() || s[k] != '[' {
        return None;
    }
    let n: usize = k - at - 1;
    let mut i: usize = k + 1;
    while i < s.len()
        invariant
            at < k < i <= s@.len(),
            n == k - at - 1,
            opens_long(s@, at as int),
            k == equals_end(s@, at + 1),
            long_end(s@, i as int, n as int) == long_end(s@, k + 1, n as int),
            long_is_closed(s@, i as int, n as int) == long_is_closed(s@, k + 1, n as int),
        decreases s@.len() - i,
    {
        if long_closes(s, i, n) {
            return Some((i + n + 2, true));
        }
        i = i + 1;
    }
    Some((i, false))
}

fn skip_line(s: &[char], from: usize) -> (r: usize)
    requires
        from <= s@.len(),
    ensures
        r == line_end(s@, from as int),
        from <= r <= s@.len(),
{
    let mut i: usize = from;
    while i < s.len() && s[i] != '\n'
        invariant
            from <= i <= s@.len(),
            line_end(s@, i as int) == line_end(s@, from as int),
        decreases s@.len() - i,
    {
        i = i + 1;
    }
    i
}

fn skip_token(s: &[char], at: usize) -> (r: usize)
    requires
        at < s@.len(),
    ensures
        r == lua_token_end(s@, at as int),
        at < r <= s@.len(),
{
    proof {
        lua_token_moves(s@, at as int);
    }
    let c = s[at];
    if (c >= 'a' && c <= 'z') || (c >= 'A' && c <= 'Z') || c == '_' {
        skip_name(s, at + 1)
    } else if (c >= '0' && c <= '9') || (c == '.' && at + 1 < s.len() && s[at + 1] >= '0' && s[at
        + 1] <= '9') {
        skip_number(s, at)
    } else if c == '"' || c == '\'' {
        skip_quoted(s, at + 1, c)
    } else if c == '-' && at + 1 < s.len() && s[at + 1] == '-' {
        match skip_long_bracket(s, at + 2) {
            Some((end, _)) => end,
            None => skip_line(s, at + 2),
        }
    } else {
        match skip_long_bracket(s, at) {
            Some((end, _)) => end,
            None => at + 1,
        }
    }
}

/// Tests a Lua text for a backtick outside its strings and comments.
pub fn has_bare_backtick(s: &[char]) -> (r: bool)
    ensures
        r == !no_bare_backtick(s@),
{
    let mut i: usize = if s.len() >= 2 && s[0] == '#' && s[1] == '!' {
        skip_line(s, 2)
    } else {
        0
    };
    while i < s.len()
        invariant
            i <= s@.len(),
            backtick_from(s@, i as int) == !no_bare_backtick(s@),
        decreases s@.len() - i,
    {
        if s[i] == '`' {
            return true;
        }
        i = skip_token(s, i);
    }
    false
}

/// Tests a Lua text for a comment that is not closed, with nothing before it but a
/// `#!` line, blanks and other comments.
pub fn has_open_comment_behind_shebang(s: &[char]) -> (r: bool)
    ensures
        r == ends_in_comment_behind_shebang(s@),
{
    let n = s.len();
    if !(n >= 2 && s[0] == '#' && s[1] == '!') {
        return false;
    }
    let mut i: usize = skip_line(s, 2);
    while i < n
        invariant
            i <= n,
            n == s@.len(),
            open_comment_from(s@, i as int) == ends_in_comment_behind_shebang(s@),
        decreases n - i,
    {
        if s[i] == ' ' || s[i] == '\t' || s[i] == '\r' || s[i] == '\n' {
            i = i + 1;
        } else if s[i] == '-' && i + 1 < n && s[i + 1] == '-' {
            proof {
                comment_moves(s@, i as int);
            }
            match skip_long_bracket(s, i + 2) {
                Some((end, closed)) => {
                    if !closed {
                        return true;
                    }
                    i = end;
                },
                None => {
                    i = skip_line(s, i + 2);
                },
            }
        } else {
            return false;
        }
    }
    false
}

} // verus!
