//! Where the formatter breaks lines and how far it indents them, read off the text
//! that it writes.
use vstd::prelude::*;

use crate::fmt::{
    bracketed, closing_gap, ends_in_comment, flat, flat_items, formatted, has_body, head_text,
    node_text, packs, sign, source_text, spaces, tall, tall_compound, tall_items, top_level,
    trimmed_end, width, without_final_breaks, COL_LIMIT,
};
use crate::parser::{parse_rich_source, FormView, NodeView};
use crate::text::encode_concat;

verus! {

// ── Columns ─────────────────────────────────────────────────────────────────

/// The column of the `i`-th character of a text that starts in column `c`.
pub open spec fn column(t: Seq<char>, c: int, i: int) -> int
    decreases i,
{
    if i <= 0 {
        c
    } else if t[i - 1] == '\n' {
        0
    } else {
        column(t, c, i - 1) + 1
    }
}

/// Nothing but blanks stands from `i` up to `j`.
pub open spec fn blank(t: Seq<char>, i: int, j: int) -> bool {
    forall|k: int| i <= k < j ==> #[trigger] t[k] == ' '
}

/// A line break stands at `i`, and blanks from there up to `j`.
pub open spec fn opens_line(t: Seq<char>, i: int, j: int) -> bool {
    &&& 0 <= i < j <= t.len()
    &&& t[i] == '\n'
    &&& blank(t, i + 1, j)
}

proof fn column_of_line(t: Seq<char>, c: int, i: int, j: int)
    requires
        opens_line(t, i, j),
    ensures
        column(t, c, j) == j - i - 1,
    decreases j - i,
{
    if i + 1 < j {
        column_of_line(t, c, i, j - 1);
        assert(t[j - 1] == ' ');
    }
}

// ── Laid-out forms ──────────────────────────────────────────────────────────

/// Somewhere in the form stands a comment.
pub open spec fn holds_comment(n: NodeView) -> bool
    decreases n, 1int, 0int,
{
    match n.node {
        FormView::Comment(_) => true,
        FormView::List(v) => one_holds_comment(v, v.len() as int),
        FormView::Table(v) => one_holds_comment(v, v.len() as int),
        FormView::Sequence(v) => one_holds_comment(v, v.len() as int),
        FormView::Quote(i) => holds_comment(*i),
        FormView::Quasiquote(i) => holds_comment(*i),
        FormView::Unquote(i) => holds_comment(*i),
        FormView::UnquoteSplice(i) => holds_comment(*i),
        FormView::HashFn(i) => holds_comment(*i),
        _ => false,
    }
}

/// A comment stands in one of the first `k` forms.
pub open spec fn one_holds_comment(v: Seq<NodeView>, k: int) -> bool
    decreases v, 0int, k,
{
    0 < k <= v.len() && (one_holds_comment(v, k - 1) || holds_comment(v[k - 1]))
}

/// The text `t`, which starts in column `c`, shows the form `n`: on one line where
/// `line` holds, else spread as far as it has to be.
pub open spec fn shows(t: Seq<char>, c: int, n: NodeView, b: Seq<u8>, line: bool) -> bool
    decreases n, 0int, 0int,
{
    match n.node {
        FormView::Comment(text) => !line && t == trimmed_end(text),
        FormView::List(v) => shows_bracketed('(', ')', t, c, v, b, line),
        FormView::Table(v) => shows_bracketed('{', '}', t, c, v, b, line),
        FormView::Sequence(v) => shows_bracketed('[', ']', t, c, v, b, line),
        FormView::Quote(i) => {
            &&& t.len() >= 1 && t[0] == '\''
            &&& shows(t.skip(1), c + 1, *i, b, line)
        },
        FormView::Quasiquote(i) => {
            &&& t.len() >= 1 && t[0] == '`'
            &&& shows(t.skip(1), c + 1, *i, b, line)
        },
        FormView::Unquote(i) => {
            &&& t.len() >= 1 && t[0] == ','
            &&& shows(t.skip(1), c + 1, *i, b, line)
        },
        FormView::UnquoteSplice(i) => {
            &&& t.len() >= 2 && t[0] == ',' && t[1] == '@'
            &&& shows(t.skip(2), c + 2, *i, b, line)
        },
        FormView::HashFn(i) => {
            &&& t.len() >= 1 && t[0] == '#'
            &&& shows(t.skip(1), c + 1, *i, b, line)
        },
        _ => t == source_text(n.span, b),
    }
}

/// The text shows a form in brackets, whose first child stands right behind the bracket.
pub open spec fn shows_bracketed(
    open: char,
    close: char,
    t: Seq<char>,
    c: int,
    v: Seq<NodeView>,
    b: Seq<u8>,
    line: bool,
) -> bool
    decreases v, 3int, 0int,
{
    &&& t.len() >= 2
    &&& t[0] == open
    &&& t.last() == close
    &&& if v.len() == 0 {
        t.len() == 2
    } else {
        exists|at: Seq<int>, ends: Seq<int>| #[trigger]
            placed_in(t, v, at, ends) && shows_children(t, c, v, b, line, at, ends)
    }
}

/// Each child has its place in the text, between the brackets.
pub open spec fn placed_in(
    t: Seq<char>,
    v: Seq<NodeView>,
    at: Seq<int>,
    ends: Seq<int>,
) -> bool {
    &&& at.len() == v.len()
    &&& ends.len() == v.len()
    &&& forall|k: int| 0 <= k < v.len() ==> 0 < #[trigger] at[k] <= ends[k] < t.len()
}

/// The `k`-th child of the form opens a line.
pub open spec fn broken(t: Seq<char>, ends: Seq<int>, k: int) -> bool {
    t[ends[k - 1]] == '\n'
}

/// The children of a form stand one behind the other, the `k`-th from `at[k]` up to
/// `ends[k]`. Once a line was broken, every child opens a line.
pub open spec fn shows_children(
    t: Seq<char>,
    c: int,
    v: Seq<NodeView>,
    b: Seq<u8>,
    line: bool,
    at: Seq<int>,
    ends: Seq<int>,
) -> bool
    decreases v, 2int, v.len() + 1,
{
    &&& placed_in(t, v, at, ends)
    &&& shows_first(t, c, v, b, line, at, ends, v.len() as int)
    &&& forall|k: int|
        1 < k < v.len() && broken(t, ends, k - 1) ==> #[trigger] broken(t, ends, k)
    &&& forall|k: int|
        1 <= k < v.len() && #[trigger] broken(t, ends, k) ==> breaks_rightly(t, c, v, b, ends, k)
    &&& if ends_in_comment(v.last()) {
        &&& opens_line(t, ends.last(), t.len() - 1)
        &&& column(t, c, t.len() - 1) == c + 2
    } else {
        ends.last() == t.len() - 1
    }
}

/// Each of the first `k` children stands in its place.
pub open spec fn shows_first(
    t: Seq<char>,
    c: int,
    v: Seq<NodeView>,
    b: Seq<u8>,
    line: bool,
    at: Seq<int>,
    ends: Seq<int>,
    k: int,
) -> bool
    decreases v, 2int, k,
{
    k > 0 ==> {
        &&& shows_first(t, c, v, b, line, at, ends, k - 1)
        &&& shows_child(t, c, v, b, line, at, ends, k - 1)
    }
}

/// The `k`-th child stands in its place. The head stands behind the bracket, copied
/// where it holds a comment. Any other child either stands one blank behind the child
/// before it, on the same line and within the limit, or it opens a line, exactly two
/// columns to the right of the bracket.
pub open spec fn shows_child(
    t: Seq<char>,
    c: int,
    v: Seq<NodeView>,
    b: Seq<u8>,
    line: bool,
    at: Seq<int>,
    ends: Seq<int>,
    k: int,
) -> bool
    decreases v, 1int, 0int,
{
    &&& 0 <= k < v.len()
    &&& 0 < at[k] <= ends[k] < t.len()
    &&& if k == 0 {
        &&& at[0] == 1
        &&& if holds_comment(v[0]) && !line {
            t.subrange(at[0], ends[0]) == source_text(v[0].span, b)
        } else {
            shows(t.subrange(at[0], ends[0]), column(t, c, at[0]), v[0], b, true)
        }
    } else if broken(t, ends, k) {
        &&& !line
        &&& opens_line(t, ends[k - 1], at[k])
        &&& column(t, c, at[k]) == c + 2
        &&& shows(t.subrange(at[k], ends[k]), column(t, c, at[k]), v[k], b, false)
    } else {
        &&& at[k] == ends[k - 1] + 1
        &&& t[ends[k - 1]] == ' '
        &&& shows(t.subrange(at[k], ends[k]), column(t, c, at[k]), v[k], b, true)
        &&& !line ==> {
            &&& c + width(t.take(ends[k])) <= COL_LIMIT
            &&& !ends_in_comment(v[k - 1])
        }
    }
}

/// A line is broken before the `k`-th child only where the form does not fit on one
/// line, and then behind the last child that the head line can take: a child with a
/// comment, and a list or table in a body, are not put there.
pub open spec fn breaks_rightly(
    t: Seq<char>,
    c: int,
    v: Seq<NodeView>,
    b: Seq<u8>,
    ends: Seq<int>,
    k: int,
) -> bool {
    &&& flat_items(v, b, v.len() as int) matches Some(items) ==> c + width(items) + 2 > COL_LIMIT
    &&& (k == 1 || !broken(t, ends, k - 1)) ==> {
        ||| holds_comment(v[k])
        ||| has_body(v) && (v[k].node is List || v[k].node is Table)
        ||| k == 1 && ends_in_comment(v[0])
        ||| c + width(t.take(ends[k - 1])) + 1 + width(flat(v[k], b)->0) > COL_LIMIT
    }
    &&& has_body(v) ==> forall|j: int|
        1 <= j < v.len() && ((#[trigger] v[j]).node is List || v[j].node is Table) ==> broken(
            t,
            ends,
            j,
        )
}

// ── Widths ──────────────────────────────────────────────────────────────────

proof fn width_of_both(a: Seq<char>, b: Seq<char>)
    ensures
        width(a + b) == width(a) + width(b),
{
    encode_concat(a, b);
}

proof fn width_of_ascii(c: char)
    requires
        c <= '\u{7F}',
    ensures
        width(seq![c]) == 1,
{
    let s = seq![c];
    assert(s.drop_first() =~= Seq::<char>::empty());
    reveal_with_fuel(vstd::utf8::encode_utf8, 2);
}

proof fn width_of_start(t: Seq<char>, e: int)
    requires
        0 <= e <= t.len(),
    ensures
        width(t.take(e)) <= width(t),
{
    assert(t.take(e) + t.skip(e) =~= t);
    width_of_both(t.take(e), t.skip(e));
}

// ── Forms on one line ───────────────────────────────────────────────────────

/// A form has a text on one line just where it holds no comment.
pub proof fn one_line_without_comments(n: NodeView, b: Seq<u8>)
    ensures
        flat(n, b) is None <==> holds_comment(n),
    decreases n, 1int, 0int,
{
    match n.node {
        FormView::List(v) => one_line_items(v, b, v.len() as int),
        FormView::Table(v) => one_line_items(v, b, v.len() as int),
        FormView::Sequence(v) => one_line_items(v, b, v.len() as int),
        FormView::Quote(i) => one_line_without_comments(*i, b),
        FormView::Quasiquote(i) => one_line_without_comments(*i, b),
        FormView::Unquote(i) => one_line_without_comments(*i, b),
        FormView::UnquoteSplice(i) => one_line_without_comments(*i, b),
        FormView::HashFn(i) => one_line_without_comments(*i, b),
        _ => {},
    }
}

proof fn one_line_items(v: Seq<NodeView>, b: Seq<u8>, k: int)
    requires
        0 <= k <= v.len(),
    ensures
        flat_items(v, b, k) is None <==> one_holds_comment(v, k),
    decreases v, 0int, k,
{
    if k > 0 {
        one_line_items(v, b, k - 1);
        one_line_without_comments(v[k - 1], b);
    }
}

proof fn none_holds_comment(v: Seq<NodeView>, k: int, j: int)
    requires
        !one_holds_comment(v, k),
        0 <= j < k <= v.len(),
    ensures
        !holds_comment(v[j]),
    decreases k,
{
    if j < k - 1 {
        none_holds_comment(v, k - 1, j);
    }
}

proof fn children_are_shown(
    t: Seq<char>,
    c: int,
    v: Seq<NodeView>,
    b: Seq<u8>,
    line: bool,
    at: Seq<int>,
    ends: Seq<int>,
    k: int,
)
    requires
        forall|j: int| 0 <= j < k ==> #[trigger] shows_child(t, c, v, b, line, at, ends, j),
    ensures
        shows_first(t, c, v, b, line, at, ends, k),
    decreases k,
{
    if k > 0 {
        children_are_shown(t, c, v, b, line, at, ends, k - 1);
        assert(shows_child(t, c, v, b, line, at, ends, k - 1));
    }
}

proof fn bracketed_is_shown(
    open: char,
    close: char,
    t: Seq<char>,
    c: int,
    v: Seq<NodeView>,
    b: Seq<u8>,
    line: bool,
    at: Seq<int>,
    ends: Seq<int>,
)
    requires
        t.len() >= 2,
        t[0] == open,
        t.last() == close,
        v.len() > 0,
        shows_children(t, c, v, b, line, at, ends),
    ensures
        shows_bracketed(open, close, t, c, v, b, line),
{
    assert(placed_in(t, v, at, ends));
}

proof fn no_comment_at_end(n: NodeView)
    requires
        !holds_comment(n),
    ensures
        !ends_in_comment(n),
    decreases n,
{
    match n.node {
        FormView::Quote(i) => no_comment_at_end(*i),
        FormView::Quasiquote(i) => no_comment_at_end(*i),
        FormView::Unquote(i) => no_comment_at_end(*i),
        FormView::UnquoteSplice(i) => no_comment_at_end(*i),
        FormView::HashFn(i) => no_comment_at_end(*i),
        _ => {},
    }
}

/// What a text ends in up to `e`.
proof fn part_of(t: Seq<char>, e: int, before: Seq<char>, part: Seq<char>)
    requires
        0 <= e <= t.len(),
        t.take(e) == before + part,
    ensures
        e == before.len() + part.len(),
        t.subrange(before.len() as int, e) == part,
        t.take(before.len() as int) == before,
{
    let p = before.len() as int;
    assert(t.subrange(p, e) =~= t.take(e).skip(p));
    assert(t.take(e).skip(p) =~= part);
    assert(t.take(p) =~= t.take(e).take(p));
    assert(t.take(e).take(p) =~= before);
}

proof fn flat_items_start(v: Seq<NodeView>, b: Seq<u8>, k: int, m: int)
    requires
        0 <= k <= m <= v.len(),
        flat_items(v, b, m) is Some,
    ensures
        flat_items(v, b, k) is Some,
        flat_items(v, b, k)->0.len() <= flat_items(v, b, m)->0.len(),
        flat_items(v, b, m)->0.take(flat_items(v, b, k)->0.len() as int) == flat_items(v, b, k)->0,
    decreases m - k,
{
    if k < m {
        flat_items_start(v, b, k, m - 1);
        let i = flat_items(v, b, k)->0;
        let x = flat_items(v, b, m - 1)->0;
        let y = flat_items(v, b, m)->0;
        assert(y.take(x.len() as int) =~= x) by {
            if m == 1 {
                assert(x =~= Seq::empty());
            }
        }
        assert(y.take(i.len() as int) =~= y.take(x.len() as int).take(i.len() as int));
    } else {
        let i = flat_items(v, b, k)->0;
        assert(i.take(i.len() as int) =~= i);
    }
}

/// A form without comments, on one line.
proof fn flat_shows(n: NodeView, b: Seq<u8>, c: int, line: bool)
    requires
        flat(n, b) is Some,
        line || c + width(flat(n, b)->0) <= COL_LIMIT,
    ensures
        shows(flat(n, b)->0, c, n, b, line),
    decreases n, 1int,
{
    let t = flat(n, b)->0;
    match n.node {
        FormView::List(v) => flat_shows_bracketed('(', ')', v, b, c, line),
        FormView::Table(v) => flat_shows_bracketed('{', '}', v, b, c, line),
        FormView::Sequence(v) => flat_shows_bracketed('[', ']', v, b, c, line),
        FormView::Quote(i) => flat_shows_behind(n.node, *i, b, c, line),
        FormView::Quasiquote(i) => flat_shows_behind(n.node, *i, b, c, line),
        FormView::Unquote(i) => flat_shows_behind(n.node, *i, b, c, line),
        FormView::UnquoteSplice(i) => flat_shows_behind(n.node, *i, b, c, line),
        FormView::HashFn(i) => flat_shows_behind(n.node, *i, b, c, line),
        _ => {},
    }
}

proof fn width_of_sign(f: FormView)
    ensures
        width(sign(f)) == sign(f).len(),
{
    width_of_ascii('\'');
    width_of_ascii('`');
    width_of_ascii(',');
    width_of_ascii('@');
    width_of_ascii('#');
    width_of_both(seq![','], seq!['@']);
    assert(seq![','] + seq!['@'] =~= seq![',', '@']);
}

proof fn flat_shows_behind(f: FormView, i: NodeView, b: Seq<u8>, c: int, line: bool)
    requires
        flat(i, b) is Some,
        line || c + width(sign(f) + flat(i, b)->0) <= COL_LIMIT,
    ensures
        (sign(f) + flat(i, b)->0).skip(sign(f).len() as int) == flat(i, b)->0,
        shows(flat(i, b)->0, c + sign(f).len(), i, b, line),
    decreases i, 2int,
{
    width_of_sign(f);
    width_of_both(sign(f), flat(i, b)->0);
    assert((sign(f) + flat(i, b)->0).skip(sign(f).len() as int) =~= flat(i, b)->0);
    flat_shows(i, b, c + sign(f).len(), line);
}

spec fn flat_ends(v: Seq<NodeView>, b: Seq<u8>) -> Seq<int> {
    Seq::new(v.len(), |k: int| 1 + flat_items(v, b, k + 1)->0.len() as int)
}

spec fn flat_starts(v: Seq<NodeView>, b: Seq<u8>) -> Seq<int> {
    Seq::new(v.len(), |k: int| flat_ends(v, b)[k] - flat(v[k], b)->0.len() as int)
}

/// Where a child stands in a form on one line.
proof fn flat_child_stands(t: Seq<char>, open: char, v: Seq<NodeView>, b: Seq<u8>, k: int)
    requires
        0 <= k < v.len(),
        flat_items(v, b, v.len() as int) is Some,
        t.len() == flat_items(v, b, v.len() as int)->0.len() + 2,
        t.drop_last() == seq![open] + flat_items(v, b, v.len() as int)->0,
    ensures
        flat(v[k], b) is Some,
        0 < flat_starts(v, b)[k] <= flat_ends(v, b)[k] < t.len(),
        t.subrange(flat_starts(v, b)[k], flat_ends(v, b)[k]) == flat(v[k], b)->0,
        k == 0 ==> flat_starts(v, b)[k] == 1,
        k > 0 ==> {
            &&& flat_starts(v, b)[k] == flat_ends(v, b)[k - 1] + 1
            &&& t[flat_ends(v, b)[k - 1]] == ' '
        },
{
    let n = v.len() as int;
    let items = flat_items(v, b, n)->0;
    let ends = flat_ends(v, b);
    flat_items_start(v, b, k + 1, n);
    flat_items_start(v, b, k, k + 1);
    let all = flat_items(v, b, k + 1)->0;
    let item = flat(v[k], b)->0;
    let before = if k == 0 {
        seq![open]
    } else {
        seq![open] + flat_items(v, b, k)->0 + seq![' ']
    };
    assert(t.take(ends[k]) =~= t.drop_last().take(ends[k]));
    assert(t.drop_last().take(ends[k]) =~= seq![open] + items.take(all.len() as int));
    assert(seq![open] + all =~= before + item);
    part_of(t, ends[k], before, item);
    if k > 0 {
        let e = ends[k - 1];
        assert(e == before.len() - 1);
        assert(before[e] == ' ');
        assert(t[e] == t.take(before.len() as int)[e]);
    }
}

proof fn flat_child_shows(
    t: Seq<char>,
    open: char,
    v: Seq<NodeView>,
    b: Seq<u8>,
    c: int,
    line: bool,
    k: int,
)
    requires
        0 <= k < v.len(),
        flat_items(v, b, v.len() as int) is Some,
        t.len() == flat_items(v, b, v.len() as int)->0.len() + 2,
        t.drop_last() == seq![open] + flat_items(v, b, v.len() as int)->0,
        line || c + width(t) <= COL_LIMIT,
    ensures
        shows_child(t, c, v, b, line, flat_starts(v, b), flat_ends(v, b), k),
    decreases v, 0int,
{
    let n = v.len() as int;
    let ends = flat_ends(v, b);
    let at = flat_starts(v, b);
    one_line_items(v, b, n);
    flat_child_stands(t, open, v, b, k);
    width_of_start(t, ends[k]);
    flat_shows(v[k], b, column(t, c, at[k]), true);
    none_holds_comment(v, n, k);
    if k > 0 {
        none_holds_comment(v, n, k - 1);
        no_comment_at_end(v[k - 1]);
    }
}

proof fn flat_shows_bracketed(
    open: char,
    close: char,
    v: Seq<NodeView>,
    b: Seq<u8>,
    c: int,
    line: bool,
)
    requires
        flat_items(v, b, v.len() as int) is Some,
        line || c + width(bracketed(open, flat_items(v, b, v.len() as int), close)->0) <= COL_LIMIT,
    ensures
        shows_bracketed(
            open,
            close,
            bracketed(open, flat_items(v, b, v.len() as int), close)->0,
            c,
            v,
            b,
            line,
        ),
    decreases v, 1int,
{
    let n = v.len() as int;
    let items = flat_items(v, b, n)->0;
    let t = seq![open] + items + seq![close];
    assert(t.drop_last() =~= seq![open] + items);
    if n > 0 {
        one_line_items(v, b, n);
        let ends = flat_ends(v, b);
        let at = flat_starts(v, b);
        assert forall|k: int| 0 <= k < n implies #[trigger] shows_child(
            t,
            c,
            v,
            b,
            line,
            at,
            ends,
            k,
        ) by {
            flat_child_shows(t, open, v, b, c, line, k);
        }
        none_holds_comment(v, n, n - 1);
        no_comment_at_end(v[n - 1]);
        assert forall|k: int| 1 <= k < n implies !#[trigger] broken(t, ends, k) by {
            flat_child_stands(t, open, v, b, k);
        }
        children_are_shown(t, c, v, b, line, at, ends, n);
        assert forall|k: int| 0 <= k < n implies 0 < #[trigger] at[k] <= ends[k] < t.len() by {
            flat_child_stands(t, open, v, b, k);
        }
        bracketed_is_shown(open, close, t, c, v, b, line, at, ends);
    }
}

// ── Forms spread over lines ─────────────────────────────────────────────────

/// Whether the `k`-th child stands on the head line.
spec fn on_head_line(v: Seq<NodeView>, b: Seq<u8>, c: int, k: int) -> bool {
    packs(v, b, tall_items(v, b, c, k).1, k)
}

/// The text of the `k`-th child.
spec fn child_text(v: Seq<NodeView>, b: Seq<u8>, c: int, k: int) -> Seq<char> {
    if k == 0 {
        head_text(v, b)
    } else if on_head_line(v, b, c, k) {
        flat(v[k], b)->0
    } else {
        node_text(v[k], b, c + 2)
    }
}

spec fn tall_ends(v: Seq<NodeView>, b: Seq<u8>, c: int) -> Seq<int> {
    Seq::new(v.len(), |k: int| 1 + tall_items(v, b, c, k + 1).0.len() as int)
}

spec fn tall_starts(v: Seq<NodeView>, b: Seq<u8>, c: int) -> Seq<int> {
    Seq::new(v.len(), |k: int| tall_ends(v, b, c)[k] - child_text(v, b, c, k).len() as int)
}

proof fn tall_items_start(v: Seq<NodeView>, b: Seq<u8>, c: int, k: int, m: int)
    requires
        1 <= k <= m <= v.len(),
    ensures
        tall_items(v, b, c, k).0.len() <= tall_items(v, b, c, m).0.len(),
        tall_items(v, b, c, m).0.take(tall_items(v, b, c, k).0.len() as int) == tall_items(
            v,
            b,
            c,
            k,
        ).0,
    decreases m - k,
{
    let i = tall_items(v, b, c, k).0;
    if k < m {
        tall_items_start(v, b, c, k, m - 1);
        let x = tall_items(v, b, c, m - 1).0;
        let y = tall_items(v, b, c, m).0;
        assert(y.take(x.len() as int) =~= x);
        assert(y.take(i.len() as int) =~= y.take(x.len() as int).take(i.len() as int));
    } else {
        assert(i.take(i.len() as int) =~= i);
    }
}

/// The column that the formatter counts is that of the text.
proof fn counted_column(open: char, v: Seq<NodeView>, b: Seq<u8>, c: int, k: int)
    requires
        1 <= k <= v.len(),
        open <= '\u{7F}',
    ensures
        tall_items(v, b, c, k).1 matches Some(col) ==> col == c + width(
            seq![open] + tall_items(v, b, c, k).0,
        ),
        tall_items(v, b, c, k).1 is Some <==> (k == 1 || on_head_line(v, b, c, k - 1)),
        k > 1 && on_head_line(v, b, c, k - 1) ==> tall_items(v, b, c, k - 1).1 is Some,
    decreases k,
{
    width_of_ascii(open);
    width_of_ascii(' ');
    if k > 1 {
        counted_column(open, v, b, c, k - 1);
        if on_head_line(v, b, c, k - 1) {
            let before = seq![open] + tall_items(v, b, c, k - 1).0;
            let f = flat(v[k - 1], b)->0;
            width_of_both(before, seq![' ']);
            width_of_both(before + seq![' '], f);
            assert(before + seq![' '] + f =~= seq![open] + tall_items(v, b, c, k).0);
        }
    } else {
        width_of_both(seq![open], head_text(v, b));
    }
}

/// Where a child stands in a form that is spread over lines.
proof fn tall_child_stands(t: Seq<char>, open: char, v: Seq<NodeView>, b: Seq<u8>, c: int, k: int)
    requires
        0 <= k < v.len(),
        0 <= c,
        t.len() > 1 + tall_items(v, b, c, v.len() as int).0.len(),
        t.take(1 + tall_items(v, b, c, v.len() as int).0.len() as int) == seq![open] + tall_items(
            v,
            b,
            c,
            v.len() as int,
        ).0,
    ensures
        0 < tall_starts(v, b, c)[k] <= tall_ends(v, b, c)[k] < t.len(),
        t.subrange(tall_starts(v, b, c)[k], tall_ends(v, b, c)[k]) == child_text(v, b, c, k),
        t.take(tall_ends(v, b, c)[k]) == seq![open] + tall_items(v, b, c, k + 1).0,
        k == 0 ==> tall_starts(v, b, c)[k] == 1,
        k > 0 && on_head_line(v, b, c, k) ==> {
            &&& tall_starts(v, b, c)[k] == tall_ends(v, b, c)[k - 1] + 1
            &&& t[tall_ends(v, b, c)[k - 1]] == ' '
        },
        k > 0 && !on_head_line(v, b, c, k) ==> {
            &&& opens_line(t, tall_ends(v, b, c)[k - 1], tall_starts(v, b, c)[k])
            &&& column(t, c, tall_starts(v, b, c)[k]) == c + 2
        },
{
    let n = v.len() as int;
    let items = tall_items(v, b, c, n).0;
    let ends = tall_ends(v, b, c);
    tall_items_start(v, b, c, k + 1, n);
    let all = tall_items(v, b, c, k + 1).0;
    let part = child_text(v, b, c, k);
    let gap = if k == 0 {
        Seq::empty()
    } else if on_head_line(v, b, c, k) {
        seq![' ']
    } else {
        seq!['\n'] + spaces(c + 2)
    };
    let before = if k == 0 {
        seq![open]
    } else {
        seq![open] + tall_items(v, b, c, k).0 + gap
    };
    assert(t.take(ends[k]) =~= t.take(1 + items.len() as int).take(ends[k]));
    assert((seq![open] + items).take(ends[k]) =~= seq![open] + items.take(all.len() as int));
    assert(seq![open] + all =~= before + part);
    part_of(t, ends[k], before, part);
    if k > 0 {
        let e = ends[k - 1];
        let p = before.len() as int;
        assert(p == tall_starts(v, b, c)[k]);
        assert(forall|i: int| 0 <= i < p ==> #[trigger] t[i] == t.take(p)[i]);
        assert(e == 1 + tall_items(v, b, c, k).0.len());
        if !on_head_line(v, b, c, k) {
            assert(t[e] == '\n');
            assert forall|i: int| e + 1 <= i < p implies #[trigger] t[i] == ' ' by {
                assert(before[i] == spaces(c + 2)[i - e - 1]);
            }
            column_of_line(t, c, e, p);
        }
    }
}

proof fn tall_child_shows(t: Seq<char>, open: char, v: Seq<NodeView>, b: Seq<u8>, c: int, k: int)
    requires
        0 <= k < v.len(),
        0 <= c,
        open <= '\u{7F}',
        t.len() > 1 + tall_items(v, b, c, v.len() as int).0.len(),
        t.take(1 + tall_items(v, b, c, v.len() as int).0.len() as int) == seq![open] + tall_items(
            v,
            b,
            c,
            v.len() as int,
        ).0,
    ensures
        shows_child(t, c, v, b, false, tall_starts(v, b, c), tall_ends(v, b, c), k),
    decreases v, 0int,
{
    let ends = tall_ends(v, b, c);
    let at = tall_starts(v, b, c);
    tall_child_stands(t, open, v, b, c, k);
    one_line_without_comments(v[k], b);
    if k == 0 {
        if !holds_comment(v[0]) {
            flat_shows(v[0], b, column(t, c, at[0]), true);
        }
    } else if on_head_line(v, b, c, k) {
        flat_shows(v[k], b, column(t, c, at[k]), true);
        counted_column(open, v, b, c, k);
        counted_column(open, v, b, c, k + 1);
        if k > 1 {
            one_line_without_comments(v[k - 1], b);
            no_comment_at_end(v[k - 1]);
        }
    } else {
        node_shows(v[k], b, c + 2);
    }
}

proof fn tall_breaks_rightly(
    t: Seq<char>,
    open: char,
    v: Seq<NodeView>,
    b: Seq<u8>,
    c: int,
    k: int,
)
    requires
        1 <= k < v.len(),
        0 <= c,
        open <= '\u{7F}',
        t.len() > 1 + tall_items(v, b, c, v.len() as int).0.len(),
        t.take(1 + tall_items(v, b, c, v.len() as int).0.len() as int) == seq![open] + tall_items(
            v,
            b,
            c,
            v.len() as int,
        ).0,
        flat_items(v, b, v.len() as int) matches Some(items) ==> c + width(items) + 2 > COL_LIMIT,
    ensures
        broken(t, tall_ends(v, b, c), k) <==> !on_head_line(v, b, c, k),
        broken(t, tall_ends(v, b, c), k) ==> breaks_rightly(t, c, v, b, tall_ends(v, b, c), k),
        k > 1 && broken(t, tall_ends(v, b, c), k - 1) ==> broken(t, tall_ends(v, b, c), k),
{
    let ends = tall_ends(v, b, c);
    tall_child_stands(t, open, v, b, c, k);
    tall_child_stands(t, open, v, b, c, k - 1);
    counted_column(open, v, b, c, k);
    one_line_without_comments(v[k], b);
    if !on_head_line(v, b, c, k) && has_body(v) {
        assert forall|j: int|
            1 <= j < v.len() && ((#[trigger] v[j]).node is List || v[j].node
                is Table) implies broken(t, ends, j) by {
            assert(!on_head_line(v, b, c, j));
            tall_child_stands(t, open, v, b, c, j);
        }
    }
}

proof fn tall_shows(open: char, close: char, v: Seq<NodeView>, b: Seq<u8>, c: int)
    requires
        0 <= c,
        open <= '\u{7F}',
        flat_items(v, b, v.len() as int) matches Some(items) ==> c + width(items) + 2 > COL_LIMIT,
    ensures
        shows_bracketed(open, close, tall_compound(open, close, v, b, c), c, v, b, false),
    decreases v, 1int,
{
    let n = v.len() as int;
    if n > 0 {
        let t = tall_compound(open, close, v, b, c);
        let items = tall_items(v, b, c, n).0;
        let gap = closing_gap(v, c);
        assert(t == seq![open] + items + gap + seq![close]);
        assert(t.take(1 + items.len() as int) =~= seq![open] + items);
        let ends = tall_ends(v, b, c);
        let at = tall_starts(v, b, c);
        assert forall|k: int| 0 <= k < n implies #[trigger] shows_child(
            t,
            c,
            v,
            b,
            false,
            at,
            ends,
            k,
        ) by {
            tall_child_shows(t, open, v, b, c, k);
        }
        children_are_shown(t, c, v, b, false, at, ends, n);
        assert forall|k: int| 0 <= k < n implies 0 < #[trigger] at[k] <= ends[k] < t.len() by {
            tall_child_stands(t, open, v, b, c, k);
        }
        tall_end(t, open, close, v, b, c);
        assert forall|k: int|
            1 < k < n && broken(t, ends, k - 1) implies #[trigger] broken(t, ends, k) by {
            tall_breaks_rightly(t, open, v, b, c, k);
        }
        assert forall|k: int| 1 <= k < n && #[trigger] broken(t, ends, k) implies breaks_rightly(
            t,
            c,
            v,
            b,
            ends,
            k,
        ) by {
            tall_breaks_rightly(t, open, v, b, c, k);
        }
        bracketed_is_shown(open, close, t, c, v, b, false, at, ends);
    }
}

proof fn tall_end(
    t: Seq<char>,
    open: char,
    close: char,
    v: Seq<NodeView>,
    b: Seq<u8>,
    c: int,
)
    requires
        v.len() > 0,
        0 <= c,
        t == seq![open] + tall_items(v, b, c, v.len() as int).0 + closing_gap(v, c) + seq![close],
    ensures
        t[0] == open,
        t.last() == close,
        if ends_in_comment(v.last()) {
            &&& opens_line(t, tall_ends(v, b, c).last(), t.len() - 1)
            &&& column(t, c, t.len() - 1) == c + 2
        } else {
            tall_ends(v, b, c).last() == t.len() - 1
        },
{
    let e = tall_ends(v, b, c).last();
    let items = tall_items(v, b, c, v.len() as int).0;
    assert(e == 1 + items.len());
    if ends_in_comment(v.last()) {
        let gap = closing_gap(v, c);
        assert(t[e] == gap[0]);
        assert forall|i: int| e + 1 <= i < t.len() - 1 implies #[trigger] t[i] == ' ' by {
            assert(t[i] == gap[i - e]);
            assert(gap[i - e] == spaces(c + 2)[i - e - 1]);
        }
        column_of_line(t, c, e, t.len() - 1);
    }
}

/// Every form is set out as [`shows`] says, from the column it is written at.
pub proof fn node_shows(n: NodeView, b: Seq<u8>, c: int)
    requires
        0 <= c,
    ensures
        shows(node_text(n, b, c), c, n, b, false),
    decreases n, 1int,
{
    match flat(n, b) {
        Some(f) => if c + width(f) <= COL_LIMIT {
            one_line_without_comments(n, b);
            flat_shows(n, b, c, false);
        } else {
            tall_node_shows(n, b, c);
        },
        None => tall_node_shows(n, b, c),
    }
}

proof fn width_in_brackets(open: char, close: char, items: Seq<char>)
    requires
        open <= '\u{7F}',
        close <= '\u{7F}',
    ensures
        width(seq![open] + items + seq![close]) == width(items) + 2,
{
    width_of_ascii(open);
    width_of_ascii(close);
    width_of_both(seq![open], items);
    width_of_both(seq![open] + items, seq![close]);
}

proof fn tall_node_shows(n: NodeView, b: Seq<u8>, c: int)
    requires
        0 <= c,
        flat(n, b) matches Some(f) ==> c + width(f) > COL_LIMIT,
    ensures
        shows(tall(n, b, c), c, n, b, false),
    decreases n, 0int,
{
    match n.node {
        FormView::List(v) => {
            if let Some(items) = flat_items(v, b, v.len() as int) {
                width_in_brackets('(', ')', items);
            }
            tall_shows('(', ')', v, b, c);
        },
        FormView::Table(v) => {
            if let Some(items) = flat_items(v, b, v.len() as int) {
                width_in_brackets('{', '}', items);
            }
            tall_shows('{', '}', v, b, c);
        },
        FormView::Sequence(v) => {
            if let Some(items) = flat_items(v, b, v.len() as int) {
                width_in_brackets('[', ']', items);
            }
            tall_shows('[', ']', v, b, c);
        },
        FormView::Quote(i) => behind_sign(n.node, *i, b, c),
        FormView::Quasiquote(i) => behind_sign(n.node, *i, b, c),
        FormView::Unquote(i) => behind_sign(n.node, *i, b, c),
        FormView::UnquoteSplice(i) => behind_sign(n.node, *i, b, c),
        FormView::HashFn(i) => behind_sign(n.node, *i, b, c),
        _ => {},
    }
}

proof fn behind_sign(f: FormView, i: NodeView, b: Seq<u8>, c: int)
    requires
        0 <= c,
    ensures
        ({
            let inner = node_text(i, b, c + sign(f).len());
            &&& (sign(f) + inner).skip(sign(f).len() as int) == inner
            &&& shows(inner, c + sign(f).len(), i, b, false)
        }),
    decreases i, 2int,
{
    let inner = node_text(i, b, c + sign(f).len());
    node_shows(i, b, c + sign(f).len());
    assert((sign(f) + inner).skip(sign(f).len() as int) =~= inner);
}

// ── Whole files ─────────────────────────────────────────────────────────────

/// The `k`-th form of a file stands in its place: at the start of a line, a blank line
/// behind the form before it, right below it where that is a comment.
pub open spec fn shows_form(
    t: Seq<char>,
    v: Seq<NodeView>,
    b: Seq<u8>,
    at: Seq<int>,
    ends: Seq<int>,
    k: int,
) -> bool {
    &&& 0 <= at[k] <= ends[k] <= t.len()
    &&& column(t, 0, at[k]) == 0
    &&& shows(t.subrange(at[k], ends[k]), 0, v[k], b, false)
    &&& if k == 0 {
        at[k] == 0
    } else {
        t.subrange(ends[k - 1], at[k]) == (if v[k - 1].node is Comment {
            seq!['\n']
        } else {
            seq!['\n', '\n']
        })
    }
    &&& k == v.len() - 1 ==> ends[k] == t.len()
}

/// The text shows the forms of a file one below the other, each from column 0.
pub open spec fn shows_file(
    t: Seq<char>,
    v: Seq<NodeView>,
    b: Seq<u8>,
    at: Seq<int>,
    ends: Seq<int>,
) -> bool {
    &&& at.len() == v.len()
    &&& ends.len() == v.len()
    &&& forall|k: int| 0 <= k < v.len() ==> #[trigger] shows_form(t, v, b, at, ends, k)
    &&& v.len() == 0 ==> t.len() == 0
}

spec fn form_ends(v: Seq<NodeView>, b: Seq<u8>) -> Seq<int> {
    Seq::new(v.len(), |k: int| top_level(v, b, k + 1).len() as int)
}

spec fn form_starts(v: Seq<NodeView>, b: Seq<u8>) -> Seq<int> {
    Seq::new(v.len(), |k: int| form_ends(v, b)[k] - node_text(v[k], b, 0).len() as int)
}

proof fn top_level_start(v: Seq<NodeView>, b: Seq<u8>, k: int, m: int)
    requires
        0 <= k <= m <= v.len(),
    ensures
        top_level(v, b, k).len() <= top_level(v, b, m).len(),
        top_level(v, b, m).take(top_level(v, b, k).len() as int) == top_level(v, b, k),
    decreases m - k,
{
    let i = top_level(v, b, k);
    if k < m {
        top_level_start(v, b, k, m - 1);
        let x = top_level(v, b, m - 1);
        let y = top_level(v, b, m);
        assert(y.take(x.len() as int) =~= x);
        assert(y.take(i.len() as int) =~= y.take(x.len() as int).take(i.len() as int));
    } else {
        assert(i.take(i.len() as int) =~= i);
    }
}

proof fn form_is_shown(v: Seq<NodeView>, b: Seq<u8>, k: int)
    requires
        0 <= k < v.len(),
    ensures
        shows_form(top_level(v, b, v.len() as int), v, b, form_starts(v, b), form_ends(v, b), k),
{
    let t = top_level(v, b, v.len() as int);
    let at = form_starts(v, b);
    let ends = form_ends(v, b);
    let part = node_text(v[k], b, 0);
    top_level_start(v, b, k + 1, v.len() as int);
    top_level_start(v, b, k, v.len() as int);
    node_shows(v[k], b, 0);
    if k == 0 {
        part_of(t, ends[k], Seq::empty(), part);
    } else {
        let gap = if v[k - 1].node is Comment {
            seq!['\n']
        } else {
            seq!['\n', '\n']
        };
        let before = top_level(v, b, k) + gap;
        assert(top_level(v, b, k + 1) == before + part);
        part_of(t, ends[k], before, part);
        part_of(t, at[k], top_level(v, b, k), gap);
        let p = at[k];
        assert(t[p - 1] == t.take(p)[p - 1]);
        assert(before[p - 1] == gap.last());
    }
}

/// The text shows the forms of the source, set out as [`shows_file`] says; at its end
/// all line breaks but one are left out.
pub open spec fn set_out(src: Seq<char>, text: Seq<char>) -> bool {
    exists|t: Seq<char>, at: Seq<int>, ends: Seq<int>| #[trigger]
        shows_file(t, parse_rich_source(src).0, vstd::utf8::encode_utf8(src), at, ends) && text
            == without_final_breaks(t).push('\n')
}

/// The layout of a formatted text. Every form of the file starts in column 0. Where a
/// bracketed form is spread over several lines, each child behind its head that opens
/// a line stands exactly two columns to the right of the form's opening bracket,
/// wherever that bracket stands; so the deeper a form is nested, the further right its
/// lines open. (At the end of the text all line breaks but one are left out.)
pub proof fn formatted_text_is_indented(src: Seq<char>)
    ensures
        formatted(src) matches Some(text) ==> set_out(src, text),
{
    if let Some(text) = formatted(src) {
        let v = parse_rich_source(src).0;
        let b = vstd::utf8::encode_utf8(src);
        let t = top_level(v, b, v.len() as int);
        let at = form_starts(v, b);
        let ends = form_ends(v, b);
        assert forall|k: int| 0 <= k < v.len() implies #[trigger] shows_form(
            t,
            v,
            b,
            at,
            ends,
            k,
        ) by {
            form_is_shown(v, b, k);
        }
        assert(shows_file(t, v, b, at, ends));
    }
}

} // verus!
