//! Formatted text has the tokens of its source, and formatting twice is formatting
//! once.
use vstd::prelude::*;
use vstd::utf8::*;

use crate::fmt::{
    ends_in_comment, flat, flat_items, formatted, is_white, node_text, packs, sign, source_text,
    tall, tall_items, top_level, trimmed_end, without_final_breaks,
};
use crate::layout::{
    all_is_read, ascii_text, behind, follows, follows_kept, gap_before, glued, inner_forms_end,
    inside_is_read, kept, laid_at, lexed, nothing_read, reads, source_is_lexed, spelled, stands,
    text_end, text_in, text_splits, token_text, top_level_is_laid, trimmed_and_blanks,
};
use crate::lexer::{
    blank_end, char_end, comment_at, delim_byte, escape_at, escape_bounds, is_shebang,
    lex_with_comments, next_token_at, next_token_bounds, run_end_bounds, span_at, span_on_text,
    spans_in_order, string_body, tokens_from, tokens_in_order, tokens_on_boundaries, ws_byte, Span,
    SpannedTokenView, TokenView, BACKSLASH, DQUOTE, LF,
};
use crate::parser::{
    closer, form_at, form_at_placed, form_at_progress, forms_from, forms_until, is_prefix, opener,
    parse_rich_source, tokens_of_text, Bracket, FormView, NodeView, ParseErrorView,
};
use crate::reread::{
    alike_at, all_alike, all_words, blanks_are_passed, break_is_a_byte, bytes_between,
    bytes_of_start, chained, comes_next, copied, cut_short, ends_of_bytes, ends_open, exact_end,
    gap_before_word, gap_end, is_atom, kept_bytes, kept_comment_bytes, left_open, next_begins, off,
    plain_from, run_ends_at, same_subrange, set_as_laid, string_closed, string_ends, token_begins,
    token_bytes, tokens_are_chained, tokens_are_reread, word_stands,
};
use crate::strings::{boundary_after_ascii, valid_between};
use crate::text::encode_concat;

verus! {

// ── Forms of the same shape ─────────────────────────────────────────────────

/// Two forms are built alike from atoms that are spelled alike; comments may differ
/// in the blanks at their end.
pub open spec fn same_shape(b: Seq<u8>, n: NodeView, c: Seq<u8>, m: NodeView) -> bool
    decreases n, 2int,
{
    match n.node {
        FormView::Comment(x) => m.node matches FormView::Comment(y) && trimmed_end(x)
            == trimmed_end(y),
        FormView::List(v) => m.node matches FormView::List(w) && same_items(b, v, c, w),
        FormView::Table(v) => m.node matches FormView::Table(w) && same_items(b, v, c, w),
        FormView::Sequence(v) => m.node matches FormView::Sequence(w) && same_items(b, v, c, w),
        FormView::Quote(i) => m.node matches FormView::Quote(j) && same_shape(b, *i, c, *j),
        FormView::Quasiquote(i) => m.node matches FormView::Quasiquote(j) && same_shape(
            b,
            *i,
            c,
            *j,
        ),
        FormView::Unquote(i) => m.node matches FormView::Unquote(j) && same_shape(b, *i, c, *j),
        FormView::UnquoteSplice(i) => m.node matches FormView::UnquoteSplice(j) && same_shape(
            b,
            *i,
            c,
            *j,
        ),
        FormView::HashFn(i) => m.node matches FormView::HashFn(j) && same_shape(b, *i, c, *j),
        _ => n.node == m.node && source_text(n.span, b) == source_text(m.span, c),
    }
}

/// The forms between two brackets have the same shapes; a first form that does not
/// fit on a single line has the same source.
pub open spec fn same_items(b: Seq<u8>, v: Seq<NodeView>, c: Seq<u8>, w: Seq<NodeView>) -> bool
    decreases v, 1int,
{
    &&& same_shapes(b, v, c, w)
    &&& v.len() > 0 && flat(v[0], b) is None ==> source_text(v[0].span, b) == source_text(
        w[0].span,
        c,
    )
}

/// The forms have the same shapes, one by one.
pub open spec fn same_shapes(b: Seq<u8>, v: Seq<NodeView>, c: Seq<u8>, w: Seq<NodeView>) -> bool
    decreases v, 0int,
{
    &&& v.len() == w.len()
    &&& forall|i: int| 0 <= i < v.len() ==> same_shape(b, #[trigger] v[i], c, w[i])
}

proof fn one_more_shape(
    b: Seq<u8>,
    n: NodeView,
    v: Seq<NodeView>,
    c: Seq<u8>,
    m: NodeView,
    w: Seq<NodeView>,
)
    requires
        same_shape(b, n, c, m),
        same_shapes(b, v, c, w),
    ensures
        same_shapes(b, seq![n] + v, c, seq![m] + w),
{
    let x = seq![n] + v;
    let y = seq![m] + w;
    assert forall|i: int| 0 <= i < x.len() implies same_shape(b, #[trigger] x[i], c, y[i]) by {
        if i > 0 {
            assert(x[i] == v[i - 1]);
            assert(y[i] == w[i - 1]);
        }
    }
}

/// The first forms of brackets that do not fit on a single line have the same source.
spec fn heads_alike(
    b: Seq<u8>,
    t: Seq<SpannedTokenView>,
    c: Seq<u8>,
    u: Seq<SpannedTokenView>,
) -> bool {
    forall|m: int| #[trigger]
        kept(b, t, m) ==> same_stretch(b, t, c, u, m + 1, form_at(t, m + 1).pos)
}

/// The tokens from `p` up to `q` have the same source.
spec fn same_stretch(
    b: Seq<u8>,
    t: Seq<SpannedTokenView>,
    c: Seq<u8>,
    u: Seq<SpannedTokenView>,
    p: int,
    q: int,
) -> bool {
    text_in(b, t[p].span.start as int, t[q - 1].span.end as int) == text_in(
        c,
        u[p].span.start as int,
        u[q - 1].span.end as int,
    )
}

/// The tokens of two texts, which are to be read alike.
spec fn twins(b: Seq<u8>, t: Seq<SpannedTokenView>, c: Seq<u8>, u: Seq<SpannedTokenView>) -> bool {
    &&& all_alike(b, t, c, u, 0)
    &&& heads_alike(b, t, c, u)
    &&& tokens_of_text(b, t)
    &&& tokens_of_text(c, u)
}

/// From the same tokens a form of the same shape is read.
proof fn form_is_reread(
    b: Seq<u8>,
    t: Seq<SpannedTokenView>,
    c: Seq<u8>,
    u: Seq<SpannedTokenView>,
    p: int,
)
    requires
        twins(b, t, c, u),
        0 <= p <= t.len(),
        form_at(t, p).errors.len() == 0,
    ensures
        ({
            let x = form_at(t, p);
            let y = form_at(u, p);
            &&& x.pos == y.pos
            &&& y.errors.len() == 0
            &&& x.node is Some <==> y.node is Some
            &&& x.node is Some ==> same_shape(b, x.node->0, c, y.node->0)
        }),
    decreases t.len() - p, 0int,
{
    if p < t.len() {
        assert(alike_at(b, t, c, u, 0, p));
        let tok = t[p].token;
        match opener(tok) {
            Some(bracket) => {
                inside_is_reread(b, t, c, u, p + 1, bracket, t[p].span, u[p].span);
                head_is_reread(b, t, c, u, p, bracket);
            },
            None => {
                if is_prefix(tok) {
                    form_is_reread(b, t, c, u, p + 1);
                }
            },
        }
    }
}

/// The first form of a bracket.
proof fn head_is_reread(
    b: Seq<u8>,
    t: Seq<SpannedTokenView>,
    c: Seq<u8>,
    u: Seq<SpannedTokenView>,
    p: int,
    bracket: Bracket,
)
    requires
        twins(b, t, c, u),
        0 <= p < t.len(),
        opener(t[p].token) == Some(bracket),
        forms_until(t, p + 1, bracket, t[p].span).errors.len() == 0,
        forms_until(u, p + 1, bracket, u[p].span).errors.len() == 0,
        same_shapes(
            b,
            forms_until(t, p + 1, bracket, t[p].span).forms,
            c,
            forms_until(u, p + 1, bracket, u[p].span).forms,
        ),
        forms_until(t, p + 1, bracket, t[p].span).forms.len() > 0 ==> form_at(t, p + 1).pos
            == form_at(u, p + 1).pos,
    ensures
        same_items(
            b,
            forms_until(t, p + 1, bracket, t[p].span).forms,
            c,
            forms_until(u, p + 1, bracket, u[p].span).forms,
        ),
{
    let v = forms_until(t, p + 1, bracket, t[p].span).forms;
    let w = forms_until(u, p + 1, bracket, u[p].span).forms;
    if v.len() > 0 && flat(v[0], b) is None {
        inside_is_read(t, p + 1, bracket, t[p].span);
        inside_is_read(u, p + 1, bracket, u[p].span);
        assert(behind(t, p + 1, 0) == p + 1);
        assert(behind(u, p + 1, 0) == p + 1);
        assert(reads(t, behind(t, p + 1, 0), v[0]));
        assert(reads(u, behind(u, p + 1, 0), w[0]));
        form_at_placed(b, t, p + 1);
        form_at_placed(c, u, p + 1);
        assert(kept(b, t, p));
        assert(same_stretch(b, t, c, u, p + 1, form_at(t, p + 1).pos));
    }
}

proof fn inside_is_reread(
    b: Seq<u8>,
    t: Seq<SpannedTokenView>,
    c: Seq<u8>,
    u: Seq<SpannedTokenView>,
    p: int,
    bracket: Bracket,
    open: Span,
    other: Span,
)
    requires
        twins(b, t, c, u),
        0 <= p <= t.len(),
        forms_until(t, p, bracket, open).errors.len() == 0,
    ensures
        ({
            let x = forms_until(t, p, bracket, open);
            let y = forms_until(u, p, bracket, other);
            &&& x.pos == y.pos
            &&& y.errors.len() == 0
            &&& same_shapes(b, x.forms, c, y.forms)
            &&& x.forms.len() > 0 ==> form_at(t, p).pos == form_at(u, p).pos
        }),
    decreases t.len() - p, 1int,
{
    if p < t.len() {
        assert(alike_at(b, t, c, u, 0, p));
        if t[p].token != closer(bracket) {
            let x = form_at(t, p);
            let y = form_at(u, p);
            form_at_progress(t, p);
            assert(forms_until(t, p, bracket, open).errors == x.errors + forms_until(
                t,
                x.pos,
                bracket,
                open,
            ).errors);
            form_is_reread(b, t, c, u, p);
            inside_is_reread(b, t, c, u, x.pos, bracket, open, other);
            assert(forms_until(u, p, bracket, other).errors == y.errors + forms_until(
                u,
                y.pos,
                bracket,
                other,
            ).errors);
            if x.node is Some {
                one_more_shape(
                    b,
                    x.node->0,
                    forms_until(t, x.pos, bracket, open).forms,
                    c,
                    y.node->0,
                    forms_until(u, x.pos, bracket, other).forms,
                );
            }
        }
    }
}

proof fn forms_are_reread(
    b: Seq<u8>,
    t: Seq<SpannedTokenView>,
    c: Seq<u8>,
    u: Seq<SpannedTokenView>,
    p: int,
)
    requires
        twins(b, t, c, u),
        0 <= p <= t.len(),
        forms_from(t, p).1.len() == 0,
    ensures
        forms_from(u, p).1.len() == 0,
        same_shapes(b, forms_from(t, p).0, c, forms_from(u, p).0),
    decreases t.len() - p,
{
    if p < t.len() {
        form_at_progress(t, p);
        let x = form_at(t, p);
        let y = form_at(u, p);
        if x.node is Some {
            assert(forms_from(t, p).1 == x.errors + forms_from(t, x.pos).1);
            form_is_reread(b, t, c, u, p);
            forms_are_reread(b, t, c, u, x.pos);
            assert(forms_from(u, p).1 == y.errors + forms_from(u, y.pos).1);
            one_more_shape(
                b,
                x.node->0,
                forms_from(t, x.pos).0,
                c,
                y.node->0,
                forms_from(u, x.pos).0,
            );
        } else {
            assert(x.errors.len() == 0);
            form_is_reread(b, t, c, u, p);
            nothing_read(t, p);
            assert(forms_from(t, x.pos).0.len() == 0);
            assert(forms_from(u, x.pos).0.len() == 0);
            assert(forms_from(u, x.pos).1.len() == 0);
        }
    }
}

// ── Forms of the same shape are written alike ───────────────────────────────

proof fn flat_alike(b: Seq<u8>, n: NodeView, c: Seq<u8>, m: NodeView)
    requires
        same_shape(b, n, c, m),
    ensures
        flat(n, b) == flat(m, c),
    decreases n, 1int, 0int,
{
    match (n.node, m.node) {
        (FormView::List(v), FormView::List(w)) => {
            flat_items_alike(b, v, c, w, v.len() as int);
        },
        (FormView::Table(v), FormView::Table(w)) => {
            flat_items_alike(b, v, c, w, v.len() as int);
        },
        (FormView::Sequence(v), FormView::Sequence(w)) => {
            flat_items_alike(b, v, c, w, v.len() as int);
        },
        (FormView::Quote(i), FormView::Quote(j)) => flat_alike(b, *i, c, *j),
        (FormView::Quasiquote(i), FormView::Quasiquote(j)) => flat_alike(b, *i, c, *j),
        (FormView::Unquote(i), FormView::Unquote(j)) => flat_alike(b, *i, c, *j),
        (FormView::UnquoteSplice(i), FormView::UnquoteSplice(j)) => flat_alike(b, *i, c, *j),
        (FormView::HashFn(i), FormView::HashFn(j)) => flat_alike(b, *i, c, *j),
        _ => {},
    }
}

proof fn flat_items_alike(b: Seq<u8>, v: Seq<NodeView>, c: Seq<u8>, w: Seq<NodeView>, k: int)
    requires
        same_items(b, v, c, w),
        0 <= k <= v.len(),
    ensures
        v.len() == w.len(),
        flat_items(v, b, k) == flat_items(w, c, k),
    decreases v, 0int, k,
{
    if k > 0 {
        flat_items_alike(b, v, c, w, k - 1);
        assert(same_shape(b, v[k - 1], c, w[k - 1]));
        flat_alike(b, v[k - 1], c, w[k - 1]);
    }
}

proof fn comment_ends_alike(b: Seq<u8>, n: NodeView, c: Seq<u8>, m: NodeView)
    requires
        same_shape(b, n, c, m),
    ensures
        ends_in_comment(n) == ends_in_comment(m),
    decreases n,
{
    match (n.node, m.node) {
        (FormView::Quote(i), FormView::Quote(j)) => comment_ends_alike(b, *i, c, *j),
        (FormView::Quasiquote(i), FormView::Quasiquote(j)) => comment_ends_alike(b, *i, c, *j),
        (FormView::Unquote(i), FormView::Unquote(j)) => comment_ends_alike(b, *i, c, *j),
        (FormView::UnquoteSplice(i), FormView::UnquoteSplice(j)) => {
            comment_ends_alike(b, *i, c, *j);
        },
        (FormView::HashFn(i), FormView::HashFn(j)) => comment_ends_alike(b, *i, c, *j),
        _ => {},
    }
}

proof fn last_comment_alike(b: Seq<u8>, v: Seq<NodeView>, c: Seq<u8>, w: Seq<NodeView>)
    requires
        same_items(b, v, c, w),
    ensures
        v.len() > 0 ==> ends_in_comment(v.last()) == ends_in_comment(w.last()),
{
    if v.len() > 0 {
        let i = v.len() - 1;
        assert(same_shape(b, v[i], c, w[i]));
        comment_ends_alike(b, v[i], c, w[i]);
    }
}

proof fn node_alike(b: Seq<u8>, n: NodeView, c: Seq<u8>, m: NodeView, indent: int)
    requires
        same_shape(b, n, c, m),
    ensures
        node_text(n, b, indent) == node_text(m, c, indent),
    decreases n, 3int, 0int,
{
    flat_alike(b, n, c, m);
    tall_alike(b, n, c, m, indent);
}

proof fn tall_alike(b: Seq<u8>, n: NodeView, c: Seq<u8>, m: NodeView, indent: int)
    requires
        same_shape(b, n, c, m),
    ensures
        tall(n, b, indent) == tall(m, c, indent),
    decreases n, 2int, 0int,
{
    match (n.node, m.node) {
        (FormView::List(v), FormView::List(w)) => {
            tall_items_alike(b, v, c, w, indent, v.len() as int);
            last_comment_alike(b, v, c, w);
        },
        (FormView::Table(v), FormView::Table(w)) => {
            tall_items_alike(b, v, c, w, indent, v.len() as int);
            last_comment_alike(b, v, c, w);
        },
        (FormView::Sequence(v), FormView::Sequence(w)) => {
            tall_items_alike(b, v, c, w, indent, v.len() as int);
            last_comment_alike(b, v, c, w);
        },
        (FormView::Quote(i), FormView::Quote(j)) => node_alike(b, *i, c, *j, indent + 1),
        (FormView::Quasiquote(i), FormView::Quasiquote(j)) => {
            node_alike(b, *i, c, *j, indent + 1);
        },
        (FormView::Unquote(i), FormView::Unquote(j)) => node_alike(b, *i, c, *j, indent + 1),
        (FormView::UnquoteSplice(i), FormView::UnquoteSplice(j)) => {
            node_alike(b, *i, c, *j, indent + 2);
        },
        (FormView::HashFn(i), FormView::HashFn(j)) => node_alike(b, *i, c, *j, indent + 1),
        _ => {},
    }
}

proof fn tall_items_alike(
    b: Seq<u8>,
    v: Seq<NodeView>,
    c: Seq<u8>,
    w: Seq<NodeView>,
    indent: int,
    k: int,
)
    requires
        same_items(b, v, c, w),
        0 <= k <= v.len(),
    ensures
        v.len() == w.len(),
        k > 0 ==> tall_items(v, b, indent, k) == tall_items(w, c, indent, k),
    decreases v, 1int, k,
{
    if k > 0 {
        assert(same_shape(b, v[0], c, w[0]));
        flat_alike(b, v[0], c, w[0]);
        comment_ends_alike(b, v[0], c, w[0]);
        if k > 1 {
            tall_items_alike(b, v, c, w, indent, k - 1);
            assert(same_shape(b, v[k - 1], c, w[k - 1]));
            flat_alike(b, v[k - 1], c, w[k - 1]);
            node_alike(b, v[k - 1], c, w[k - 1], indent + 2);
            let col = tall_items(v, b, indent, k - 1).1;
            assert(packs(v, b, col, k - 1) == packs(w, c, col, k - 1));
        }
    }
}

proof fn top_level_alike(b: Seq<u8>, v: Seq<NodeView>, c: Seq<u8>, w: Seq<NodeView>, k: int)
    requires
        same_shapes(b, v, c, w),
        0 <= k <= v.len(),
    ensures
        top_level(v, b, k) == top_level(w, c, k),
    decreases k,
{
    if k > 0 {
        assert(same_shape(b, v[k - 1], c, w[k - 1]));
        node_alike(b, v[k - 1], c, w[k - 1], 0);
        if k > 1 {
            top_level_alike(b, v, c, w, k - 1);
            assert(same_shape(b, v[k - 2], c, w[k - 2]));
        }
    }
}

/// Formatting depends on the forms alone: two sources whose forms have the same
/// shapes are formatted alike, whatever whitespace they hold.
pub proof fn same_forms_are_formatted_alike(one: Seq<char>, other: Seq<char>)
    requires
        same_shapes(
            encode_utf8(one),
            parse_rich_source(one).0,
            encode_utf8(other),
            parse_rich_source(other).0,
        ),
    ensures
        formatted(one) is Some && formatted(other) is Some ==> formatted(one) == formatted(other),
{
    let v = parse_rich_source(one).0;
    top_level_alike(
        encode_utf8(one),
        v,
        encode_utf8(other),
        parse_rich_source(other).0,
        v.len() as int,
    );
}

// ── Signs at the end ────────────────────────────────────────────────────────

/// The tokens without the signs at their end, which have nothing to stand before.
pub open spec fn without_signs(t: Seq<SpannedTokenView>) -> Seq<SpannedTokenView>
    decreases t.len(),
{
    if t.len() > 0 && is_prefix(t.last().token) {
        without_signs(t.drop_last())
    } else {
        t
    }
}

/// A form is read alike without the sign at the end.
proof fn form_before_sign(t: Seq<SpannedTokenView>, p: int)
    requires
        t.len() > 0,
        is_prefix(t.last().token),
        0 <= p < t.len(),
        form_at(t, p).errors.len() == 0,
        form_at(t, p).node is Some,
    ensures
        p + 1 < t.len(),
        form_at(t.drop_last(), p) == form_at(t, p),
    decreases t.len() - p, 0int,
{
    let u = t.drop_last();
    if p + 1 == t.len() {
        assert(form_at(t, p + 1).node is None);
    }
    assert(u[p] == t[p]);
    match opener(t[p].token) {
        Some(bracket) => {
            inside_before_sign(t, p + 1, bracket, t[p].span);
        },
        None => {
            if is_prefix(t[p].token) {
                form_before_sign(t, p + 1);
            }
        },
    }
}

proof fn inside_before_sign(t: Seq<SpannedTokenView>, p: int, bracket: Bracket, open: Span)
    requires
        t.len() > 0,
        is_prefix(t.last().token),
        0 <= p <= t.len(),
        forms_until(t, p, bracket, open).errors.len() == 0,
    ensures
        p < t.len(),
        forms_until(t.drop_last(), p, bracket, open) == forms_until(t, p, bracket, open),
    decreases t.len() - p, 1int,
{
    let u = t.drop_last();
    if p + 1 < t.len() {
        assert(u[p] == t[p]);
    }
    if p < t.len() && t[p].token != closer(bracket) {
        let first = form_at(t, p);
        form_at_progress(t, p);
        let rest = forms_until(t, first.pos, bracket, open);
        assert(forms_until(t, p, bracket, open).errors == first.errors + rest.errors);
        if first.node is None {
            nothing_read(t, p);
        }
        form_before_sign(t, p);
        inside_before_sign(t, first.pos, bracket, open);
    }
}

/// Without errors, the same forms are read without the sign at the end.
proof fn forms_before_sign(t: Seq<SpannedTokenView>, p: int)
    requires
        t.len() > 0,
        is_prefix(t.last().token),
        0 <= p <= t.len(),
        forms_from(t, p).1.len() == 0,
    ensures
        p < t.len() ==> forms_from(t.drop_last(), p) == forms_from(t, p),
    decreases t.len() - p,
{
    let u = t.drop_last();
    if p < t.len() {
        let first = form_at(t, p);
        form_at_progress(t, p);
        if first.node is Some {
            let rest = forms_from(t, first.pos);
            assert(forms_from(t, p).1 == first.errors + rest.1);
            form_before_sign(t, p);
            form_at_progress(u, p);
            forms_before_sign(t, first.pos);
        } else {
            assert(first.errors.len() == 0);
            nothing_read(t, p);
            nothing_before_sign(t, p);
            assert(forms_from(t, first.pos).0.len() == 0);
            assert(forms_from(t, first.pos).1.len() == 0);
            if p < u.len() {
                form_at_progress(u, p);
                assert(forms_from(u, form_at(u, p).pos).0.len() == 0);
                assert(forms_from(u, form_at(u, p).pos).1.len() == 0);
            }
            assert(forms_from(t, p).0 =~= Seq::<NodeView>::empty());
            assert(forms_from(t, p).1 =~= Seq::<ParseErrorView>::empty());
            assert(forms_from(u, p).1 =~= Seq::<ParseErrorView>::empty());
        }
    }
}

proof fn nothing_before_sign(t: Seq<SpannedTokenView>, p: int)
    requires
        t.len() > 0,
        0 <= p < t.len(),
        form_at(t, p).errors.len() == 0,
        form_at(t, p).node is None,
    ensures
        form_at(t.drop_last(), p).node is None,
        form_at(t.drop_last(), p).errors.len() == 0,
        form_at(t.drop_last(), p).pos == t.len() - 1,
    decreases t.len() - p,
{
    if p + 1 < t.len() {
        assert(t.drop_last()[p] == t[p]);
        nothing_before_sign(t, p + 1);
    }
}

/// What holds of the tokens of a text holds of the first of them.
proof fn fewer_tokens(b: Seq<u8>, t: Seq<SpannedTokenView>)
    requires
        lexed(b, t),
        chained(b, 0, t),
        t.len() > 0,
    ensures
        lexed(b, t.drop_last()),
        chained(b, 0, t.drop_last()),
{
    let u = t.drop_last();
    assert forall|i: int| 0 < i < u.len() implies #[trigger] gap_before(b, u, i) by {
        assert(gap_before(b, t, i));
    }
    assert forall|i: int| 0 < i < u.len() implies #[trigger] comes_next(
        b,
        u[i - 1].span.end as int,
        u,
        i,
    ) by {
        assert(comes_next(b, t[i - 1].span.end as int, t, i));
    }
    if u.len() > 0 {
        assert(comes_next(b, 0, t, 0));
    }
    assert forall|i: int| 0 <= i < u.len() implies span_on_text(b, (#[trigger] u[i]).span)
        && spelled(b, u[i]) by {
        assert(u[i] == t[i]);
    }
}

/// Without the signs at the end the tokens are read as the same forms.
proof fn signs_can_go(b: Seq<u8>, t: Seq<SpannedTokenView>)
    requires
        lexed(b, t),
        chained(b, 0, t),
        forms_from(t, 0).1.len() == 0,
    ensures
        ({
            let u = without_signs(t);
            &&& lexed(b, u)
            &&& chained(b, 0, u)
            &&& forms_from(u, 0) == forms_from(t, 0)
            &&& u.len() > 0 ==> !is_prefix(u.last().token)
        }),
    decreases t.len(),
{
    if t.len() > 0 && is_prefix(t.last().token) {
        fewer_tokens(b, t);
        forms_before_sign(t, 0);
        signs_can_go(b, t.drop_last());
    }
}

// ── A string at the end ─────────────────────────────────────────────────────

/// Two token lists that differ in their last token, which is a string in both.
spec fn differ_at_end(t: Seq<SpannedTokenView>, u: Seq<SpannedTokenView>) -> bool {
    &&& t.len() > 0
    &&& u.len() == t.len()
    &&& forall|i: int| 0 <= i < t.len() - 1 ==> #[trigger] t[i] == u[i]
    &&& t.last().token is Str
    &&& u.last().token is Str
}

/// The signs before a string, and its span.
spec fn signs_and_string(n: NodeView) -> Option<(Seq<char>, Span)>
    decreases n,
{
    match n.node {
        FormView::Str(_) => Some((Seq::empty(), n.span)),
        FormView::Quote(i) => more_signs(n.node, signs_and_string(*i)),
        FormView::Quasiquote(i) => more_signs(n.node, signs_and_string(*i)),
        FormView::Unquote(i) => more_signs(n.node, signs_and_string(*i)),
        FormView::UnquoteSplice(i) => more_signs(n.node, signs_and_string(*i)),
        FormView::HashFn(i) => more_signs(n.node, signs_and_string(*i)),
        _ => None,
    }
}

spec fn more_signs(f: FormView, inner: Option<(Seq<char>, Span)>) -> Option<(Seq<char>, Span)> {
    match inner {
        Some((signs, span)) => Some((sign(f) + signs, span)),
        None => None,
    }
}

/// A string behind signs is written as it is.
proof fn signed_string_is_written(n: NodeView, b: Seq<u8>, indent: int)
    requires
        signs_and_string(n) is Some,
    ensures
        ({
            let (signs, span) = signs_and_string(n)->0;
            &&& flat(n, b) == Some(signs + source_text(span, b))
            &&& node_text(n, b, indent) == signs + source_text(span, b)
            &&& !(n.node is Comment)
        }),
    decreases n,
{
    let (signs, span) = signs_and_string(n)->0;
    let text = source_text(span, b);
    match n.node {
        FormView::Quote(i) => {
            signed_string_is_written(*i, b, indent + 1);
            assert(sign(n.node) + ((signs_and_string(*i)->0).0 + text) =~= signs + text);
        },
        FormView::Quasiquote(i) => {
            signed_string_is_written(*i, b, indent + 1);
            assert(sign(n.node) + ((signs_and_string(*i)->0).0 + text) =~= signs + text);
        },
        FormView::Unquote(i) => {
            signed_string_is_written(*i, b, indent + 1);
            assert(sign(n.node) + ((signs_and_string(*i)->0).0 + text) =~= signs + text);
        },
        FormView::UnquoteSplice(i) => {
            signed_string_is_written(*i, b, indent + 2);
            assert(sign(n.node) + ((signs_and_string(*i)->0).0 + text) =~= signs + text);
        },
        FormView::HashFn(i) => {
            signed_string_is_written(*i, b, indent + 1);
            assert(sign(n.node) + ((signs_and_string(*i)->0).0 + text) =~= signs + text);
        },
        _ => {
            assert(signs + text =~= text);
        },
    }
}

/// A form that ends before the string is read alike; one that ends with it differs
/// in the string alone.
proof fn form_before_string(t: Seq<SpannedTokenView>, u: Seq<SpannedTokenView>, p: int)
    requires
        differ_at_end(t, u),
        0 <= p < t.len(),
        form_at(t, p).errors.len() == 0,
        form_at(t, p).node is Some,
    ensures
        ({
            let x = form_at(t, p);
            let y = form_at(u, p);
            &&& x.pos < t.len() ==> y == x
            &&& x.pos >= t.len() ==> {
                &&& x.pos == t.len()
                &&& y.pos == x.pos
                &&& y.errors.len() == 0
                &&& y.node is Some
                &&& signs_and_string(x.node->0) matches Some((signs, span))
                &&& span == t.last().span
                &&& signs_and_string(y.node->0) == Some((signs, u.last().span))
            }
        }),
    decreases t.len() - p, 0int,
{
    form_at_progress(t, p);
    if p < t.len() - 1 {
        assert(t[p] == u[p]);
    }
    match opener(t[p].token) {
        Some(bracket) => {
            inside_before_string(t, u, p + 1, bracket, t[p].span);
        },
        None => {
            if is_prefix(t[p].token) {
                form_before_string(t, u, p + 1);
            }
        },
    }
}

proof fn inside_before_string(
    t: Seq<SpannedTokenView>,
    u: Seq<SpannedTokenView>,
    p: int,
    bracket: Bracket,
    open: Span,
)
    requires
        differ_at_end(t, u),
        0 <= p <= t.len(),
        forms_until(t, p, bracket, open).errors.len() == 0,
    ensures
        forms_until(u, p, bracket, open) == forms_until(t, p, bracket, open),
        forms_until(t, p, bracket, open).pos < t.len(),
    decreases t.len() - p, 1int,
{
    if p < t.len() - 1 {
        assert(t[p] == u[p]);
    }
    if p < t.len() && t[p].token != closer(bracket) {
        let first = form_at(t, p);
        form_at_progress(t, p);
        let rest = forms_until(t, first.pos, bracket, open);
        assert(forms_until(t, p, bracket, open).errors == first.errors + rest.errors);
        if first.node is None {
            nothing_read(t, p);
        }
        form_before_string(t, u, p);
        inside_before_string(t, u, first.pos, bracket, open);
    }
}

/// Two runs of forms that differ in the string at their end.
spec fn forms_differ_at_end(
    v: Seq<NodeView>,
    w: Seq<NodeView>,
    signs: Seq<char>,
    x: Span,
    y: Span,
) -> bool {
    &&& v.len() > 0
    &&& w.len() == v.len()
    &&& forall|i: int| 0 <= i < v.len() - 1 ==> #[trigger] v[i] == w[i]
    &&& signs_and_string(v.last()) == Some((signs, x))
    &&& signs_and_string(w.last()) == Some((signs, y))
}

proof fn forms_before_string(t: Seq<SpannedTokenView>, u: Seq<SpannedTokenView>, p: int) -> (signs:
    Seq<char>)
    requires
        differ_at_end(t, u),
        0 <= p < t.len(),
        forms_from(t, p).1.len() == 0,
    ensures
        forms_from(u, p).1.len() == 0,
        forms_differ_at_end(
            forms_from(t, p).0,
            forms_from(u, p).0,
            signs,
            t.last().span,
            u.last().span,
        ),
    decreases t.len() - p,
{
    let first = form_at(t, p);
    form_at_progress(t, p);
    form_at_progress(u, p);
    if first.node is None {
        if first.errors.len() == 0 {
            nothing_read(t, p);
        }
        assert(false);
    }
    let rest = forms_from(t, first.pos);
    assert(forms_from(t, p).1 == first.errors + rest.1);
    form_before_string(t, u, p);
    if first.pos < t.len() {
        let signs = forms_before_string(t, u, first.pos);
        let v = forms_from(t, p).0;
        let w = forms_from(u, p).0;
        assert(v == seq![first.node->0] + rest.0);
        assert(w == seq![first.node->0] + forms_from(u, first.pos).0);
        assert forall|i: int| 0 <= i < v.len() - 1 implies #[trigger] v[i] == w[i] by {
            if i > 0 {
                assert(rest.0[i - 1] == forms_from(u, first.pos).0[i - 1]);
            }
        }
        signs
    } else {
        let other = forms_from(u, first.pos);
        assert(other.0.len() == 0 && other.1.len() == 0);
        assert(forms_from(t, p).0 =~= seq![first.node->0]);
        assert(forms_from(u, p).0 =~= seq![form_at(u, p).node->0]);
        assert(forms_from(u, p).1 == form_at(u, p).errors + other.1);
        (signs_and_string(first.node->0)->0).0
    }
}

/// What is written of two such runs differs in the string at the end.
proof fn top_level_before_string(
    v: Seq<NodeView>,
    w: Seq<NodeView>,
    signs: Seq<char>,
    x: Span,
    y: Span,
    b: Seq<u8>,
) -> (before: Seq<char>)
    requires
        forms_differ_at_end(v, w, signs, x, y),
    ensures
        top_level(v, b, v.len() as int) == before + source_text(x, b),
        top_level(w, b, w.len() as int) == before + source_text(y, b),
{
    let k = v.len() as int;
    signed_string_is_written(v.last(), b, 0);
    signed_string_is_written(w.last(), b, 0);
    if k == 1 {
        signs
    } else {
        assert(v[k - 2] == w[k - 2]);
        let gap = if v[k - 2].node is Comment {
            seq!['\n']
        } else {
            seq!['\n', '\n']
        };
        same_start(v, w, b, k - 1);
        let head = top_level(v, b, k - 1) + gap;
        assert(head + (signs + source_text(x, b)) =~= head + signs + source_text(x, b));
        assert(head + (signs + source_text(y, b)) =~= head + signs + source_text(y, b));
        head + signs
    }
}

proof fn same_start(v: Seq<NodeView>, w: Seq<NodeView>, b: Seq<u8>, k: int)
    requires
        w.len() == v.len(),
        0 <= k < v.len(),
        forall|i: int| 0 <= i < v.len() - 1 ==> #[trigger] v[i] == w[i],
    ensures
        top_level(v, b, k) == top_level(w, b, k),
    decreases k,
{
    if k > 0 {
        assert(v[k - 1] == w[k - 1]);
        if k > 1 {
            assert(v[k - 2] == w[k - 2]);
            same_start(v, w, b, k - 1);
        }
    }
}

// ── Formatting twice ────────────────────────────────────────────────────────

proof fn closed_string_ends_in_quote(b: Seq<u8>, p: int)
    requires
        0 <= p <= b.len(),
        string_closed(b, p),
    ensures
        p < string_body(b, p).1 <= b.len(),
        b[string_body(b, p).1 - 1] == DQUOTE,
    decreases b.len() - p,
{
    string_ends(b, p);
    if b[p] != DQUOTE {
        if b[p] == BACKSLASH {
            escape_bounds(b, p + 1);
            closed_string_ends_in_quote(b, escape_at(b, p + 1).1);
        } else if b[p] < 0x80 {
            closed_string_ends_in_quote(b, p + 1);
        } else {
            closed_string_ends_in_quote(b, char_end(b, p));
        }
    }
}

/// No token ends in a line break, but for a string that is not closed.
proof fn token_ends_in_no_break(b: Seq<u8>, t: Seq<SpannedTokenView>, i: int)
    requires
        lexed(b, t),
        chained(b, 0, t),
        0 <= i < t.len(),
        !left_open(b, t, i),
    ensures
        token_text(b, t[i]).len() > 0,
        token_text(b, t[i]).last() != '\n',
{
    let s = t[i].span.start as int;
    let e = t[i].span.end as int;
    let x = token_text(b, t[i]);
    token_bytes(b, t, i);
    token_begins(b, t, i);
    if x.len() == 0 {
        assert(encode_utf8(x) =~= Seq::<u8>::empty());
    }
    assert(spelled(b, t[i]));
    if t[i].token is Comment {
        trimmed_and_blanks(text_in(b, s, e));
    } else {
        let w = x.drop_last();
        encode_concat(w, seq![x.last()]);
        assert(w + seq![x.last()] =~= x);
        if x.last() == '\n' {
            is_ascii_chars_encode_utf8(seq!['\n']);
            assert(encode_utf8(x).last() == LF);
            assert(b.subrange(s, s + encode_utf8(x).len()).last() == b[e - 1]);
            assert(!comment_at(b, s));
            if b[s] == DQUOTE {
                string_ends(b, s + 1);
                if i + 1 < t.len() {
                    assert(span_on_text(b, t[i + 1].span));
                }
                closed_string_ends_in_quote(b, s + 1);
            } else if is_atom(b, s) {
                run_end_bounds(b, s + 1, |c: u8| !ws_byte(c) && !delim_byte(c));
            }
            assert(false);
        }
    }
}

/// What is kept as it stands comes out as it stands.
proof fn heads_are_reread(
    b: Seq<u8>,
    t: Seq<SpannedTokenView>,
    core: Seq<char>,
    at: Seq<int>,
    x: Seq<SpannedTokenView>,
)
    requires
        copied(b, t, core, at),
        forms_from(t, 0).1.len() == 0,
        x.len() == t.len(),
        forall|j: int| 0 <= j < t.len() ==> #[trigger] set_as_laid(b, t, core, at, x, 0, j),
    ensures
        heads_alike(b, t, encode_utf8(core.push('\n')), x),
{
    let c = encode_utf8(core.push('\n'));
    let v = forms_from(t, 0).0;
    all_is_read(t, 0);
    assert forall|m: int| #[trigger] kept(b, t, m) implies same_stretch(
        b,
        t,
        c,
        x,
        m + 1,
        form_at(t, m + 1).pos,
    ) by {
        let p = m + 1;
        let q = form_at(t, p).pos;
        assert(p < t.len());
        form_at_progress(t, p);
        inner_forms_end(t, 0, v, v.len() as int, m);
        assert forall|i: int| p < i < q implies #[trigger] glued(b, t, i) by {
            reveal(glued);
            assert(kept(b, t, m));
        }
        kept_bytes(b, t, core, at, p, q);
        token_bytes(b, t, q - 1);
        assert(set_as_laid(b, t, core, at, x, 0, p));
        assert(set_as_laid(b, t, core, at, x, 0, q - 1));
        let s = t[p].span.start as int;
        let z = off(core.push('\n'), at[p]);
        if t[q - 1].token is Comment {
            assert(exact_end(b, t, q)) by {
                reveal(follows_kept);
                assert(kept(b, t, m));
            }
            kept_comment_bytes(b, t, core, at, p, q);
            same_subrange(b, s, c, z, t[q - 1].span.end - s);
        } else {
            same_subrange(b, s, c, z, text_end(b, t[q - 1]) - s);
        }
    }
}

proof fn cut_tokens_are_of_text(b: Seq<u8>, t: Seq<SpannedTokenView>, text: Seq<char>)
    requires
        encode_utf8(text).len() <= u32::MAX,
        text.len() > 0,
        text.last() == '\n',
        t.len() > 0 && left_open(b, t, t.len() - 1) ==> ends_open(
            encode_utf8(text),
            lex_with_comments(text),
        ),
    ensures
        tokens_of_text(
            encode_utf8(text),
            cut_short(b, t, encode_utf8(text), lex_with_comments(text)),
        ),
{
    let c = encode_utf8(text);
    let u = lex_with_comments(text);
    let x = cut_short(b, t, c, u);
    tokens_in_order(text, true);
    tokens_on_boundaries(text, true);
    encode_utf8_valid_utf8(text);
    if t.len() > 0 && left_open(b, t, t.len() - 1) {
        break_is_a_byte(text, text.len() - 1);
        ends_of_bytes(text);
        boundary_after_ascii(c, c.len() - 1);
        assert forall|i: int| 0 <= i < x.len() implies span_on_text(c, (#[trigger] x[i]).span) by {
            assert(span_on_text(c, u[i].span));
        }
        assert(spans_in_order(x, 0, c.len() as int)) by {
            assert forall|i: int| 0 <= i < x.len() implies 0 <= (#[trigger] x[i]).span.start
                < x[i].span.end <= c.len() by {
                assert(u[i].span.start < u[i].span.end <= c.len());
            }
            assert forall|i: int, j: int| 0 <= i < j < x.len() implies (#[trigger] x[i]).span.end
                <= (#[trigger] x[j]).span.start by {
                assert(u[i].span.end <= u[j].span.start);
            }
        }
    }
}

/// Two texts have the same tokens, but that the last one may be a string in both
/// where it is not closed in the first.
pub open spec fn same_tokens(
    b: Seq<u8>,
    t: Seq<SpannedTokenView>,
    c: Seq<u8>,
    u: Seq<SpannedTokenView>,
) -> bool {
    &&& u.len() == t.len()
    &&& forall|i: int|
        0 <= i < t.len() && !left_open(b, t, i) ==> #[trigger] alike_at(b, t, c, u, 0, i)
    &&& t.len() > 0 && left_open(b, t, t.len() - 1) ==> u.last().token is Str
}

/// The text of some tokens, written and read again.
proof fn forms_are_read_back(b: Seq<u8>, t: Seq<SpannedTokenView>, text: Seq<char>)
    requires
        b.len() <= u32::MAX,
        lexed(b, t),
        chained(b, 0, t),
        forms_from(t, 0).1.len() == 0,
        t.len() > 0 ==> !is_prefix(t.last().token),
        t.len() > 0 && left_open(b, t, t.len() - 1) ==> forall|k: int|
            t.last().span.end <= k < b.len() ==> #[trigger] b[k] == LF,
        text == top_level(forms_from(t, 0).0, b, forms_from(t, 0).0.len() as int).push('\n'),
        encode_utf8(text).len() <= u32::MAX,
        is_shebang(encode_utf8(text), 0) && t.len() > 0 ==> t[0].token is Comment,
    ensures
        ({
            let c = encode_utf8(text);
            let u = lex_with_comments(text);
            let w = forms_from(cut_short(b, t, c, u), 0);
            &&& w.1.len() == 0
            &&& top_level(w.0, c, w.0.len() as int).push('\n') == text
            &&& u.len() == t.len()
            &&& same_tokens(b, t, c, u)
            &&& t.len() > 0 && left_open(b, t, t.len() - 1) ==> ends_open(c, u)
        }),
{
    let v = forms_from(t, 0).0;
    let k = v.len() as int;
    let c = encode_utf8(text);
    let u = lex_with_comments(text);
    all_is_read(t, 0);
    top_level_is_laid(b, t, v, k, true);
    let core = top_level(v, b, k);
    let at = choose|at: Seq<int>| laid_at(core, all_words(b, t), at, true);
    if t.len() == 0 {
        assert(text =~= seq!['\n']);
        is_ascii_chars_encode_utf8(text);
    }
    assert(copied(b, t, core, at));
    gap_before_word(b, t, core, at, 0);
    ends_of_bytes(text);
    bytes_between(text, 0, gap_end(t, core, at, 0));
    assert(plain_from(text, 0, gap_end(t, core, at, 0), 0));
    tokens_are_reread(b, t, core, at, 0, 0);
    let x = cut_short(b, t, c, u);
    heads_are_reread(b, t, core, at, x);
    cut_tokens_are_of_text(b, t, text);
    assert forall|j: int| 0 <= j < t.len() && !left_open(b, t, j) implies #[trigger] alike_at(
        b,
        t,
        c,
        u,
        0,
        j,
    ) by {
        assert(alike_at(b, t, c, x, 0, j));
    }
    forms_are_reread(b, t, c, x, 0);
    top_level_alike(b, v, c, forms_from(x, 0).0, k);
}

proof fn breaks_at_end(s: Seq<char>)
    ensures
        without_final_breaks(s).len() <= s.len(),
        s.take(without_final_breaks(s).len() as int) == without_final_breaks(s),
        forall|k: int| without_final_breaks(s).len() <= k < s.len() ==> #[trigger] s[k] == '\n',
        without_final_breaks(s).len() > 0 ==> without_final_breaks(s).last() != '\n',
    decreases s.len(),
{
    if s.len() > 0 && s.last() == '\n' {
        breaks_at_end(s.drop_last());
        let n = without_final_breaks(s).len() as int;
        assert(s.take(n) =~= s.drop_last().take(n));
        assert forall|k: int| n <= k < s.len() implies #[trigger] s[k] == '\n' by {
            if k < s.len() - 1 {
                assert(s.drop_last()[k] == s[k]);
            }
        }
    } else {
        assert(s.take(s.len() as int) =~= s);
    }
}

proof fn breaks_behind(a: Seq<char>, s: Seq<char>)
    requires
        without_final_breaks(s).len() > 0,
    ensures
        without_final_breaks(a + s) == a + without_final_breaks(s),
    decreases s.len(),
{
    assert((a + s).last() == s.last());
    if s.last() == '\n' {
        assert((a + s).drop_last() =~= a + s.drop_last());
        breaks_behind(a, s.drop_last());
    }
}

/// A source that does not end in an open string.
proof fn closed_source_is_formatted_again(
    b: Seq<u8>,
    t: Seq<SpannedTokenView>,
    text: Seq<char>,
)
    requires
        b.len() <= u32::MAX,
        lexed(b, t),
        chained(b, 0, t),
        forms_from(t, 0).1.len() == 0,
        t.len() > 0 ==> !is_prefix(t.last().token) && !left_open(b, t, t.len() - 1),
        text == without_final_breaks(
            top_level(forms_from(t, 0).0, b, forms_from(t, 0).0.len() as int),
        ).push('\n'),
        encode_utf8(text).len() <= u32::MAX,
        is_shebang(encode_utf8(text), 0) && t.len() > 0 ==> t[0].token is Comment,
    ensures
        formatted(text) == Some(text),
        same_tokens(b, t, encode_utf8(text), lex_with_comments(text)),
{
    let v = forms_from(t, 0).0;
    let k = v.len() as int;
    let core = top_level(v, b, k);
    all_is_read(t, 0);
    top_level_is_laid(b, t, v, k, true);
    let ws = all_words(b, t);
    let at = choose|at: Seq<int>| laid_at(core, ws, at, true);
    if t.len() > 0 {
        let n = t.len() - 1;
        token_ends_in_no_break(b, t, n);
        assert(stands(core, ws[n], at[n]));
        assert(core.subrange(at[n], core.len() as int).last() == core.last());
    }
    assert(without_final_breaks(core) == core);
    forms_are_read_back(b, t, text);
    let c = encode_utf8(text);
    let w = forms_from(lex_with_comments(text), 0).0;
    let again = top_level(w, c, w.len() as int);
    assert(again =~= core) by {
        assert(again.push('\n').drop_last() =~= again);
        assert(core.push('\n').drop_last() =~= core);
    }
}

/// An open string reaches the end of the text, so nothing follows it.
proof fn open_string_is_last(src: Seq<char>)
    requires
        encode_utf8(src).len() <= u32::MAX,
    ensures
        ({
            let b = encode_utf8(src);
            let t = without_signs(lex_with_comments(src));
            t.len() > 0 && left_open(b, t, t.len() - 1) ==> t == lex_with_comments(src)
                && t.last().span.end == b.len()
        }),
{
    let b = encode_utf8(src);
    let all = lex_with_comments(src);
    source_is_lexed(src);
    tokens_are_chained(b, 0);
    without_signs_is_start(all);
    let t = without_signs(all);
    if t.len() > 0 && left_open(b, t, t.len() - 1) {
        let i = t.len() - 1;
        tokens_reach(b, 0, i);
        let s = all[i].span.start as int;
        assert(span_on_text(b, all[i].span));
        string_ends(b, s + 1);
        if t.len() < all.len() {
            assert(span_on_text(b, all[i + 1].span));
            assert(all[i].span.end <= all[i + 1].span.start);
            assert(false);
        }
    }
}

proof fn without_signs_is_start(t: Seq<SpannedTokenView>)
    ensures
        without_signs(t).len() <= t.len(),
        without_signs(t) == t.take(without_signs(t).len() as int),
    decreases t.len(),
{
    if t.len() > 0 && is_prefix(t.last().token) {
        without_signs_is_start(t.drop_last());
        let n = without_signs(t).len() as int;
        assert(t.take(n) =~= t.drop_last().take(n));
    } else {
        assert(t.take(t.len() as int) =~= t);
    }
}

/// A string ends where its body ends.
proof fn tokens_reach(b: Seq<u8>, p: int, i: int)
    requires
        b.len() <= u32::MAX,
        0 <= p <= b.len(),
        0 <= i < tokens_from(b, p, true).len(),
        tokens_from(b, p, true)[i].token is Str,
    ensures
        ({
            let x = tokens_from(b, p, true)[i];
            &&& x.span.start < b.len()
            &&& x.span.end == string_body(b, x.span.start + 1).1
        }),
    decreases b.len() - p,
{
    next_token_bounds(b, p, true);
    next_begins(b, p);
    let (tok, s, e) = next_token_at(b, p, true)->0;
    if i > 0 {
        tokens_reach(b, e, i - 1);
        assert(tokens_from(b, p, true)[i] == tokens_from(b, e, true)[i - 1]);
    } else {
        string_ends(b, s + 1);
    }
}

/// Where a string that reaches the end of the text is cut, to lose the line breaks
/// at its end.
#[verifier::spinoff_prover]
#[verifier::rlimit(30)]
proof fn string_is_cut(b: Seq<u8>, s: int) -> (cut: int)
    requires
        valid_utf8(b),
        0 <= s < b.len(),
        is_char_boundary(b, s),
        b[s] == DQUOTE,
    ensures
        s < cut <= b.len(),
        is_char_boundary(b, cut),
        text_in(b, s, cut) == without_final_breaks(text_in(b, s, b.len() as int)),
        text_in(b, s, cut).len() > 0,
        text_in(b, s, cut).last() != '\n',
        forall|k: int| cut <= k < b.len() ==> #[trigger] b[k] == LF,
{
    let whole = text_in(b, s, b.len() as int);
    let kept = without_final_breaks(whole);
    is_char_boundary_start_end_of_seq(b);
    valid_between(b, s, b.len() as int);
    ascii_text(b, s);
    boundary_after_ascii(b, s);
    text_splits(b, s, s + 1, b.len() as int);
    assert(whole[0] == '"');
    breaks_at_end(whole);
    if kept.len() == 0 {
        assert(whole[0] == '\n');
    }
    let m = kept.len() as int;
    let tail = whole.skip(m);
    encode_concat(kept, tail);
    assert(kept + tail =~= whole);
    let all = b.subrange(s, b.len() as int);
    decode_utf8_encode_utf8(all);
    assert(forall|k: int| 0 <= k < tail.len() ==> #[trigger] tail[k] == whole[m + k]);
    is_ascii_chars_encode_utf8(tail);
    let size = encode_utf8(kept).len() as int;
    assert(kept[0] == whole.take(m)[0]);
    bytes_of_start(kept, 1);
    let cut = s + size;
    assert(all == encode_utf8(kept) + encode_utf8(tail));
    assert forall|k: int| cut <= k < b.len() implies #[trigger] b[k] == LF by {
        assert(all[k - s] == b[k]);
        assert(encode_utf8(tail)[k - cut] == tail[k - cut] as u8);
    }
    assert(b.subrange(s, cut) =~= encode_utf8(kept)) by {
        assert(all.subrange(0, size) =~= b.subrange(s, cut));
        assert((encode_utf8(kept) + encode_utf8(tail)).subrange(0, size) =~= encode_utf8(kept));
    }
    encode_utf8_decode_utf8(kept);
    if cut < b.len() {
        boundary_after_ascii(b, cut);
    }
    cut
}

/// A source that ends in an open string.
#[verifier::spinoff_prover]
#[verifier::rlimit(30)]
proof fn open_source_is_formatted_again(b: Seq<u8>, t: Seq<SpannedTokenView>, text: Seq<char>)
    requires
        b.len() <= u32::MAX,
        lexed(b, t),
        chained(b, 0, t),
        forms_from(t, 0).1.len() == 0,
        t.len() > 0,
        left_open(b, t, t.len() - 1),
        t.last().span.end == b.len(),
        text == without_final_breaks(
            top_level(forms_from(t, 0).0, b, forms_from(t, 0).0.len() as int),
        ).push('\n'),
        encode_utf8(text).len() <= u32::MAX,
        is_shebang(encode_utf8(text), 0) ==> t[0].token is Comment,
    ensures
        formatted(text) == Some(text),
        same_tokens(b, t, encode_utf8(text), lex_with_comments(text)),
{
    let n = t.len() - 1;
    let s = t[n].span.start as int;
    token_begins(b, t, n);
    assert(span_on_text(b, t[n].span));
    let cut = string_is_cut(b, s);
    let whole = text_in(b, s, b.len() as int);
    let kept = text_in(b, s, cut);
    let t1 = t.update(
        n,
        SpannedTokenView { token: t[n].token, span: Span { end: cut as u32, ..t[n].span } },
    );
    cut_tokens_are_lexed(b, t, t1);
    let signs = forms_before_string(t, t1, 0);
    let v = forms_from(t, 0).0;
    let v1 = forms_from(t1, 0).0;
    let k = v.len() as int;
    let before = top_level_before_string(v, v1, signs, t[n].span, t1[n].span, b);
    breaks_behind(before, whole);
    let core = top_level(v1, b, k);
    assert(core == before + kept);
    if n > 0 {
        assert(t1[0] == t[0]);
    }
    forms_are_read_back(b, t1, text);
    let c = encode_utf8(text);
    let u = lex_with_comments(text);
    assert forall|j: int| 0 <= j < t.len() && !left_open(b, t, j) implies #[trigger] alike_at(
        b,
        t,
        c,
        u,
        0,
        j,
    ) by {
        assert(j < n && t1[j] == t[j]);
        assert(alike_at(b, t1, c, u, 0, j));
    }
    let x = cut_short(b, t1, c, u);
    assert(differ_at_end(x, u));
    let again = forms_before_string(x, u, 0);
    let w = forms_from(u, 0).0;
    let start = top_level_before_string(
        forms_from(x, 0).0,
        w,
        again,
        x.last().span,
        u.last().span,
        c,
    );
    let short = text_in(c, u.last().span.start as int, c.len() - 1);
    let written = top_level(w, c, w.len() as int);
    assert(written =~= text) by {
        assert(start + short.push('\n') =~= (start + short).push('\n'));
    }
    assert(text.drop_last() =~= core);
    assert(core.last() == kept.last());
    assert(without_final_breaks(core) == core);
    assert(without_final_breaks(text) == core);
    assert(forms_from(u, 0).1.len() == 0);
    assert(formatted(text) == Some(without_final_breaks(written).push('\n')));
}

proof fn cut_tokens_are_lexed(b: Seq<u8>, t: Seq<SpannedTokenView>, u: Seq<SpannedTokenView>)
    requires
        b.len() <= u32::MAX,
        lexed(b, t),
        chained(b, 0, t),
        t.len() > 0,
        left_open(b, t, t.len() - 1),
        differ_at_end(t, u),
        u.last().token == t.last().token,
        u.last().span.start == t.last().span.start,
        u.last().span.start < u.last().span.end,
        span_on_text(b, u.last().span),
    ensures
        lexed(b, u),
        chained(b, 0, u),
        left_open(b, u, u.len() - 1),
{
    assert forall|i: int| 0 <= i < u.len() implies span_on_text(b, (#[trigger] u[i]).span)
        && spelled(b, u[i]) by {
        if i < t.len() - 1 {
            assert(t[i] == u[i]);
        }
    }
    assert forall|i: int| 0 < i < u.len() implies #[trigger] gap_before(b, u, i) by {
        assert(gap_before(b, t, i));
        assert(t[i - 1] == u[i - 1]);
        if i < t.len() - 1 {
            assert(t[i] == u[i]);
        }
    }
    assert forall|i: int| 0 < i < u.len() implies #[trigger] comes_next(
        b,
        u[i - 1].span.end as int,
        u,
        i,
    ) by {
        assert(comes_next(b, t[i - 1].span.end as int, t, i));
        assert(t[i - 1] == u[i - 1]);
        if i < t.len() - 1 {
            assert(t[i] == u[i]);
        }
    }
    assert(comes_next(b, 0, t, 0));
    assert(comes_next(b, 0, u, 0)) by {
        if 0 < t.len() - 1 {
            assert(t[0] == u[0]);
        }
    }
    assert(spans_in_order(u, 0, b.len() as int)) by {
        assert forall|i: int| 0 <= i < u.len() implies 0 <= (#[trigger] u[i]).span.start
            < u[i].span.end <= b.len() by {
            if i < t.len() - 1 {
                assert(t[i] == u[i]);
            }
        }
        assert forall|i: int, j: int| 0 <= i < j < u.len() implies (#[trigger] u[i]).span.end <= (
        #[trigger] u[j]).span.start by {
            assert(t[i] == u[i]);
            if j < t.len() - 1 {
                assert(t[j] == u[j]);
            }
        }
    }
}

/// A single form that comes out as a `#!` line is made of two tokens.
proof fn hash_bang_is_two_tokens(b: Seq<u8>, t: Seq<SpannedTokenView>, core: Seq<char>, at: Seq<int>)
    requires
        b.len() <= u32::MAX,
        lexed(b, t),
        chained(b, 0, t),
        laid_at(core, all_words(b, t), at, true),
        forms_from(t, 0).1.len() == 0,
        forms_from(t, 0).0.len() == 1,
        t.len() > 0,
        !is_prefix(t.last().token),
        !(t[0].token is Comment),
        is_shebang(encode_utf8(core.push('\n')), 0),
    ensures
        t.len() == 2,
        !left_open(b, t, 1),
        forall|k: int|
            0 <= k < encode_utf8(core.push('\n')).len() - 1 ==> #[trigger] encode_utf8(
                core.push('\n'),
            )[k] != LF,
{
    let ws = all_words(b, t);
    let text = core.push('\n');
    let c = encode_utf8(text);
    all_is_read(t, 0);
    ends_of_bytes(text);
    assert(off(text, at[0]) == 0);
    word_stands(b, t, core, at, 0);
    token_bytes(b, t, 0);
    let r = t[0].span.start as int;
    let zero: int = 0;
    assert(b[r + zero] == c[0 + zero]);
    token_begins(b, t, 0);
    assert(t[0].token is HashFn);
    assert(!glued(b, t, 1)) by {
        reveal(glued);
    }
    assert(follows(core, ws, at, 1, true));
    word_stands(b, t, core, at, 1);
    token_begins(b, t, 1);
    token_bytes(b, t, 1);
    let s = t[1].span.start as int;
    assert(b[s + zero] == c[1 + zero]);
    assert(is_atom(b, s));
    assert(form_at(t, 1).pos == 2);
    assert(form_at(t, 0).pos == 2);
    assert(behind(t, 0, 0) == 0);
    assert(behind(t, 0, 1) == 2);
    break_is_a_byte(text, core.len() as int);
    run_end_bounds(b, s + 1, |x: u8| !ws_byte(x) && !delim_byte(x));
    assert forall|k: int| 0 <= k < c.len() - 1 implies #[trigger] c[k] != LF by {
        if k > 0 {
            assert(b[s + (k - 1)] == c[1 + (k - 1)]);
        }
    }
}

/// Line breaks at the end do not decide how a text opens.
proof fn opening_is_kept(core: Seq<char>)
    requires
        is_shebang(encode_utf8(without_final_breaks(core).push('\n')), 0),
    ensures
        is_shebang(encode_utf8(core.push('\n')), 0),
{
    let z = without_final_breaks(core);
    breaks_at_end(core);
    encode_concat(z, seq!['\n']);
    assert(z + seq!['\n'] =~= z.push('\n'));
    is_ascii_chars_encode_utf8(seq!['\n']);
    let c = encode_utf8(z.push('\n'));
    if encode_utf8(z).len() < 2 {
        assert(encode_utf8(seq!['\n']).len() == 1);
        assert(c[1] == encode_utf8(seq!['\n'])[1 - encode_utf8(z).len()]);
        assert(encode_utf8(seq!['\n'])[0] == LF);
    }
    let rest = core.skip(z.len() as int).push('\n');
    encode_concat(z, rest);
    assert(z + rest =~= core.push('\n'));
    assert(encode_utf8(core.push('\n'))[0] == c[0]);
    assert(encode_utf8(core.push('\n'))[1] == c[1]);
}

/// A single form that comes out as a `#!` line is left as such a line.
#[verifier::spinoff_prover]
#[verifier::rlimit(30)]
proof fn hash_bang_is_formatted_again(b: Seq<u8>, t: Seq<SpannedTokenView>, text: Seq<char>)
    requires
        b.len() <= u32::MAX,
        lexed(b, t),
        chained(b, 0, t),
        forms_from(t, 0).1.len() == 0,
        forms_from(t, 0).0.len() == 1,
        t.len() > 0,
        !is_prefix(t.last().token),
        !(t[0].token is Comment),
        text == without_final_breaks(top_level(forms_from(t, 0).0, b, 1)).push('\n'),
        is_shebang(encode_utf8(text), 0),
        !is_white(text[text.len() - 2]),
    ensures
        formatted(text) == Some(text),
{
    let v = forms_from(t, 0).0;
    let core = top_level(v, b, 1);
    all_is_read(t, 0);
    top_level_is_laid(b, t, v, 1, true);
    let ws = all_words(b, t);
    let at = choose|at: Seq<int>| laid_at(core, ws, at, true);
    opening_is_kept(core);
    hash_bang_is_two_tokens(b, t, core, at);
    token_ends_in_no_break(b, t, 1);
    assert(stands(core, ws[1], at[1]));
    assert(core.subrange(at[1], core.len() as int).last() == core.last());
    assert(text == core.push('\n'));
    let c = encode_utf8(text);
    let q = c.len() - 1;
    ends_of_bytes(text);
    break_is_a_byte(text, core.len() as int);
    run_ends_at(c, 0, q, |x: u8| x != LF);
    bytes_between(text, 0, core.len() as int);
    assert(text.subrange(0, core.len() as int) =~= core);
    assert(blank_end(c, 0) == 0);
    assert(next_token_at(c, 0, true) == Some((TokenView::Comment(core), 0int, q)));
    blanks_are_passed(c, q, c.len() as int);
    assert(next_token_at(c, q, true) is None);
    let u = lex_with_comments(text);
    let rest = tokens_from(c, q, true);
    assert(rest.len() == 0);
    assert(u == seq![
        SpannedTokenView { token: TokenView::Comment(core), span: span_at(c, 0, q) },
    ] + rest);
    let w = forms_from(u, 0).0;
    assert(forms_from(u, 1).0.len() == 0);
    assert(w =~= seq![NodeView { node: FormView::Comment(core), span: u[0].span }]);
    assert(forms_from(u, 0).1.len() == 0);
    assert(trimmed_end(core) == core);
    assert(top_level(w, c, 1) == core);
    assert(without_final_breaks(core) == core);
}

/// The forms keep the place at the start of the text: where it opens with `#!`, the
/// source opens with a comment, or the line is all there is.
pub open spec fn opens_alike(src: Seq<char>, text: Seq<char>) -> bool {
    is_shebang(encode_utf8(text), 0) ==> {
        ||| lex_with_comments(src)[0].token is Comment
        ||| parse_rich_source(src).0.len() == 1 && !is_white(text[text.len() - 2])
    }
}

/// Formatting twice is formatting once: a formatted text is left as it is. The text
/// may open with `#!` only as the source allows.
pub proof fn formatting_twice_is_formatting_once(src: Seq<char>, text: Seq<char>)
    requires
        formatted(src) == Some(text),
        encode_utf8(src).len() <= u32::MAX,
        encode_utf8(text).len() <= u32::MAX,
        opens_alike(src, text),
    ensures
        formatted(text) == Some(text),
{
    let b = encode_utf8(src);
    let all = lex_with_comments(src);
    source_is_lexed(src);
    tokens_are_chained(b, 0);
    signs_can_go(b, all);
    open_string_is_last(src);
    without_signs_is_start(all);
    let t = without_signs(all);
    if is_shebang(encode_utf8(text), 0) && t.len() > 0 && !(t[0].token is Comment) {
        hash_bang_is_formatted_again(b, t, text);
    } else if t.len() > 0 && left_open(b, t, t.len() - 1) {
        open_source_is_formatted_again(b, t, text);
    } else {
        closed_source_is_formatted_again(b, t, text);
    }
}

/// Formatted text lexes back to the tokens of its source: the same kinds in the same
/// order, spelled alike (but for the whitespace at the end of a comment, and the line
/// breaks at the end of a string that is not closed). Signs at the end of the source
/// that have nothing to stand before are left out. The text may open with `#!` only
/// where the source opens with a comment.
pub proof fn formatted_text_has_the_same_tokens(src: Seq<char>, text: Seq<char>)
    requires
        formatted(src) == Some(text),
        encode_utf8(src).len() <= u32::MAX,
        encode_utf8(text).len() <= u32::MAX,
        is_shebang(encode_utf8(text), 0) ==> lex_with_comments(src)[0].token is Comment,
    ensures
        same_tokens(
            encode_utf8(src),
            without_signs(lex_with_comments(src)),
            encode_utf8(text),
            lex_with_comments(text),
        ),
{
    let b = encode_utf8(src);
    let all = lex_with_comments(src);
    source_is_lexed(src);
    tokens_are_chained(b, 0);
    signs_can_go(b, all);
    open_string_is_last(src);
    without_signs_is_start(all);
    let t = without_signs(all);
    if t.len() > 0 && left_open(b, t, t.len() - 1) {
        open_source_is_formatted_again(b, t, text);
    } else {
        closed_source_is_formatted_again(b, t, text);
    }
}

} // verus!
