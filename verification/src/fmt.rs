//! Fennel source formatter.
//!
//! Uses the rich (comment-bearing) AST from `Parser::parse_with_comments` so
//! comments are preserved in-place. The source text is threaded through so
//! atoms are emitted verbatim (preserving `0xff`, string escapes, etc.).
use vstd::prelude::*;
use vstd::string::*;
use vstd::utf8::*;

use crate::indentation::{formatted_text_is_indented, set_out};
use crate::lexer::{span_on_text, Span};
use crate::parser::{
    parse_rich_source, parsed_nodes_are_placed, placed, placed_all, rich_view, rich_views,
    FormView, NodeView, Parser, RichForm, RichNode,
};
use crate::strings::{byte_len, chars_of, same, slice, text_of};

verus! {

/// No line is filled beyond this column (in bytes).
pub const COL_LIMIT: u64 = 80;

// ── What the formatter writes ───────────────────────────────────────────────

/// The length of a text in bytes.
pub open spec fn width(s: Seq<char>) -> nat {
    encode_utf8(s).len()
}

/// The characters with the Unicode property White_Space.
pub open spec fn is_white(c: char) -> bool {
    ||| '\u{9}' <= c <= '\u{D}'
    ||| c == '\u{20}' || c == '\u{85}' || c == '\u{A0}' || c == '\u{1680}'
    ||| '\u{2000}' <= c <= '\u{200A}'
    ||| c == '\u{2028}' || c == '\u{2029}' || c == '\u{202F}' || c == '\u{205F}' || c == '\u{3000}'
}

/// The text without the whitespace at its end.
pub open spec fn trimmed_end(s: Seq<char>) -> Seq<char>
    decreases s.len(),
{
    if s.len() > 0 && is_white(s.last()) {
        trimmed_end(s.drop_last())
    } else {
        s
    }
}

/// Forms that use body-style indentation: head + first structural arg(s) stay
/// on line 1; everything after the first compound (List/Table) child breaks to
/// a new line with 2-space indent.
pub open spec fn body_form(name: Seq<char>) -> bool {
    ||| name == "fn"@ || name == "lambda"@ || name == "λ"@
    ||| name == "macro"@ || name == "macros"@
    ||| name == "local"@ || name == "var"@ || name == "global"@ || name == "set"@ || name == "tset"@
    ||| name == "let"@ || name == "with-open"@
    ||| name == "if"@ || name == "when"@ || name == "unless"@
    ||| name == "do"@
    ||| name == "each"@ || name == "for"@ || name == "while"@
    ||| name == "match"@ || name == "case"@ || name == "match-try"@ || name == "case-try"@
    ||| name == "accumulate"@ || name == "collect"@ || name == "icollect"@ || name == "fcollect"@
        || name == "faccumulate"@
    ||| name == "pick-values"@ || name == "pick-args"@
}

/// The source text of a node, verbatim.
pub open spec fn source_text(span: Span, b: Seq<u8>) -> Seq<char> {
    decode_utf8(b.subrange(span.start as int, span.end as int))
}

/// The sign in front of a prefixed form.
pub open spec fn sign(f: FormView) -> Seq<char> {
    match f {
        FormView::Quote(_) => seq!['\''],
        FormView::Quasiquote(_) => seq!['`'],
        FormView::Unquote(_) => seq![','],
        FormView::UnquoteSplice(_) => seq![',', '@'],
        _ => seq!['#'],
    }
}

/// The node on a single line; none where it holds a comment.
pub open spec fn flat(n: NodeView, b: Seq<u8>) -> Option<Seq<char>>
    decreases n, 1int, 0int,
{
    match n.node {
        FormView::Comment(_) => None,
        FormView::List(v) => bracketed('(', flat_items(v, b, v.len() as int), ')'),
        FormView::Table(v) => bracketed('{', flat_items(v, b, v.len() as int), '}'),
        FormView::Sequence(v) => bracketed('[', flat_items(v, b, v.len() as int), ']'),
        FormView::Quote(i) => signed(n.node, flat(*i, b)),
        FormView::Quasiquote(i) => signed(n.node, flat(*i, b)),
        FormView::Unquote(i) => signed(n.node, flat(*i, b)),
        FormView::UnquoteSplice(i) => signed(n.node, flat(*i, b)),
        FormView::HashFn(i) => signed(n.node, flat(*i, b)),
        _ => Some(source_text(n.span, b)),
    }
}

pub open spec fn bracketed(open: char, items: Option<Seq<char>>, close: char) -> Option<Seq<char>> {
    match items {
        Some(s) => Some(seq![open] + s + seq![close]),
        None => None,
    }
}

pub open spec fn signed(f: FormView, inner: Option<Seq<char>>) -> Option<Seq<char>> {
    match inner {
        Some(s) => Some(sign(f) + s),
        None => None,
    }
}

/// The first `k` nodes on a single line, with a space between them.
pub open spec fn flat_items(v: Seq<NodeView>, b: Seq<u8>, k: int) -> Option<Seq<char>>
    decreases v, 0int, k,
{
    if k <= 0 || k > v.len() {
        Some(Seq::empty())
    } else {
        match (flat_items(v, b, k - 1), flat(v[k - 1], b)) {
            (Some(before), Some(item)) => Some(
                if k == 1 {
                    item
                } else {
                    before + seq![' '] + item
                },
            ),
            _ => None,
        }
    }
}

pub open spec fn spaces(n: int) -> Seq<char> {
    Seq::new(n as nat, |i: int| ' ')
}

/// The node as it is written at column `indent`: on one line where it fits.
pub open spec fn node_text(n: NodeView, b: Seq<u8>, indent: int) -> Seq<char>
    decreases n, 3int, 0int,
{
    match n.node {
        FormView::Comment(text) => trimmed_end(text),
        _ => match flat(n, b) {
            Some(f) => if indent + width(f) <= COL_LIMIT {
                f
            } else {
                tall(n, b, indent)
            },
            None => tall(n, b, indent),
        },
    }
}

/// The node spread over several lines.
pub open spec fn tall(n: NodeView, b: Seq<u8>, indent: int) -> Seq<char>
    decreases n, 2int, 0int,
{
    match n.node {
        FormView::List(v) => tall_compound('(', ')', v, b, indent),
        FormView::Table(v) => tall_compound('{', '}', v, b, indent),
        FormView::Sequence(v) => tall_compound('[', ']', v, b, indent),
        FormView::Quote(i) => sign(n.node) + node_text(*i, b, indent + 1),
        FormView::Quasiquote(i) => sign(n.node) + node_text(*i, b, indent + 1),
        FormView::Unquote(i) => sign(n.node) + node_text(*i, b, indent + 1),
        FormView::UnquoteSplice(i) => sign(n.node) + node_text(*i, b, indent + 2),
        FormView::HashFn(i) => sign(n.node) + node_text(*i, b, indent + 1),
        FormView::Comment(text) => trimmed_end(text),
        _ => source_text(n.span, b),
    }
}

/// The form ends in a comment.
pub open spec fn ends_in_comment(n: NodeView) -> bool
    decreases n,
{
    match n.node {
        FormView::Comment(_) => true,
        FormView::Quote(i) => ends_in_comment(*i),
        FormView::Quasiquote(i) => ends_in_comment(*i),
        FormView::Unquote(i) => ends_in_comment(*i),
        FormView::UnquoteSplice(i) => ends_in_comment(*i),
        FormView::HashFn(i) => ends_in_comment(*i),
        _ => false,
    }
}

/// The head of a compound, which always sits on the line of the bracket.
pub open spec fn head_text(v: Seq<NodeView>, b: Seq<u8>) -> Seq<char>
    decreases v, 5int, 0int,
{
    match flat(v[0], b) {
        Some(f) => f,
        None => source_text(v[0].span, b),
    }
}

pub open spec fn has_body(v: Seq<NodeView>) -> bool {
    match v[0].node {
        FormView::Symbol(s) => body_form(s),
        _ => false,
    }
}

pub open spec fn tall_compound(
    open: char,
    close: char,
    v: Seq<NodeView>,
    b: Seq<u8>,
    indent: int,
) -> Seq<char>
    decreases v, 10int, 0int,
{
    if v.len() == 0 {
        seq![open, close]
    } else {
        seq![open] + tall_items(v, b, indent, v.len() as int).0 + closing_gap(v, indent) + seq![
            close,
        ]
    }
}

/// What stands before the closing bracket: a comment ends with its line, so the
/// bracket stands on the next one.
pub open spec fn closing_gap(v: Seq<NodeView>, indent: int) -> Seq<char> {
    if ends_in_comment(v.last()) {
        seq!['\n'] + spaces(indent + 2)
    } else {
        Seq::empty()
    }
}

/// Whether the `k`-th node still fits behind what stands on the head line,
/// whose next free column is `col` (none once a line was broken). Nothing fits
/// behind a head that ends in a comment.
pub open spec fn packs(v: Seq<NodeView>, b: Seq<u8>, col: Option<int>, k: int) -> bool
    decreases v, 6int, 0int,
{
    match (col, flat(v[k], b)) {
        (Some(c), Some(f)) => {
            &&& c <= COL_LIMIT
            &&& !(k == 1 && ends_in_comment(v[0]))
            &&& !(has_body(v) && (v[k].node is List || v[k].node is Table))
            &&& c + 1 + width(f) <= COL_LIMIT
        },
        _ => false,
    }
}

/// The first `k` nodes of a compound that is spread over several lines, and
/// the column behind them while they all stand on the head line.
pub open spec fn tall_items(v: Seq<NodeView>, b: Seq<u8>, indent: int, k: int) -> (
    Seq<char>,
    Option<int>,
)
    decreases v, 9int, k,
{
    if k <= 1 || k > v.len() {
        let head = head_text(v, b);
        (head, Some(indent + 1 + width(head)))
    } else {
        let (before, col) = tall_items(v, b, indent, k - 1);
        if packs(v, b, col, k - 1) {
            let f = flat(v[k - 1], b)->0;
            (before + seq![' '] + f, Some(col->0 + 1 + width(f)))
        } else {
            (
                before + seq!['\n'] + spaces(indent + 2) + node_text(v[k - 1], b, indent + 2),
                None,
            )
        }
    }
}

/// The first `k` top-level nodes: a blank line between them, but none behind a comment.
pub open spec fn top_level(v: Seq<NodeView>, b: Seq<u8>, k: int) -> Seq<char>
    decreases k,
{
    if k <= 0 || k > v.len() {
        Seq::empty()
    } else if k == 1 {
        node_text(v[0], b, 0)
    } else {
        let gap = if v[k - 2].node is Comment {
            seq!['\n']
        } else {
            seq!['\n', '\n']
        };
        top_level(v, b, k - 1) + gap + node_text(v[k - 1], b, 0)
    }
}

/// The text without the line breaks at its end.
pub open spec fn without_final_breaks(s: Seq<char>) -> Seq<char>
    decreases s.len(),
{
    if s.len() > 0 && s.last() == '\n' {
        without_final_breaks(s.drop_last())
    } else {
        s
    }
}

/// The formatted text of a source; none where it has parse errors.
pub open spec fn formatted(src: Seq<char>) -> Option<Seq<char>> {
    let (nodes, errors) = parse_rich_source(src);
    if errors.len() > 0 {
        None
    } else {
        Some(
            without_final_breaks(top_level(nodes, encode_utf8(src), nodes.len() as int)).push('\n'),
        )
    }
}

// ── The formatter ───────────────────────────────────────────────────────────

/// Format `src`, returning the formatted text, which ends with exactly one
/// line break. Returns `None` if the source has parse errors (avoids mangling
/// broken code).
pub fn format(src: &str) -> (r: Option<String>)
    requires
        src.spec_bytes().len() <= u32::MAX,
    ensures
        match r {
            Some(text) => formatted(src@) == Some(text@),
            None => formatted(src@) is None,
        },
        r is None <==> parse_rich_source(src@).1.len() > 0,
        r matches Some(text) ==> set_out(src@, text@),
        r matches Some(text) ==> text@.len() > 0 && text@.last() == '\n' && (text@.len() > 1
            ==> text@[text@.len() - 2] != '\n'),
{
    let (nodes, errors) = Parser::parse_with_comments(src);
    if errors.len() > 0 {
        return None;
    }
    proof {
        parsed_nodes_are_placed(src@);
        formatted_text_is_indented(src@);
    }
    let mut out = String::new();
    fmt_top_level(&nodes, src, &mut out);
    Some(with_one_final_break(&out))
}

/// Normalises the end of a text to a single line break.
fn with_one_final_break(out: &str) -> (r: String)
    ensures
        r@ == without_final_breaks(out@).push('\n'),
        r@.len() > 1 ==> r@[r@.len() - 2] != '\n',
{
    let chars = chars_of(out);
    let mut end: usize = chars.len();
    assert(chars@.take(end as int) =~= chars@);
    while end > 0 && chars[end - 1] == '\n'
        invariant
            end <= chars@.len(),
            without_final_breaks(chars@.take(end as int)) == without_final_breaks(chars@),
        decreases end,
    {
        assert(chars@.take(end as int).drop_last() =~= chars@.take(end - 1));
        end = end - 1;
    }
    let mut text = text_of(vstd::slice::slice_subrange(chars.as_slice(), 0, end));
    assert(text@ =~= chars@.take(end as int));
    text.push('\n');
    text
}

fn is_body_form(name: &str) -> (r: bool)
    ensures
        r == body_form(name@),
{
    same(name, "fn") || same(name, "lambda") || same(name, "λ") || same(name, "macro") || same(
        name,
        "macros",
    ) || same(name, "local") || same(name, "var") || same(name, "global") || same(name, "set")
        || same(name, "tset") || same(name, "let") || same(name, "with-open") || same(name, "if")
        || same(name, "when") || same(name, "unless") || same(name, "do") || same(name, "each")
        || same(name, "for") || same(name, "while") || same(name, "match") || same(name, "case")
        || same(name, "match-try") || same(name, "case-try") || same(name, "accumulate") || same(
        name,
        "collect",
    ) || same(name, "icollect") || same(name, "fcollect") || same(name, "faccumulate") || same(
        name,
        "pick-values",
    ) || same(name, "pick-args")
}

pub(crate) fn white(c: char) -> (r: bool)
    ensures
        r == is_white(c),
{
    (c >= '\u{9}' && c <= '\u{D}') || c == '\u{20}' || c == '\u{85}' || c == '\u{A0}' || c
        == '\u{1680}' || (c >= '\u{2000}' && c <= '\u{200A}') || c == '\u{2028}' || c == '\u{2029}'
        || c == '\u{202F}' || c == '\u{205F}' || c == '\u{3000}'
}

/// Appends `text` without the whitespace at its end.
fn push_trimmed(out: &mut String, text: &str)
    ensures
        final(out)@ == old(out)@ + trimmed_end(text@),
{
    let chars = chars_of(text);
    let mut end: usize = chars.len();
    assert(chars@.take(end as int) =~= chars@);
    while end > 0 && white(chars[end - 1])
        invariant
            end <= chars@.len(),
            trimmed_end(chars@.take(end as int)) == trimmed_end(chars@),
        decreases end,
    {
        assert(chars@.take(end as int).drop_last() =~= chars@.take(end - 1));
        end = end - 1;
    }
    let t = text_of(vstd::slice::slice_subrange(chars.as_slice(), 0, end));
    assert(t@ =~= chars@.take(end as int));
    out.append(&t);
}

fn fmt_top_level(nodes: &[RichNode], src: &str, out: &mut String)
    requires
        placed_all(src.spec_bytes(), rich_views(nodes@), 0, src.spec_bytes().len() as int),
        src.spec_bytes().len() <= u32::MAX,
        old(out)@.len() == 0,
    ensures
        final(out)@ == top_level(rich_views(nodes@), src.spec_bytes(), nodes@.len() as int),
{
    let ghost v = rich_views(nodes@);
    let ghost b = src.spec_bytes();
    let mut prev_was_comment = false;
    let mut i: usize = 0;
    while i < nodes.len()
        invariant
            i <= nodes.len(),
            v == rich_views(nodes@),
            b == src.spec_bytes(),
            b.len() <= u32::MAX,
            placed_all(b, v, 0, b.len() as int),
            out@ == top_level(v, b, i as int),
            i > 0 ==> prev_was_comment == (v[i - 1].node is Comment),
        decreases nodes.len() - i,
    {
        let ghost before = out@;
        assert(v[i as int] == rich_view(nodes@[i as int]));
        if i > 0 {
            // One blank line between top-level forms; no blank line between a
            // comment and the form it annotates.
            out.push('\n');
            if !prev_was_comment {
                out.push('\n');
            }
        }
        fmt_node(&nodes[i], src, 0, out);
        prev_was_comment = matches!(nodes[i].node, RichForm::Comment(_));
        i = i + 1;
        assert(out@ =~= top_level(v, b, i as int));
    }
}

fn fmt_node(node: &RichNode, src: &str, indent: u64, out: &mut String)
    requires
        placed(src.spec_bytes(), rich_view(*node)),
        indent <= 2 * node.span.start,
    ensures
        final(out)@ == old(out)@ + node_text(
            rich_view(*node),
            src.spec_bytes(),
            indent as int,
        ),
    decreases node, 3int, 0int,
{
    if let RichForm::Comment(text) = &node.node {
        push_trimmed(out, text);
        return ;
    }
    if let Some(text) = render_flat(node, src) {
        if fits(indent, &text) {
            out.append(&text);
            return ;
        }
    }
    render_tall(node, src, indent, out);
}

/// Attempt to render `node` on a single line.
/// Returns `None` if the node contains a comment.
fn render_flat(node: &RichNode, src: &str) -> (r: Option<String>)
    requires
        placed(src.spec_bytes(), rich_view(*node)),
    ensures
        match r {
            Some(s) => flat(rich_view(*node), src.spec_bytes()) == Some(s@),
            None => flat(rich_view(*node), src.spec_bytes()) is None,
        },
    decreases node, 1int, 0int,
{
    match &node.node {
        RichForm::Comment(_) => None,
        RichForm::List(ch) => compound_flat('(', ')', ch, src, Ghost(node.span)),
        RichForm::Table(ch) => compound_flat('{', '}', ch, src, Ghost(node.span)),
        RichForm::Sequence(ch) => compound_flat('[', ']', ch, src, Ghost(node.span)),
        RichForm::Quote(inner) => prefix_flat('\'', render_flat(inner, src)),
        RichForm::Quasiquote(inner) => prefix_flat('`', render_flat(inner, src)),
        RichForm::Unquote(inner) => prefix_flat(',', render_flat(inner, src)),
        RichForm::UnquoteSplice(inner) => {
            let r = prefix_flat(',', prefix_flat('@', render_flat(inner, src)));
            proof {
                if let Some(f) = flat(rich_view(**inner), src.spec_bytes()) {
                    assert(seq![','] + (seq!['@'] + f) =~= seq![',', '@'] + f);
                }
            }
            r
        },
        RichForm::HashFn(inner) => prefix_flat('#', render_flat(inner, src)),
        // Atoms: emit the original source text verbatim.
        _ => Some(atom_text(node, src).to_owned()),
    }
}

fn prefix_flat(c: char, inner: Option<String>) -> (r: Option<String>)
    ensures
        match inner {
            Some(s) => r is Some && r->0@ == seq![c] + s@,
            None => r is None,
        },
{
    match inner {
        Some(s) => {
            let mut out = String::new();
            out.push(c);
            out.append(&s);
            assert(out@ =~= seq![c] + s@);
            Some(out)
        },
        None => None,
    }
}

fn compound_flat(
    open: char,
    close: char,
    children: &Vec<RichNode>,
    src: &str,
    Ghost(span): Ghost<Span>,
) -> (r: Option<String>)
    requires
        placed_all(src.spec_bytes(), rich_views(children@), span.start + 1, span.end as int),
    ensures
        ({
            let want = bracketed(
                open,
                flat_items(rich_views(children@), src.spec_bytes(), children@.len() as int),
                close,
            );
            match r {
                Some(s) => want == Some(s@),
                None => want is None,
            }
        }),
    decreases children, 0int, 0int,
{
    let ghost v = rich_views(children@);
    let ghost b = src.spec_bytes();
    let mut s = String::new();
    s.push(open);
    let mut i: usize = 0;
    assert(s@ =~= seq![open] + flat_items(v, b, 0)->0);
    while i < children.len()
        invariant
            i <= children.len(),
            v == rich_views(children@),
            b == src.spec_bytes(),
            placed_all(b, v, span.start + 1, span.end as int),
            flat_items(v, b, i as int) is Some,
            s@ == seq![open] + flat_items(v, b, i as int)->0,
        decreases children.len() - i,
    {
        assert(v[i as int] == rich_view(children@[i as int]));
        let ghost before = flat_items(v, b, i as int)->0;
        match render_flat(&children[i], src) {
            Some(item) => {
                if i > 0 {
                    s.push(' ');
                }
                s.append(&item);
                assert(s@ =~= seq![open] + flat_items(v, b, i + 1)->0);
            },
            None => {
                proof {
                    flat_items_none(v, b, i + 1, v.len() as int);
                }
                return None;
            },
        }
        i = i + 1;
    }
    s.push(close);
    assert(s@ =~= seq![open] + flat_items(v, b, v.len() as int)->0 + seq![close]);
    Some(s)
}

proof fn flat_items_none(v: Seq<NodeView>, b: Seq<u8>, k: int, n: int)
    requires
        0 < k <= n <= v.len(),
        flat_items(v, b, k) is None,
    ensures
        flat_items(v, b, n) is None,
    decreases n - k,
{
    if k < n {
        flat_items_none(v, b, k + 1, n);
    }
}

fn render_tall(node: &RichNode, src: &str, indent: u64, out: &mut String)
    requires
        placed(src.spec_bytes(), rich_view(*node)),
        indent <= 2 * node.span.start,
    ensures
        final(out)@ == old(out)@ + tall(rich_view(*node), src.spec_bytes(), indent as int),
    decreases node, 2int, 0int,
{
    let ghost o = out@;
    let ghost b = src.spec_bytes();
    let ghost n = rich_view(*node);
    match &node.node {
        RichForm::List(ch) => {
            render_tall_compound('(', ')', ch, src, indent, out, Ghost(node.span));
        },
        RichForm::Table(ch) => {
            render_tall_compound('{', '}', ch, src, indent, out, Ghost(node.span));
        },
        RichForm::Sequence(ch) => {
            render_tall_compound('[', ']', ch, src, indent, out, Ghost(node.span));
        },
        RichForm::Quote(inner) => {
            out.push('\'');
            fmt_node(inner, src, indent + 1, out);
        },
        RichForm::Quasiquote(inner) => {
            out.push('`');
            fmt_node(inner, src, indent + 1, out);
        },
        RichForm::Unquote(inner) => {
            out.push(',');
            fmt_node(inner, src, indent + 1, out);
        },
        RichForm::UnquoteSplice(inner) => {
            out.push(',');
            out.push('@');
            fmt_node(inner, src, indent + 2, out);
        },
        RichForm::HashFn(inner) => {
            out.push('#');
            fmt_node(inner, src, indent + 1, out);
        },
        RichForm::Comment(text) => {
            push_trimmed(out, text);
        },
        _ => {
            out.append(atom_text(node, src));
        },
    }
    assert(out@ =~= o + tall(n, b, indent as int));
}

fn render_tall_compound(
    open: char,
    close: char,
    children: &Vec<RichNode>,
    src: &str,
    indent: u64,
    out: &mut String,
    Ghost(span): Ghost<Span>,
)
    requires
        placed_all(src.spec_bytes(), rich_views(children@), span.start + 1, span.end as int),
        indent <= 2 * span.start,
    ensures
        final(out)@ == old(out)@ + tall_compound(
            open,
            close,
            rich_views(children@),
            src.spec_bytes(),
            indent as int,
        ),
    decreases children, 10int, 0int,
{
    let ghost o = out@;
    let ghost v = rich_views(children@);
    let ghost b = src.spec_bytes();
    let child_indent: u64 = indent + 2;
    out.push(open);
    if children.len() == 0 {
        out.push(close);
        assert(out@ =~= o + seq![open, close]);
        return ;
    }
    let head = &children[0];
    assert(v[0] == rich_view(children@[0]));
    // Determine if this is a body form: pack atoms/sequences on the head line,
    // break on the first List/Table child.
    let body = match &head.node {
        RichForm::Symbol(s) => is_body_form(s),
        _ => false,
    };
    // Head always sits on the same line as the opening delimiter.
    let head_flat = match render_flat(head, src) {
        Some(f) => f,
        None => atom_text(head, src).to_owned(),
    };
    out.append(&head_flat);
    // The next free column on the head line; none once a line was broken.
    let mut col: Option<u64> = if !comment_ends(head) && fits(indent + 1, &head_flat) {
        Some(indent + 1 + byte_len(&head_flat) as u64)
    } else {
        None
    };
    let mut i: usize = 1;
    assert(out@ =~= o + seq![open] + tall_items(v, b, indent as int, 1).0);
    while i < children.len()
        invariant
            1 <= i <= children.len(),
            v == rich_views(children@),
            b == src.spec_bytes(),
            placed_all(b, v, span.start + 1, span.end as int),
            indent <= 2 * span.start,
            child_indent == indent + 2,
            body == has_body(v),
            out@ == o + seq![open] + tall_items(v, b, indent as int, i as int).0,
            ({
                let c = tall_items(v, b, indent as int, i as int).1;
                &&& col is Some <==> (c is Some && c->0 <= COL_LIMIT && !(i == 1 && ends_in_comment(
                    v[0],
                )))
                &&& col is Some ==> col->0 == c->0
            }),
        decreases children.len() - i,
    {
        let child = &children[i];
        assert(v[i as int] == rich_view(children@[i as int]));
        let ghost before = tall_items(v, b, indent as int, i as int).0;
        let compound = matches!(child.node, RichForm::List(_) | RichForm::Table(_));
        let mut packed = false;
        if let Some(c) = col {
            // For body forms: never pack List or Table children onto the head line.
            if !(body && compound) {
                if let Some(text) = render_flat(child, src) {
                    if fits(c + 1, &text) {
                        out.push(' ');
                        out.append(&text);
                        col = Some(c + 1 + byte_len(&text) as u64);
                        packed = true;
                        assert(packs(v, b, tall_items(v, b, indent as int, i as int).1, i as int));
                    }
                }
            }
        }
        if !packed {
            assert(!packs(v, b, tall_items(v, b, indent as int, i as int).1, i as int));
            // Break to a new line, and don't pack after it. Comments always
            // go on their own line.
            out.push('\n');
            push_indent(out, child_indent);
            fmt_node(child, src, child_indent, out);
            col = None;
        }
        i = i + 1;
        assert(out@ =~= o + seq![open] + tall_items(v, b, indent as int, i as int).0);
    }
    assert(v.last() == rich_view(children@.last()));
    // A closing delimiter must not end up inside a comment.
    if comment_ends(&children[children.len() - 1]) {
        out.push('\n');
        push_indent(out, child_indent);
    }
    out.push(close);
    assert(out@ =~= o + tall_compound(open, close, v, b, indent as int));
}

/// Whether the last token of `node` is a comment.
fn comment_ends(node: &RichNode) -> (r: bool)
    ensures
        r == ends_in_comment(rich_view(*node)),
    decreases node,
{
    match &node.node {
        RichForm::Comment(_) => true,
        RichForm::Quote(inner) => comment_ends(inner),
        RichForm::Quasiquote(inner) => comment_ends(inner),
        RichForm::Unquote(inner) => comment_ends(inner),
        RichForm::UnquoteSplice(inner) => comment_ends(inner),
        RichForm::HashFn(inner) => comment_ends(inner),
        _ => false,
    }
}

/// Whether `text`, put at column `col`, ends within the limit.
fn fits(col: u64, text: &str) -> (r: bool)
    ensures
        r == (col + width(text@) <= COL_LIMIT),
{
    col <= COL_LIMIT && byte_len(text) as u64 <= COL_LIMIT - col
}

fn atom_text<'s>(node: &RichNode, src: &'s str) -> (r: &'s str)
    requires
        span_on_text(src.spec_bytes(), node.span),
    ensures
        r@ == source_text(node.span, src.spec_bytes()),
{
    slice(src, node.span.start as usize, node.span.end as usize)
}

pub(crate) fn push_indent(out: &mut String, indent: u64)
    ensures
        final(out)@ == old(out)@ + spaces(indent as int),
{
    let ghost o = out@;
    let mut k: u64 = 0;
    assert(o + spaces(0) =~= o);
    while k < indent
        invariant
            k <= indent,
            out@ == o + spaces(k as int),
        decreases indent - k,
    {
        out.push(' ');
        k = k + 1;
        assert(out@ =~= o + spaces(k as int));
    }
}

} // verus!
