//! The shape of a file: folding ranges, selection ranges and document symbols.
use vstd::prelude::*;
use vstd::string::*;
use vstd::utf8::*;

use crate::analyzer::{AnalysisResult, AnalysisView, DefKind, DefinitionInfo, DefinitionView};
use crate::lexer::Span;
use crate::parser::{
    head_name, head_sym, node_view, node_views, parse_source, parsed_nodes_are_placed, placed,
    placed_all, refs_are, AstNode, Form, FormView,
};
use crate::strings::{byte_len, join, joined, same};
use crate::text::{
    byte_to_position, not_behind, offset_of, position_of, position_to_byte, positions_in_order,
    range_of, span_to_range, Position, Range,
};
use crate::walks::{reach, reach_node, reached, visited, Rule};

verus! {

// ── Folding ─────────────────────────────────────────────────────────────────

/// Lines that an editor may fold to one.
#[derive(Debug, Clone, Copy, PartialEq, Eq, Structural)]
pub struct FoldingRange {
    pub start_line: u32,
    pub end_line: u32,
}

/// The fold of a node: a list, a sequence or a table on more than one line.
pub open spec fn fold_of(n: AstNode, b: Seq<u8>) -> Option<FoldingRange> {
    let start_line = position_of(b, n.span.start as int).line;
    let end_line = position_of(b, n.span.end as int).line;
    if (n.node is List || n.node is Sequence || n.node is Table) && end_line > start_line {
        Some(FoldingRange { start_line, end_line })
    } else {
        None
    }
}

/// The folds of the first `k` of some nodes.
pub open spec fn folds_of(nodes: Seq<AstNode>, b: Seq<u8>, k: int) -> Seq<FoldingRange>
    decreases k,
{
    if 0 < k <= nodes.len() {
        let before = folds_of(nodes, b, k - 1);
        match fold_of(nodes[k - 1], b) {
            Some(f) => before.push(f),
            None => before,
        }
    } else {
        Seq::empty()
    }
}

fn push_folds(nodes: &Vec<&AstNode>, text: &str, out: &mut Vec<FoldingRange>, all: Ghost<Seq<AstNode>>)
    requires
        refs_are(nodes@, all@),
    ensures
        final(out)@ == old(out)@ + folds_of(all@, text.spec_bytes(), all@.len() as int),
{
    let ghost b = text.spec_bytes();
    let ghost o = out@;
    assert(o =~= o + folds_of(all@, b, 0));
    let mut i: usize = 0;
    while i < nodes.len()
        invariant
            i <= nodes@.len(),
            refs_are(nodes@, all@),
            b == text.spec_bytes(),
            out@ == o + folds_of(all@, b, i as int),
        decreases nodes@.len() - i,
    {
        let n = nodes[i];
        assert(*n == all@[i as int]);
        let holds_more = match &n.node {
            Form::List(_) => true,
            Form::Sequence(_) => true,
            Form::Table(_) => true,
            _ => false,
        };
        if holds_more {
            let start_line = byte_to_position(text, n.span.start as usize).line;
            let end_line = byte_to_position(text, n.span.end as usize).line;
            if end_line > start_line {
                let ghost before = folds_of(all@, b, i as int);
                let fold = FoldingRange { start_line, end_line };
                out.push(fold);
                assert(out@ =~= o + before.push(fold));
            }
        }
        i = i + 1;
    }
}

/// Walk the AST and emit a FoldingRange for every multi-line list/sequence/table.
pub fn collect_folds(node: &AstNode, text: &str, out: &mut Vec<FoldingRange>)
    ensures
        final(out)@ == old(out)@ + folds_of(
            visited(Rule::All, *node),
            text.spec_bytes(),
            visited(Rule::All, *node).len() as int,
        ),
{
    let nodes = reach_node(Rule::All, node);
    push_folds(&nodes, text, out, Ghost(visited(Rule::All, *node)));
}

/// The folding ranges of a file.
pub fn folding_ranges(ast: &[AstNode], text: &str) -> (r: Vec<FoldingRange>)
    ensures
        r@ == folds_of(
            reached(Rule::All, ast@),
            text.spec_bytes(),
            reached(Rule::All, ast@).len() as int,
        ),
{
    let nodes = reach(Rule::All, ast);
    let mut out: Vec<FoldingRange> = Vec::new();
    push_folds(&nodes, text, &mut out, Ghost(reached(Rule::All, ast@)));
    assert(out@ =~= folds_of(
        reached(Rule::All, ast@),
        text.spec_bytes(),
        reached(Rule::All, ast@).len() as int,
    ));
    out
}

// ── Selection ───────────────────────────────────────────────────────────────

pub open spec fn spans_of(nodes: Seq<AstNode>) -> Seq<Span> {
    Seq::new(nodes.len(), |i: int| nodes[i].span)
}

/// Recursively collect every AST span that contains `byte` into `out`.
pub fn collect_enclosing_spans(node: &AstNode, byte: u32, out: &mut Vec<Span>)
    ensures
        final(out)@ == old(out)@ + spans_of(visited(Rule::Covering(byte), *node)),
{
    let nodes = reach_node(Rule::Covering(byte), node);
    push_spans(&nodes, out, Ghost(visited(Rule::Covering(byte), *node)));
}

fn push_spans(nodes: &Vec<&AstNode>, out: &mut Vec<Span>, all: Ghost<Seq<AstNode>>)
    requires
        refs_are(nodes@, all@),
    ensures
        final(out)@ == old(out)@ + spans_of(all@),
{
    let ghost o = out@;
    let mut i: usize = 0;
    while i < nodes.len()
        invariant
            i <= nodes@.len(),
            refs_are(nodes@, all@),
            out@ == o + spans_of(all@).take(i as int),
        decreases nodes@.len() - i,
    {
        let n = nodes[i];
        assert(*n == all@[i as int]);
        out.push(n.span);
        i = i + 1;
        assert(out@ =~= o + spans_of(all@).take(i as int));
    }
    assert(spans_of(all@).take(all@.len() as int) =~= spans_of(all@));
}

pub open spec fn span_width(s: Span) -> int {
    s.end - s.start
}

/// Puts a span behind all those that are not wider.
pub open spec fn insert_span(s: Seq<Span>, x: Span) -> Seq<Span>
    decreases s.len(),
{
    if s.len() > 0 && span_width(s.last()) > span_width(x) {
        insert_span(s.drop_last(), x).push(s.last())
    } else {
        s.push(x)
    }
}

/// The spans, the narrowest first; those as wide as each other keep their order.
pub open spec fn by_width(s: Seq<Span>) -> Seq<Span>
    decreases s.len(),
{
    if s.len() == 0 {
        s
    } else {
        insert_span(by_width(s.drop_last()), s.last())
    }
}

pub open spec fn same_stretch(a: Span, b: Span) -> bool {
    a.start == b.start && a.end == b.end
}

/// The spans without those that repeat the one before them.
pub open spec fn without_repeats(s: Seq<Span>) -> Seq<Span>
    decreases s.len(),
{
    if s.len() == 0 {
        s
    } else {
        let before = without_repeats(s.drop_last());
        if before.len() > 0 && same_stretch(before.last(), s.last()) {
            before
        } else {
            before.push(s.last())
        }
    }
}

pub open spec fn ranges_of(s: Seq<Span>, b: Seq<u8>) -> Seq<Range> {
    Seq::new(s.len(), |i: int| range_of(b, s[i]))
}

/// The whole of a text.
pub open spec fn whole_range(b: Seq<u8>) -> Range {
    Range { start: Position { line: 0, character: 0 }, end: position_of(b, b.len() as int) }
}

/// The spans of the nodes around a byte, the narrowest first.
pub open spec fn spans_around(ast: Seq<AstNode>, byte: u32) -> Seq<Span> {
    without_repeats(by_width(spans_of(reached(Rule::Covering(byte), ast))))
}

/// What a selection at a byte grows through: the nodes around it from the
/// innermost outward, or the whole text where there is none.
pub open spec fn selection_at(ast: Seq<AstNode>, b: Seq<u8>, byte: u32) -> Seq<Range> {
    let spans = spans_around(ast, byte);
    if spans.len() == 0 {
        seq![whole_range(b)]
    } else {
        ranges_of(spans, b)
    }
}

fn width_of(s: &Span) -> (r: i64)
    ensures
        r == span_width(*s),
{
    s.end as i64 - s.start as i64
}

proof fn insert_span_at(s: Seq<Span>, x: Span, k: int)
    requires
        0 <= k <= s.len(),
        forall|i: int| k <= i < s.len() ==> span_width(#[trigger] s[i]) > span_width(x),
        k > 0 ==> span_width(s[k - 1]) <= span_width(x),
    ensures
        insert_span(s, x) == s.insert(k, x),
    decreases s.len(),
{
    if k < s.len() {
        let t = s.drop_last();
        assert(span_width(s[s.len() - 1]) > span_width(x));
        insert_span_at(t, x, k);
        assert(t.insert(k, x).push(s.last()) =~= s.insert(k, x));
    } else {
        assert(s.push(x) =~= s.insert(k, x));
        if s.len() > 0 {
            assert(span_width(s.last()) <= span_width(x));
        }
    }
}

fn sort_by_width(spans: &Vec<Span>) -> (r: Vec<Span>)
    ensures
        r@ == by_width(spans@),
{
    let mut out: Vec<Span> = Vec::new();
    let mut i: usize = 0;
    assert(spans@.take(0) =~= Seq::<Span>::empty());
    while i < spans.len()
        invariant
            i <= spans@.len(),
            out@ == by_width(spans@.take(i as int)),
        decreases spans@.len() - i,
    {
        let x = spans[i];
        let mut k: usize = out.len();
        while k > 0 && width_of(&out[k - 1]) > width_of(&x)
            invariant
                k <= out@.len(),
                forall|j: int| k <= j < out@.len() ==> span_width(#[trigger] out@[j]) > span_width(x),
            decreases k,
        {
            k = k - 1;
        }
        proof {
            insert_span_at(out@, x, k as int);
            let t = spans@.take(i + 1);
            assert(t.drop_last() =~= spans@.take(i as int));
        }
        out.insert(k, x);
        i = i + 1;
    }
    assert(spans@.take(spans@.len() as int) =~= spans@);
    out
}

fn drop_repeats(spans: &Vec<Span>) -> (r: Vec<Span>)
    ensures
        r@ == without_repeats(spans@),
{
    let mut out: Vec<Span> = Vec::new();
    let mut i: usize = 0;
    assert(spans@.take(0) =~= Seq::<Span>::empty());
    while i < spans.len()
        invariant
            i <= spans@.len(),
            out@ == without_repeats(spans@.take(i as int)),
        decreases spans@.len() - i,
    {
        let x = spans[i];
        assert(spans@.take(i + 1).drop_last() =~= spans@.take(i as int));
        let n = out.len();
        if n > 0 && out[n - 1].start == x.start && out[n - 1].end == x.end {
        } else {
            out.push(x);
        }
        i = i + 1;
    }
    assert(spans@.take(spans@.len() as int) =~= spans@);
    out
}

/// The ranges that a selection at a byte grows through, from the innermost
/// outward: each one is the parent of the one before it.
pub fn selection_ranges(ast: &[AstNode], text: &str, byte: u32) -> (r: Vec<Range>)
    ensures
        r@ == selection_at(ast@, text.spec_bytes(), byte),
{
    let ghost b = text.spec_bytes();
    let nodes = reach(Rule::Covering(byte), ast);
    let mut spans: Vec<Span> = Vec::new();
    push_spans(&nodes, &mut spans, Ghost(reached(Rule::Covering(byte), ast@)));
    assert(spans@ =~= spans_of(reached(Rule::Covering(byte), ast@)));
    let spans = drop_repeats(&sort_by_width(&spans));
    if spans.len() == 0 {
        let all = vec![
            Range {
                start: Position { line: 0, character: 0 },
                end: byte_to_position(text, byte_len(text)),
            },
        ];
        assert(all@ =~= seq![whole_range(b)]);
        return all;
    }
    let mut out: Vec<Range> = Vec::new();
    let mut i: usize = 0;
    while i < spans.len()
        invariant
            i <= spans@.len(),
            b == text.spec_bytes(),
            out@.len() == i,
            forall|j: int| 0 <= j < i ==> #[trigger] out@[j] == range_of(b, spans@[j]),
        decreases spans@.len() - i,
    {
        out.push(span_to_range(text, &spans[i]));
        i = i + 1;
    }
    assert(out@ =~= ranges_of(spans@, b));
    out
}

/// The byte that a selection grows from; a position that is out of bounds counts as
/// the start of the text.
pub open spec fn selection_byte(text: Seq<char>, pos: Position) -> u32 {
    match offset_of(text, pos) {
        Some(byte) => byte as u32,
        None => 0,
    }
}

/// The ranges that a selection at a position grows through.
pub fn selection_ranges_at(ast: &[AstNode], text: &str, pos: Position) -> (r: Vec<Range>)
    ensures
        r@ == selection_at(ast@, text.spec_bytes(), selection_byte(text@, pos)),
{
    let byte: u32 = match position_to_byte(text, pos) {
        Some(byte) => byte as u32,
        None => 0,
    };
    selection_ranges(ast, text, byte)
}

// ── Document symbols ────────────────────────────────────────────────────────

#[derive(Debug, Clone, Copy, PartialEq, Eq, Structural)]
pub enum SymbolKind {
    Function,
    Operator,
    Variable,
}

/// A definition of a file, with the definitions inside it.
#[derive(Debug)]
pub struct DocumentSymbol {
    pub name: String,
    pub detail: Option<String>,
    pub kind: SymbolKind,
    pub range: Range,
    pub selection_range: Range,
    pub children: Vec<DocumentSymbol>,
}

#[verifier::ext_equal]
pub ghost struct DocView {
    pub name: Seq<char>,
    pub detail: Option<Seq<char>>,
    pub kind: SymbolKind,
    pub range: Range,
    pub selection_range: Range,
    pub children: Seq<DocView>,
}

pub open spec fn doc_view(d: DocumentSymbol) -> DocView
    decreases d,
{
    DocView {
        name: d.name@,
        detail: match d.detail {
            Some(t) => Some(t@),
            None => None,
        },
        kind: d.kind,
        range: d.range,
        selection_range: d.selection_range,
        children: doc_views(d.children@),
    }
}

pub open spec fn doc_views(s: Seq<DocumentSymbol>) -> Seq<DocView>
    decreases s,
{
    Seq::new(
        s.len(),
        |i: int|
            if 0 <= i < s.len() {
                doc_view(s[i])
            } else {
                arbitrary()
            },
    )
}

pub open spec fn symbol_kind(kind: DefKind) -> SymbolKind {
    match kind {
        DefKind::Fn => SymbolKind::Function,
        DefKind::Macro => SymbolKind::Operator,
        _ => SymbolKind::Variable,
    }
}

pub fn def_kind_to_symbol_kind(kind: &DefKind) -> (r: SymbolKind)
    ensures
        r == symbol_kind(*kind),
{
    match kind {
        DefKind::Fn => SymbolKind::Function,
        DefKind::Macro => SymbolKind::Operator,
        _ => SymbolKind::Variable,
    }
}

/// `fn [a b]`
pub open spec fn fn_detail(params: Seq<Seq<char>>) -> Seq<char> {
    "fn ["@ + joined(params, " "@, params.len() as int) + "]"@
}

/// The detail of a definition with known parameters.
pub open spec fn detail_of(d: DefinitionView) -> Option<Seq<char>> {
    match d.params {
        Some(p) => Some(fn_detail(p)),
        None => None,
    }
}

/// The detail of a definition with known parameters.
pub fn definition_detail(d: &DefinitionInfo) -> (r: Option<String>)
    ensures
        match r {
            Some(t) => detail_of(d@) == Some(t@),
            None => detail_of(d@) is None,
        },
{
    match &d.params {
        Some(p) => {
            let mut out = "fn [".to_owned();
            out.append(&join(p, " "));
            out.append("]");
            Some(out)
        },
        None => None,
    }
}

pub open spec fn makes_function(head: Option<Seq<char>>) -> bool {
    head == Some("fn"@) || head == Some("lambda"@) || head == Some("λ"@) || head == Some("macro"@)
}

pub open spec fn makes_binding(head: Option<Seq<char>>) -> bool {
    head == Some("local"@) || head == Some("var"@) || head == Some("global"@)
}

/// Scoping and control-flow forms, whose insides may hold definitions.
pub open spec fn is_passage(head: Option<Seq<char>>) -> bool {
    ||| head == Some("let"@) || head == Some("do"@) || head == Some("when"@) || head == Some(
        "unless"@,
    ) || head == Some("if"@)
    ||| head == Some("each"@) || head == Some("for"@) || head == Some("while"@)
    ||| head == Some("accumulate"@) || head == Some("collect"@) || head == Some("icollect"@)
    ||| head == Some("fcollect"@) || head == Some("faccumulate"@)
    ||| head == Some("with-open"@) || head == Some("match"@) || head == Some("case"@)
    ||| head == Some("case-try"@) || head == Some("match-try"@)
}

/// The symbol of a definition form: its name, what is known of the definition at
/// that name, and the symbols inside.
pub open spec fn named_symbol(
    a: AnalysisView,
    b: Seq<u8>,
    span: Span,
    name: Seq<char>,
    name_span: Span,
    otherwise: SymbolKind,
    children: Seq<DocView>,
) -> DocView {
    let known = a.defs.dom().contains(name_span.start);
    let d = a.defs[name_span.start];
    DocView {
        name,
        detail: if known {
            detail_of(d)
        } else {
            None
        },
        kind: if known {
            symbol_kind(d.kind)
        } else {
            otherwise
        },
        range: range_of(b, span),
        selection_range: range_of(b, name_span),
        children,
    }
}

/// The symbols that a node makes.
pub open spec fn node_symbols(a: AnalysisView, b: Seq<u8>, n: AstNode) -> Seq<DocView>
    decreases n, 0int,
{
    match n.node {
        Form::List(v) => {
            let forms = v@;
            let head = head_name(forms);
            if makes_function(head) {
                if forms.len() < 2 {
                    Seq::empty()
                } else {
                    match forms[1].node {
                        Form::Symbol(name) => seq![
                            named_symbol(
                                a,
                                b,
                                n.span,
                                name@,
                                forms[1].span,
                                SymbolKind::Function,
                                symbols_from(a, b, forms, 3),
                            ),
                        ],
                        _ => symbols_from(a, b, forms, 2),
                    }
                }
            } else if makes_binding(head) {
                if forms.len() < 3 {
                    Seq::empty()
                } else {
                    match forms[1].node {
                        Form::Symbol(name) => seq![
                            named_symbol(
                                a,
                                b,
                                n.span,
                                name@,
                                forms[1].span,
                                SymbolKind::Variable,
                                symbols_from(a, b, forms, 2),
                            ),
                        ],
                        _ => node_symbols(a, b, forms[2]),
                    }
                }
            } else if is_passage(head) {
                symbols_from(a, b, forms, 1)
            } else {
                Seq::empty()
            }
        },
        _ => Seq::empty(),
    }
}

/// The symbols that the nodes from index `i` on make.
pub open spec fn symbols_from(a: AnalysisView, b: Seq<u8>, s: Seq<AstNode>, i: int) -> Seq<DocView>
    decreases s, s.len() - i,
{
    if 0 <= i < s.len() {
        node_symbols(a, b, s[i]) + symbols_from(a, b, s, i + 1)
    } else {
        Seq::empty()
    }
}

fn is_one(head: &Option<&str>, name: &str) -> (r: bool)
    ensures
        r == (*head matches Some(h) && h@ == name@),
{
    match head {
        Some(h) => same(h, name),
        None => false,
    }
}

fn function_head(head: &Option<&str>) -> (r: bool)
    ensures
        r == (*head matches Some(h) && makes_function(Some(h@))),
{
    is_one(head, "fn") || is_one(head, "lambda") || is_one(head, "λ") || is_one(head, "macro")
}

fn binding_head(head: &Option<&str>) -> (r: bool)
    ensures
        r == (*head matches Some(h) && makes_binding(Some(h@))),
{
    is_one(head, "local") || is_one(head, "var") || is_one(head, "global")
}

fn passage_head(head: &Option<&str>) -> (r: bool)
    ensures
        r == (*head matches Some(h) && is_passage(Some(h@))),
{
    is_one(head, "let") || is_one(head, "do") || is_one(head, "when") || is_one(head, "unless")
        || is_one(head, "if") || is_one(head, "each") || is_one(head, "for") || is_one(
        head,
        "while",
    ) || is_one(head, "accumulate") || is_one(head, "collect") || is_one(head, "icollect")
        || is_one(head, "fcollect") || is_one(head, "faccumulate") || is_one(head, "with-open")
        || is_one(head, "match") || is_one(head, "case") || is_one(head, "case-try") || is_one(
        head,
        "match-try",
    )
}

/// The document symbols of some nodes.
pub fn doc_syms_from_nodes(nodes: &[AstNode], text: &str, analysis: &AnalysisResult) -> (r: Vec<
    DocumentSymbol,
>)
    ensures
        doc_views(r@) == symbols_from(analysis@, text.spec_bytes(), nodes@, 0),
{
    let mut out: Vec<DocumentSymbol> = Vec::new();
    push_symbols(nodes, 0, text, analysis, &mut out);
    assert(doc_views(out@) =~= symbols_from(analysis@, text.spec_bytes(), nodes@, 0));
    out
}

fn push_symbols(
    nodes: &[AstNode],
    from: usize,
    text: &str,
    analysis: &AnalysisResult,
    out: &mut Vec<DocumentSymbol>,
)
    ensures
        doc_views(final(out)@) == doc_views(old(out)@) + symbols_from(
            analysis@,
            text.spec_bytes(),
            nodes@,
            from as int,
        ),
    decreases nodes@, 1int,
{
    let ghost a = analysis@;
    let ghost b = text.spec_bytes();
    let ghost o = doc_views(out@);
    let ghost want = o + symbols_from(a, b, nodes@, from as int);
    let mut i: usize = from;
    while i < nodes.len()
        invariant
            from <= i,
            a == analysis@,
            b == text.spec_bytes(),
            doc_views(out@) + symbols_from(a, b, nodes@, i as int) == want,
        decreases nodes@.len() - i,
    {
        let ghost before = doc_views(out@);
        doc_sym_from_node(&nodes[i], text, analysis, out);
        assert(doc_views(out@) + symbols_from(a, b, nodes@, i + 1) =~= before + symbols_from(
            a,
            b,
            nodes@,
            i as int,
        ));
        i = i + 1;
    }
    assert(doc_views(out@) =~= doc_views(out@) + symbols_from(a, b, nodes@, i as int));
}

/// Recursively extract `DocumentSymbol` entries from an AST node.
/// Named definitions (`fn`, `local`, `var`, `global`, `macro`) become symbols;
/// scoping forms (`let`, `do`, `if`, …) are walked for nested definitions.
fn doc_sym_from_node(
    node: &AstNode,
    text: &str,
    analysis: &AnalysisResult,
    out: &mut Vec<DocumentSymbol>,
)
    ensures
        doc_views(final(out)@) == doc_views(old(out)@) + node_symbols(
            analysis@,
            text.spec_bytes(),
            *node,
        ),
    decreases node, 0int,
{
    let ghost o = doc_views(out@);
    assert(o =~= o + Seq::<DocView>::empty());
    let forms = match &node.node {
        Form::List(v) => v,
        _ => {
            return ;
        },
    };
    let head = head_sym(forms);
    if function_head(&head) {
        if forms.len() < 2 {
            return ;
        }
        if let Form::Symbol(name) = &forms[1].node {
            let mut children: Vec<DocumentSymbol> = Vec::new();
            let ghost none = doc_views(children@);
            push_symbols(forms, 3, text, analysis, &mut children);
            assert(doc_views(children@) =~= symbols_from(analysis@, text.spec_bytes(), forms@, 3));
            push_named(
                text,
                analysis,
                node.span,
                name,
                forms[1].span,
                SymbolKind::Function,
                children,
                out,
            );
        } else {
            push_symbols(forms, 2, text, analysis, out);
        }
    } else if binding_head(&head) {
        if forms.len() < 3 {
            return ;
        }
        if let Form::Symbol(name) = &forms[1].node {
            let mut children: Vec<DocumentSymbol> = Vec::new();
            push_symbols(forms, 2, text, analysis, &mut children);
            assert(doc_views(children@) =~= symbols_from(analysis@, text.spec_bytes(), forms@, 2));
            push_named(
                text,
                analysis,
                node.span,
                name,
                forms[1].span,
                SymbolKind::Variable,
                children,
                out,
            );
        } else {
            doc_sym_from_node(&forms[2], text, analysis, out);
        }
    } else if passage_head(&head) {
        push_symbols(forms, 1, text, analysis, out);
    }
}

fn push_named(
    text: &str,
    analysis: &AnalysisResult,
    span: Span,
    name: &str,
    name_span: Span,
    otherwise: SymbolKind,
    children: Vec<DocumentSymbol>,
    out: &mut Vec<DocumentSymbol>,
)
    ensures
        doc_views(final(out)@) == doc_views(old(out)@) + seq![
            named_symbol(
                analysis@,
                text.spec_bytes(),
                span,
                name@,
                name_span,
                otherwise,
                doc_views(children@),
            ),
        ],
{
    let ghost o = doc_views(out@);
    let (detail, kind) = match analysis.defs.get(&name_span.start) {
        Some(d) => {
            assert(analysis@.defs[name_span.start] == d@);
            (definition_detail(d), def_kind_to_symbol_kind(&d.kind))
        },
        None => (None, otherwise),
    };
    let symbol = DocumentSymbol {
        name: name.to_owned(),
        detail,
        kind,
        range: span_to_range(text, &span),
        selection_range: span_to_range(text, &name_span),
        children,
    };
    out.push(symbol);
    assert(doc_views(out@) =~= o + seq![doc_view(symbol)]);
}

// ── Laws ────────────────────────────────────────────────────────────────────

/// No span is wider than one behind it.
pub open spec fn widening(s: Seq<Span>) -> bool {
    forall|i: int, j: int|
        0 <= i <= j < s.len() ==> span_width(#[trigger] s[i]) <= span_width(#[trigger] s[j])
}

proof fn insert_keeps_widening(s: Seq<Span>, x: Span)
    requires
        widening(s),
    ensures
        widening(insert_span(s, x)),
        insert_span(s, x).len() == s.len() + 1,
        span_width(insert_span(s, x).last()) == if s.len() > 0 && span_width(s.last())
            > span_width(x) {
            span_width(s.last())
        } else {
            span_width(x)
        },
    decreases s.len(),
{
    if s.len() > 0 && span_width(s.last()) > span_width(x) {
        let t = s.drop_last();
        insert_keeps_widening(t, x);
        let r = insert_span(t, x);
        if t.len() > 0 {
            assert(span_width(t.last()) <= span_width(s.last()));
        }
        assert forall|i: int, j: int| 0 <= i <= j < r.push(s.last()).len() implies span_width(
            #[trigger] r.push(s.last())[i],
        ) <= span_width(#[trigger] r.push(s.last())[j]) by {
            if i < r.len() {
                assert(span_width(r[i]) <= span_width(r.last()));
            }
        }
    } else {
        assert forall|i: int, j: int| 0 <= i <= j < s.push(x).len() implies span_width(
            #[trigger] s.push(x)[i],
        ) <= span_width(#[trigger] s.push(x)[j]) by {
            if i < s.len() {
                assert(span_width(s[i]) <= span_width(s.last()));
            }
        }
    }
}

proof fn by_width_widens(s: Seq<Span>)
    ensures
        widening(by_width(s)),
    decreases s.len(),
{
    if s.len() > 0 {
        by_width_widens(s.drop_last());
        insert_keeps_widening(by_width(s.drop_last()), s.last());
    }
}

proof fn without_repeats_widens(s: Seq<Span>)
    requires
        widening(s),
    ensures
        widening(without_repeats(s)),
        s.len() > 0 ==> without_repeats(s).len() > 0 && same_stretch(
            without_repeats(s).last(),
            s.last(),
        ),
        forall|i: int|
            0 < i < without_repeats(s).len() ==> !same_stretch(
                without_repeats(s)[i - 1],
                #[trigger] without_repeats(s)[i],
            ),
    decreases s.len(),
{
    if s.len() > 0 {
        let t = s.drop_last();
        without_repeats_widens(t);
        let r = without_repeats(t);
        if t.len() > 0 {
            assert(span_width(t.last()) <= span_width(s.last()));
        }
        assert forall|i: int, j: int| 0 <= i <= j < r.push(s.last()).len() implies span_width(
            #[trigger] r.push(s.last())[i],
        ) <= span_width(#[trigger] r.push(s.last())[j]) by {
            if i < r.len() {
                assert(span_width(r[i]) <= span_width(r.last()));
            }
        }
    }
}

/// A selection grows: each of its spans is at least as wide as the one before it,
/// and covers another stretch of the text.
pub proof fn selections_grow(ast: Seq<AstNode>, byte: u32)
    ensures
        widening(spans_around(ast, byte)),
        forall|i: int|
            0 < i < spans_around(ast, byte).len() ==> !same_stretch(
                spans_around(ast, byte)[i - 1],
                #[trigger] spans_around(ast, byte)[i],
            ),
{
    let s = spans_of(reached(Rule::Covering(byte), ast));
    by_width_widens(s);
    without_repeats_widens(by_width(s));
}

/// The first range reaches from before the start of the second to behind its end.
pub open spec fn range_holds(outer: Range, inner: Range) -> bool {
    not_behind(outer.start, inner.start) && not_behind(inner.end, outer.end)
}

/// The range of a symbol holds its name and the symbols inside it.
pub open spec fn holds_its_parts(d: DocView) -> bool
    decreases d, 0int,
{
    range_holds(d.range, d.selection_range) && all_hold_their_parts(d.children, d.range)
}

/// All the symbols lie in the range, and hold their parts.
pub open spec fn all_hold_their_parts(s: Seq<DocView>, outer: Range) -> bool
    decreases s, 1int,
{
    forall|i: int|
        0 <= i < s.len() ==> holds_its_parts(#[trigger] s[i]) && range_holds(outer, s[i].range)
}

proof fn inner_range_is_held(b: Seq<u8>, outer: Span, inner: Span)
    requires
        valid_utf8(b),
        b.len() <= u32::MAX,
        outer.start <= inner.start,
        inner.end <= outer.end,
    ensures
        range_holds(range_of(b, outer), range_of(b, inner)),
{
    positions_in_order(b, outer.start as int, inner.start as int);
    positions_in_order(b, inner.end as int, outer.end as int);
}

proof fn node_symbols_hold(a: AnalysisView, b: Seq<u8>, n: AstNode, outer: Span)
    requires
        valid_utf8(b),
        b.len() <= u32::MAX,
        placed(b, node_view(n)),
        outer.start <= n.span.start,
        n.span.end <= outer.end,
    ensures
        all_hold_their_parts(node_symbols(a, b, n), range_of(b, outer)),
    decreases n, 0int,
{
    if let Form::List(v) = n.node {
        let forms = v@;
        let w = node_views(forms);
        assert(node_view(n).node == FormView::List(w));
        assert(placed_all(b, w, n.span.start + 1, n.span.end as int));
        inner_range_is_held(b, outer, n.span);
        symbols_hold(a, b, forms, 1, outer);
        symbols_hold(a, b, forms, 2, outer);
        symbols_hold(a, b, forms, 2, n.span);
        symbols_hold(a, b, forms, 3, n.span);
        if forms.len() > 1 {
            assert(w[1] == node_view(forms[1]));
            inner_range_is_held(b, n.span, forms[1].span);
        }
        if forms.len() > 2 {
            assert(w[2] == node_view(forms[2]));
            node_symbols_hold(a, b, forms[2], outer);
        }
    }
}

proof fn symbols_hold(a: AnalysisView, b: Seq<u8>, s: Seq<AstNode>, i: int, outer: Span)
    requires
        valid_utf8(b),
        b.len() <= u32::MAX,
        forall|k: int|
            0 <= k < s.len() ==> placed(b, #[trigger] node_views(s)[k]) && outer.start
                <= node_views(s)[k].span.start && node_views(s)[k].span.end <= outer.end,
    ensures
        all_hold_their_parts(symbols_from(a, b, s, i), range_of(b, outer)),
    decreases s, s.len() - i,
{
    if 0 <= i < s.len() {
        assert(node_views(s)[i] == node_view(s[i]));
        node_symbols_hold(a, b, s[i], outer);
        symbols_hold(a, b, s, i + 1, outer);
    }
}

/// In the outline of a parsed text, the range of a symbol holds the range of its
/// name and the ranges of the symbols inside it.
pub proof fn symbols_hold_their_parts(a: AnalysisView, text: Seq<char>, ast: Seq<AstNode>)
    requires
        encode_utf8(text).len() <= u32::MAX,
        node_views(ast) == parse_source(text).0,
    ensures
        forall|i: int|
            0 <= i < symbols_from(a, encode_utf8(text), ast, 0).len() ==> holds_its_parts(
                #[trigger] symbols_from(a, encode_utf8(text), ast, 0)[i],
            ),
{
    let b = encode_utf8(text);
    let whole = Span {
        start: 0,
        end: u32::MAX,
        line: 0,
        col: 0,
        end_line: 0,
        end_col: 0,
    };
    encode_utf8_valid_utf8(text);
    parsed_nodes_are_placed(text);
    symbols_hold(a, b, ast, 0, whole);
}

} // verus!
