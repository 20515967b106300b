//! Calls: signature help, inlay hints and the call hierarchy.
use vstd::prelude::*;
use vstd::string::*;
use vstd::utf8::*;

use crate::analyzer::{
    opt_text, symbol_here, AnalysisResult, AnalysisView, DefKind, DefinitionInfo, DefinitionView,
    SymbolView,
};
use crate::lexer::Span;
use crate::parser::{head_name, head_sym, refs_are, AstNode, Form};
use crate::strings::{byte_len, join, joined, same, texts};
use crate::text::{
    byte_to_position, offset_of, position_of, position_to_byte, range_of, span_to_range, Position,
    Range,
};
use crate::walks::{reach, reach_node, reached, visited, Rule};
use crate::workspace::{
    cross_ref_views, dup_opt_text, dup_texts, lists, refs_from_files, uri_path, AnalyzedFile,
    CrossFileRef, CrossRefView, FileView, Workspace,
};

verus! {

// ── The call around a place ─────────────────────────────────────────────────

/// The first index from `i` on whose form does not end before the byte.
pub open spec fn first_open(forms: Seq<AstNode>, byte: u32, i: int) -> int
    decreases forms.len() - i,
{
    if 0 <= i < forms.len() && forms[i].span.end < byte {
        first_open(forms, byte, i + 1)
    } else {
        i
    }
}

/// A call with a symbol at its head: where the head starts, how many arguments
/// end before the byte, and how wide the call is.
pub open spec fn call_of(n: AstNode, byte: u32) -> Option<(u32, int, int)> {
    match n.node {
        Form::List(v) => if v@.len() > 0 && v@[0].node is Symbol {
            Some((v@[0].span.start, first_open(v@, byte, 1) - 1, n.span.end - n.span.start))
        } else {
            None
        },
        _ => None,
    }
}

/// The narrowest call among the first `k` of some nodes; of equals, the first.
pub open spec fn narrowest_call(nodes: Seq<AstNode>, byte: u32, k: int) -> Option<(u32, int, int)>
    decreases k,
{
    if 0 < k <= nodes.len() {
        let best = narrowest_call(nodes, byte, k - 1);
        match call_of(nodes[k - 1], byte) {
            Some(c) => match best {
                Some(x) if c.2 >= x.2 => best,
                _ => Some(c),
            },
            None => best,
        }
    } else {
        None
    }
}

/// The head and the active argument of the innermost call around a byte.
pub open spec fn call_around(ast: Seq<AstNode>, byte: u32) -> Option<(u32, int)> {
    let nodes = reached(Rule::Covering(byte), ast);
    match narrowest_call(nodes, byte, nodes.len() as int) {
        Some(c) => Some((c.0, c.1)),
        None => None,
    }
}

fn open_argument(forms: &Vec<AstNode>, byte: u32) -> (r: usize)
    requires
        forms@.len() > 0,
    ensures
        r == first_open(forms@, byte, 1) - 1,
{
    let mut i: usize = 1;
    while i < forms.len() && forms[i].span.end < byte
        invariant
            1 <= i <= forms@.len(),
            first_open(forms@, byte, i as int) == first_open(forms@, byte, 1),
        decreases forms@.len() - i,
    {
        i = i + 1;
    }
    i - 1
}

/// Return the byte offset of the head symbol and the 0-based active-parameter
/// index for the innermost function-call list that contains `byte`.
pub fn enclosing_call(ast: &[AstNode], byte: u32) -> (r: Option<(u32, usize)>)
    ensures
        match r {
            Some((head, arg)) => call_around(ast@, byte) == Some((head, arg as int)),
            None => call_around(ast@, byte) is None,
        },
{
    let nodes = reach(Rule::Covering(byte), ast);
    let ghost all = reached(Rule::Covering(byte), ast@);
    let mut best: Option<(u32, usize, i64)> = None;
    let mut k: usize = 0;
    while k < nodes.len()
        invariant
            k <= nodes@.len(),
            refs_are(nodes@, all),
            match best {
                Some((h, a, w)) => narrowest_call(all, byte, k as int) == Some(
                    (h, a as int, w as int),
                ),
                None => narrowest_call(all, byte, k as int) is None,
            },
        decreases nodes@.len() - k,
    {
        let n = nodes[k];
        assert(*n == all[k as int]);
        if let Form::List(forms) = &n.node {
            if forms.len() > 0 {
                if let Form::Symbol(_) = &forms[0].node {
                    let width: i64 = n.span.end as i64 - n.span.start as i64;
                    let better = match best {
                        Some((_, _, w)) => width < w,
                        None => true,
                    };
                    if better {
                        best = Some((forms[0].span.start, open_argument(forms, byte), width));
                    }
                }
            }
        }
        k = k + 1;
    }
    match best {
        Some((h, a, _)) => Some((h, a)),
        None => None,
    }
}

// ── Signature help ──────────────────────────────────────────────────────────

/// The signature of the function that is being called.
#[derive(Debug)]
pub struct SignatureHelp {
    pub label: String,
    pub documentation: Option<String>,
    pub parameters: Vec<String>,
    pub active_parameter: u32,
}

#[verifier::ext_equal]
pub ghost struct SignatureView {
    pub label: Seq<char>,
    pub documentation: Option<Seq<char>>,
    pub parameters: Seq<Seq<char>>,
    pub active_parameter: u32,
}

impl View for SignatureHelp {
    type V = SignatureView;

    open spec fn view(&self) -> SignatureView {
        SignatureView {
            label: self.label@,
            documentation: opt_text(self.documentation),
            parameters: texts(self.parameters@),
            active_parameter: self.active_parameter,
        }
    }
}

/// The definition that a symbol stands for.
pub open spec fn referent(a: AnalysisView, sym: SymbolView) -> Option<DefinitionView> {
    match sym.def_byte {
        Some(d) => if a.defs.dom().contains(d) {
            Some(a.defs[d])
        } else {
            None
        },
        None => None,
    }
}

/// The byte of a position, as offsets of an analysis are counted.
pub open spec fn byte_of(text: Seq<char>, pos: Position) -> Option<u32> {
    match offset_of(text, pos) {
        Some(b) => Some(b as u32),
        None => None,
    }
}

/// The byte of a position.
pub fn byte_at_position(text: &str, pos: Position) -> (r: Option<u32>)
    ensures
        r == byte_of(text@, pos),
{
    match position_to_byte(text, pos) {
        Some(b) => Some(b as u32),
        None => None,
    }
}

/// The definition at the head of a call.
pub open spec fn called_def(a: AnalysisView, head: u32) -> Option<DefinitionView> {
    match symbol_here(a, head) {
        Some(sym) => referent(a, sym),
        None => None,
    }
}

fn called_definition(analysis: &AnalysisResult, head: u32) -> (r: Option<&DefinitionInfo>)
    ensures
        match r {
            Some(d) => called_def(analysis@, head) == Some(d@),
            None => called_def(analysis@, head) is None,
        },
{
    match analysis.symbol_at(head) {
        Some(sym) => match sym.def_byte {
            Some(d) => analysis.defs.get(&d),
            None => None,
        },
        None => None,
    }
}

/// The signature help at a position: that of the innermost call around it, where
/// the parameters of what it calls are known.
pub open spec fn signature_at(f: FileView, pos: Position) -> Option<SignatureView> {
    match byte_of(f.text, pos) {
        None => None,
        Some(byte) => match call_around(f.ast, byte) {
            None => None,
            Some((head, arg)) => match called_def(f.analysis, head) {
                None => None,
                Some(d) => match d.params {
                    None => None,
                    Some(params) => Some(
                        SignatureView {
                            label: "("@ + d.name + " "@ + joined(
                                params,
                                " "@,
                                params.len() as int,
                            ) + ")"@,
                            documentation: d.doc,
                            parameters: params,
                            active_parameter: if params.len() == 0 {
                                0
                            } else if arg < params.len() {
                                arg as u32
                            } else {
                                (params.len() - 1) as u32
                            },
                        },
                    ),
                },
            },
        },
    }
}

pub fn signature_help(file: &AnalyzedFile, pos: Position) -> (r: Option<SignatureHelp>)
    ensures
        match r {
            Some(h) => signature_at(file@, pos) == Some(h@),
            None => signature_at(file@, pos) is None,
        },
{
    let byte = match byte_at_position(&file.text, pos) {
        Some(b) => b,
        None => {
            return None;
        },
    };
    let (head, arg) = match enclosing_call(&file.ast, byte) {
        Some(c) => c,
        None => {
            return None;
        },
    };
    let def = match called_definition(&file.analysis, head) {
        Some(d) => d,
        None => {
            return None;
        },
    };
    match &def.params {
        Some(params) => {
            let mut label = "(".to_owned();
            label.append(&def.name);
            label.append(" ");
            label.append(&join(params, " "));
            label.append(")");
            let n = params.len();
            let active: usize = if n == 0 {
                0
            } else if arg < n {
                arg
            } else {
                n - 1
            };
            Some(
                SignatureHelp {
                    label,
                    documentation: dup_opt_text(&def.doc),
                    parameters: dup_texts(params),
                    active_parameter: active as u32,
                },
            )
        },
        None => None,
    }
}

// ── Inlay hints ─────────────────────────────────────────────────────────────

/// The name of a parameter, shown before its argument.
#[derive(Debug)]
pub struct InlayHint {
    pub position: Position,
    pub label: String,
}

#[verifier::ext_equal]
pub ghost struct HintView {
    pub position: Position,
    pub label: Seq<char>,
}

impl View for InlayHint {
    type V = HintView;

    open spec fn view(&self) -> HintView {
        HintView { position: self.position, label: self.label@ }
    }
}

pub open spec fn hint_views(s: Seq<InlayHint>) -> Seq<HintView> {
    Seq::new(s.len(), |i: int| s[i]@)
}

/// Underscore parameters are not shown.
pub open spec fn is_shown(param: Seq<char>) -> bool {
    !(param.len() > 0 && (param[0] == '&' || param[0] == '_'))
}

/// How many parameters of a function may be shown: those before its rest parameter.
pub open spec fn before_rest(a: AnalysisView, d: DefinitionView, n: int) -> int {
    if a.rest_params.dom().contains(d.span.start) {
        smaller(n, a.rest_params[d.span.start] as int)
    } else {
        n
    }
}

/// The hints for the first `k` arguments of a call.
pub open spec fn argument_hints(
    forms: Seq<AstNode>,
    params: Seq<Seq<char>>,
    b: Seq<u8>,
    k: int,
) -> Seq<HintView>
    decreases k,
{
    if 0 < k < forms.len() && k <= params.len() {
        let before = argument_hints(forms, params, b, k - 1);
        if is_shown(params[k - 1]) {
            before.push(
                HintView {
                    position: position_of(b, forms[k].span.start as int),
                    label: params[k - 1] + ":"@,
                },
            )
        } else {
            before
        }
    } else {
        Seq::empty()
    }
}

pub open spec fn smaller(a: int, b: int) -> int {
    if a <= b {
        a
    } else {
        b
    }
}

/// The hints of a node: one for each argument of a call whose parameters are known.
pub open spec fn hints_of(a: AnalysisView, n: AstNode, b: Seq<u8>) -> Seq<HintView> {
    match n.node {
        Form::List(v) => if v@.len() > 0 {
            match called_def(a, v@[0].span.start) {
                Some(d) => match d.params {
                    Some(params) => argument_hints(
                        v@,
                        params,
                        b,
                        smaller(v@.len() - 1, before_rest(a, d, params.len() as int)),
                    ),
                    None => Seq::empty(),
                },
                None => Seq::empty(),
            }
        } else {
            Seq::empty()
        },
        _ => Seq::empty(),
    }
}

/// The hints of the first `k` of some nodes.
pub open spec fn all_hints(a: AnalysisView, nodes: Seq<AstNode>, b: Seq<u8>, k: int) -> Seq<HintView>
    decreases k,
{
    if 0 < k <= nodes.len() {
        all_hints(a, nodes, b, k - 1) + hints_of(a, nodes[k - 1], b)
    } else {
        Seq::empty()
    }
}

fn push_argument_hints(
    forms: &Vec<AstNode>,
    params: &Vec<String>,
    count: usize,
    text: &str,
    out: &mut Vec<InlayHint>,
)
    requires
        forms@.len() > 0,
        count <= params@.len(),
    ensures
        hint_views(final(out)@) == hint_views(old(out)@) + argument_hints(
            forms@,
            texts(params@),
            text.spec_bytes(),
            smaller(forms@.len() - 1, count as int),
        ),
{
    let ghost b = text.spec_bytes();
    let ghost p = texts(params@);
    let ghost o = hint_views(out@);
    assert(o =~= o + argument_hints(forms@, p, b, 0));
    let mut k: usize = 0;
    while k < forms.len() - 1 && k < count
        invariant
            k < forms@.len(),
            k <= count <= params@.len(),
            b == text.spec_bytes(),
            p == texts(params@),
            hint_views(out@) == o + argument_hints(forms@, p, b, k as int),
        decreases forms@.len() - k,
    {
        let ghost before = argument_hints(forms@, p, b, k as int);
        let param = &params[k];
        assert(p[k as int] == param@);
        if !(crate::strings::starts_with_char(param, '&') || crate::strings::starts_with_char(
            param,
            '_',
        )) {
            let mut label = param.clone();
            label.append(":");
            let hint = InlayHint {
                position: byte_to_position(text, forms[k + 1].span.start as usize),
                label,
            };
            let ghost so_far = hint_views(out@);
            out.push(hint);
            assert(hint_views(out@) =~= so_far.push(hint@));
            assert(so_far.push(hint@) =~= o + before.push(hint@));
        }
        k = k + 1;
    }
}

/// Walk the AST and emit an inlay hint for each argument of every call to a
/// locally-defined function whose params are known.
pub fn collect_inlay_hints(
    node: &AstNode,
    text: &str,
    analysis: &AnalysisResult,
    out: &mut Vec<InlayHint>,
)
    ensures
        hint_views(final(out)@) == hint_views(old(out)@) + all_hints(
            analysis@,
            visited(Rule::All, *node),
            text.spec_bytes(),
            visited(Rule::All, *node).len() as int,
        ),
{
    let nodes = reach_node(Rule::All, node);
    push_hints(&nodes, text, analysis, out, Ghost(visited(Rule::All, *node)));
}

/// The inlay hints of a file.
pub fn inlay_hints(file: &AnalyzedFile) -> (r: Vec<InlayHint>)
    ensures
        hint_views(r@) == all_hints(
            file@.analysis,
            reached(Rule::All, file@.ast),
            encode_utf8(file@.text),
            reached(Rule::All, file@.ast).len() as int,
        ),
{
    let nodes = reach(Rule::All, &file.ast);
    let mut out: Vec<InlayHint> = Vec::new();
    push_hints(&nodes, &file.text, &file.analysis, &mut out, Ghost(reached(Rule::All, file@.ast)));
    assert(hint_views(out@) =~= all_hints(
        file@.analysis,
        reached(Rule::All, file@.ast),
        encode_utf8(file@.text),
        reached(Rule::All, file@.ast).len() as int,
    ));
    out
}

fn push_hints(
    nodes: &Vec<&AstNode>,
    text: &str,
    analysis: &AnalysisResult,
    out: &mut Vec<InlayHint>,
    all: Ghost<Seq<AstNode>>,
)
    requires
        refs_are(nodes@, all@),
    ensures
        hint_views(final(out)@) == hint_views(old(out)@) + all_hints(
            analysis@,
            all@,
            text.spec_bytes(),
            all@.len() as int,
        ),
{
    let ghost b = text.spec_bytes();
    let ghost o = hint_views(out@);
    assert(o =~= o + all_hints(analysis@, all@, b, 0));
    let mut k: usize = 0;
    while k < nodes.len()
        invariant
            k <= nodes@.len(),
            refs_are(nodes@, all@),
            b == text.spec_bytes(),
            hint_views(out@) == o + all_hints(analysis@, all@, b, k as int),
        decreases nodes@.len() - k,
    {
        let n = nodes[k];
        assert(*n == all@[k as int]);
        let ghost before = hint_views(out@);
        if let Form::List(forms) = &n.node {
            if forms.len() > 0 {
                if let Some(def) = called_definition(analysis, forms[0].span.start) {
                    if let Some(params) = &def.params {
                        let mut count: usize = params.len();
                        if let Some(rest) = analysis.rest_params.get(&def.span.start) {
                            if *rest < count {
                                count = *rest;
                            }
                        }
                        push_argument_hints(forms, params, count, text, out);
                    }
                }
            }
        }
        assert(hint_views(out@) =~= before + hints_of(analysis@, all@[k as int], b));
        assert(before + hints_of(analysis@, all@[k as int], b) =~= o + all_hints(
            analysis@,
            all@,
            b,
            k + 1,
        ));
        k = k + 1;
    }
}

// ── Functions around a place ────────────────────────────────────────────────

pub open spec fn opens_function(head: Option<Seq<char>>) -> bool {
    head == Some("fn"@) || head == Some("lambda"@) || head == Some("λ"@)
}

fn function_at_head(forms: &Vec<AstNode>) -> (r: bool)
    ensures
        r == opens_function(head_name(forms@)),
{
    match head_sym(forms) {
        Some(h) => same(h, "fn") || same(h, "lambda") || same(h, "λ"),
        None => false,
    }
}

/// A function form whose second form starts at the byte.
pub open spec fn names_function_at(n: AstNode, byte: u32) -> bool {
    match n.node {
        Form::List(v) => opens_function(head_name(v@)) && v@.len() > 1 && v@[1].span.start == byte,
        _ => false,
    }
}

/// The first function form, from index `i` on, whose name starts at the byte.
pub open spec fn function_form_at(nodes: Seq<AstNode>, byte: u32, i: int) -> Option<Span>
    decreases nodes.len() - i,
{
    if !(0 <= i < nodes.len()) {
        None
    } else if names_function_at(nodes[i], byte) {
        Some(nodes[i].span)
    } else {
        function_form_at(nodes, byte, i + 1)
    }
}

/// Walk the AST to find the span of the `(fn name ...)` form whose name node
/// starts at `def_byte`. Returns the whole-form span, not just the name span.
pub fn fn_form_span(ast: &[AstNode], def_byte: u32) -> (r: Option<Span>)
    ensures
        r == function_form_at(reached(Rule::All, ast@), def_byte, 0),
{
    let nodes = reach(Rule::All, ast);
    let ghost all = reached(Rule::All, ast@);
    let mut i: usize = 0;
    while i < nodes.len()
        invariant
            i <= nodes@.len(),
            refs_are(nodes@, all),
            all == reached(Rule::All, ast@),
            function_form_at(all, def_byte, i as int) == function_form_at(all, def_byte, 0),
        decreases nodes@.len() - i,
    {
        let n = nodes[i];
        assert(*n == all[i as int]);
        if let Form::List(forms) = &n.node {
            if function_at_head(forms) && forms.len() > 1 && forms[1].span.start == def_byte {
                return Some(n.span);
            }
        }
        i = i + 1;
    }
    None
}

/// A function form with a name: where the name starts, and where the form starts.
pub open spec fn named_function(n: AstNode) -> Option<(u32, u32)> {
    match n.node {
        Form::List(v) => if opens_function(head_name(v@)) && v@.len() > 1 && v@[1].node is Symbol {
            Some((v@[1].span.start, n.span.start))
        } else {
            None
        },
        _ => None,
    }
}

/// The named function among the first `k` of some nodes that starts last; of
/// equals, the first.
pub open spec fn last_function(nodes: Seq<AstNode>, k: int) -> Option<(u32, u32)>
    decreases k,
{
    if 0 < k <= nodes.len() {
        let best = last_function(nodes, k - 1);
        match named_function(nodes[k - 1]) {
            Some(f) => match best {
                Some(x) if f.1 <= x.1 => best,
                _ => Some(f),
            },
            None => best,
        }
    } else {
        None
    }
}

/// The definition of the innermost named function around a byte.
pub open spec fn function_around(a: AnalysisView, ast: Seq<AstNode>, byte: u32) -> Option<
    DefinitionView,
> {
    let nodes = reached(Rule::Covering(byte), ast);
    match last_function(nodes, nodes.len() as int) {
        Some((name_byte, _)) => if a.defs.dom().contains(name_byte) {
            Some(a.defs[name_byte])
        } else {
            None
        },
        None => None,
    }
}

/// Walk the AST to find the innermost `(fn name ...)` form whose span contains
/// `ref_byte`, then return the corresponding `DefinitionInfo`.
pub fn enclosing_fn_def<'a>(analysis: &'a AnalysisResult, ast: &[AstNode], ref_byte: u32) -> (r:
    Option<&'a DefinitionInfo>)
    ensures
        match r {
            Some(d) => function_around(analysis@, ast@, ref_byte) == Some(d@),
            None => function_around(analysis@, ast@, ref_byte) is None,
        },
{
    let nodes = reach(Rule::Covering(ref_byte), ast);
    let ghost all = reached(Rule::Covering(ref_byte), ast@);
    let mut best: Option<(u32, u32)> = None;
    let mut k: usize = 0;
    while k < nodes.len()
        invariant
            k <= nodes@.len(),
            refs_are(nodes@, all),
            best == last_function(all, k as int),
        decreases nodes@.len() - k,
    {
        let n = nodes[k];
        assert(*n == all[k as int]);
        if let Form::List(forms) = &n.node {
            if function_at_head(forms) && forms.len() > 1 {
                if let Form::Symbol(_) = &forms[1].node {
                    let later = match best {
                        Some((_, start)) => n.span.start > start,
                        None => true,
                    };
                    if later {
                        best = Some((forms[1].span.start, n.span.start));
                    }
                }
            }
        }
        k = k + 1;
    }
    match best {
        Some((name_byte, _)) => analysis.defs.get(&name_byte),
        None => None,
    }
}

// ── Call hierarchy ──────────────────────────────────────────────────────────

/// A function in the call hierarchy.
#[derive(Debug)]
pub struct CallHierarchyItem {
    pub name: String,
    pub detail: Option<String>,
    pub uri: String,
    pub range: Range,
    pub selection_range: Range,
}

#[verifier::ext_equal]
pub ghost struct ItemView {
    pub name: Seq<char>,
    pub detail: Option<Seq<char>>,
    pub uri: Seq<char>,
    pub range: Range,
    pub selection_range: Range,
}

impl View for CallHierarchyItem {
    type V = ItemView;

    open spec fn view(&self) -> ItemView {
        ItemView {
            name: self.name@,
            detail: opt_text(self.detail),
            uri: self.uri@,
            range: self.range,
            selection_range: self.selection_range,
        }
    }
}

/// A function that calls, or is called, and the places of the calls.
#[derive(Debug)]
pub struct HierarchyCall {
    pub item: CallHierarchyItem,
    pub from_ranges: Vec<Range>,
}

#[verifier::ext_equal]
pub ghost struct CallView {
    pub item: ItemView,
    pub from_ranges: Seq<Range>,
}

impl View for HierarchyCall {
    type V = CallView;

    open spec fn view(&self) -> CallView {
        CallView { item: self.item@, from_ranges: self.from_ranges@ }
    }
}

pub open spec fn call_edge_views(s: Seq<HierarchyCall>) -> Seq<CallView> {
    Seq::new(s.len(), |i: int| s[i]@)
}

/// An item of the hierarchy has the name and, where one is given, the URI.
pub open spec fn is_item(x: ItemView, name: Seq<char>, uri: Option<Seq<char>>) -> bool {
    x.name == name && (uri matches Some(u) ==> x.uri == u)
}

/// The index of the first call of a function with the name and, where one is given,
/// the URI, from index `i` on, or the length.
pub open spec fn call_index(
    s: Seq<CallView>,
    name: Seq<char>,
    uri: Option<Seq<char>>,
    i: int,
) -> int
    decreases s.len() - i,
{
    if 0 <= i < s.len() && !is_item(s[i].item, name, uri) {
        call_index(s, name, uri, i + 1)
    } else {
        i
    }
}

/// The calls with one more: it joins the one at index `i`, or comes last.
pub open spec fn with_call_at(s: Seq<CallView>, i: int, item: ItemView, range: Range) -> Seq<
    CallView,
> {
    if i < s.len() {
        s.update(i, CallView { item: s[i].item, from_ranges: s[i].from_ranges.push(range) })
    } else {
        s.push(CallView { item, from_ranges: seq![range] })
    }
}

/// The calls with one more: it joins those of a function with its name in its file.
pub open spec fn with_call(s: Seq<CallView>, item: ItemView, range: Range) -> Seq<CallView> {
    with_call_at(s, call_index(s, item.name, Some(item.uri), 0), item, range)
}

/// The calls with one more: it joins those of a function with its name.
pub open spec fn with_named_call(s: Seq<CallView>, item: ItemView, range: Range) -> Seq<CallView> {
    with_call_at(s, call_index(s, item.name, None, 0), item, range)
}

/// Adds a call to those of the first function with its name and, where that counts,
/// its URI.
fn add_call(out: &mut Vec<HierarchyCall>, item: CallHierarchyItem, range: Range, by_name: bool)
    ensures
        call_edge_views(final(out)@) == (if by_name {
            with_named_call(call_edge_views(old(out)@), item@, range)
        } else {
            with_call(call_edge_views(old(out)@), item@, range)
        }),
{
    let ghost s = call_edge_views(out@);
    let ghost uri = if by_name {
        None
    } else {
        Some(item@.uri)
    };
    let mut i: usize = 0;
    while i < out.len() && !(same(&out[i].item.name, &item.name) && (by_name || same(
        &out[i].item.uri,
        &item.uri,
    )))
        invariant
            i <= out@.len(),
            out@ == old(out)@,
            s == call_edge_views(out@),
            uri == (if by_name {
                None
            } else {
                Some(item@.uri)
            }),
            call_index(s, item@.name, uri, i as int) == call_index(s, item@.name, uri, 0),
        decreases out@.len() - i,
    {
        assert(s[i as int] == out@[i as int]@);
        i = i + 1;
    }
    if i < out.len() {
        assert(s[i as int] == out@[i as int]@);
        let call = out.remove(i);
        let mut from_ranges = call.from_ranges;
        from_ranges.push(range);
        let joined_call = HierarchyCall { item: call.item, from_ranges };
        out.insert(i, joined_call);
        assert(out@ =~= old(out)@.update(i as int, joined_call));
        assert(joined_call@ == (CallView {
            item: s[i as int].item,
            from_ranges: s[i as int].from_ranges.push(range),
        }));
    } else {
        let from_ranges = vec![range];
        assert(from_ranges@ =~= seq![range]);
        out.push(HierarchyCall { item, from_ranges });
    }
    assert(call_edge_views(out@) =~= with_call_at(
        s,
        call_index(s, item@.name, uri, 0),
        item@,
        range,
    ));
}

/// The range of a name that starts at a byte.
pub open spec fn name_range(b: Seq<u8>, byte: u32, name: Seq<char>) -> Range {
    Range {
        start: position_of(b, byte as int),
        end: position_of(b, byte + encode_utf8(name).len()),
    }
}

fn range_of_name(text: &str, byte: u32, name: &str) -> (r: Range)
    ensures
        r == name_range(text.spec_bytes(), byte, name@),
{
    let start = byte as usize;
    let len = byte_len(name);
    let n = byte_len(text);
    let end: usize = if start <= n && len <= n - start {
        start + len
    } else {
        n
    };
    assert(position_of(text.spec_bytes(), end as int) == position_of(
        text.spec_bytes(),
        byte + encode_utf8(name@).len(),
    ));
    Range { start: byte_to_position(text, start), end: byte_to_position(text, end) }
}

/// A function as an item of the hierarchy.
pub open spec fn item_of(d: DefinitionView, b: Seq<u8>, uri: Seq<char>, byte: u32) -> ItemView {
    ItemView {
        name: d.name,
        detail: None,
        uri,
        range: range_of(b, d.span),
        selection_range: name_range(b, byte, d.name),
    }
}

fn function_item(d: &DefinitionInfo, text: &str, uri: &str, byte: u32) -> (r: CallHierarchyItem)
    ensures
        r@ == item_of(d@, text.spec_bytes(), uri@, byte),
{
    CallHierarchyItem {
        name: d.name.clone(),
        detail: None,
        uri: uri.to_owned(),
        range: span_to_range(text, &d.span),
        selection_range: range_of_name(text, byte, &d.name),
    }
}

/// The byte of the definition that a symbol makes or stands for.
pub open spec fn target_byte(sym: SymbolView) -> Option<u32> {
    if sym.is_def {
        Some(sym.span.start)
    } else {
        sym.def_byte
    }
}

/// The function at a position, as an item of the hierarchy.
pub open spec fn prepared_item(f: FileView, pos: Position) -> Option<ItemView> {
    match byte_of(f.text, pos) {
        None => None,
        Some(byte) => match symbol_here(f.analysis, byte) {
            None => None,
            Some(sym) => match target_byte(sym) {
                None => None,
                Some(d) => if f.analysis.defs.dom().contains(d) && f.analysis.defs[d].kind
                    == DefKind::Fn {
                    let def = f.analysis.defs[d];
                    Some(
                        ItemView {
                            detail: match def.params {
                                Some(p) => Some(
                                    "["@ + joined(p, " "@, p.len() as int) + "]"@,
                                ),
                                None => None,
                            },
                            ..item_of(def, encode_utf8(f.text), f.uri, d)
                        },
                    )
                } else {
                    None
                },
            },
        },
    }
}

pub fn prepare_call_hierarchy(file: &AnalyzedFile, pos: Position) -> (r: Option<CallHierarchyItem>)
    ensures
        match r {
            Some(item) => prepared_item(file@, pos) == Some(item@),
            None => prepared_item(file@, pos) is None,
        },
{
    let byte = match byte_at_position(&file.text, pos) {
        Some(b) => b,
        None => {
            return None;
        },
    };
    let target: Option<u32> = match file.analysis.symbol_at(byte) {
        Some(sym) => if sym.is_def {
            Some(sym.span.start)
        } else {
            sym.def_byte
        },
        None => {
            return None;
        },
    };
    let d = match target {
        Some(d) => d,
        None => {
            return None;
        },
    };
    match file.analysis.defs.get(&d) {
        Some(def) => {
            assert(file@.analysis.defs[d] == def@);
            if def.kind != DefKind::Fn {
                return None;
            }
            let mut item = function_item(def, &file.text, &file.uri, d);
            item.detail = match &def.params {
                Some(p) => {
                    let mut t = "[".to_owned();
                    t.append(&join(p, " "));
                    t.append("]");
                    Some(t)
                },
                None => None,
            };
            Some(item)
        },
        None => None,
    }
}

/// The calls of a function from its own file, by the first `k` symbols. Calls
/// from outside any named function, and from the function itself, are left out.
pub open spec fn calls_in_file(f: FileView, def_byte: u32, uri: Seq<char>, s: Seq<CallView>, k: int) -> Seq<
    CallView,
>
    decreases k,
{
    if 0 < k <= f.analysis.syms.len() {
        let before = calls_in_file(f, def_byte, uri, s, k - 1);
        let sym = f.analysis.syms[k - 1];
        let b = encode_utf8(f.text);
        if sym.is_def || sym.def_byte != Some(def_byte) {
            before
        } else {
            match function_around(f.analysis, f.ast, sym.span.start) {
                Some(d) => if d.span.start == def_byte {
                    before
                } else {
                    with_call(before, item_of(d, b, uri, d.span.start), range_of(b, sym.span))
                },
                None => before,
            }
        }
    } else {
        s
    }
}

/// Collect the calls from same-file references to the definition at `def_byte`
/// in `file`.
pub fn collect_incoming(
    file: &AnalyzedFile,
    def_byte: u32,
    def_uri: &str,
    out: &mut Vec<HierarchyCall>,
)
    ensures
        call_edge_views(final(out)@) == calls_in_file(
            file@,
            def_byte,
            def_uri@,
            call_edge_views(old(out)@),
            file@.analysis.syms.len() as int,
        ),
{
    let ghost s = call_edge_views(out@);
    let ghost f = file@;
    let mut k: usize = 0;
    while k < file.analysis.syms.len()
        invariant
            k <= file.analysis.syms@.len(),
            f == file@,
            call_edge_views(out@) == calls_in_file(f, def_byte, def_uri@, s, k as int),
        decreases file.analysis.syms@.len() - k,
    {
        let sym = &file.analysis.syms[k];
        assert(f.analysis.syms[k as int] == sym@);
        let refers = match sym.def_byte {
            Some(d) => d == def_byte,
            None => false,
        };
        if !sym.is_def && refers {
            if let Some(d) = enclosing_fn_def(&file.analysis, &file.ast, sym.span.start) {
                if d.span.start != def_byte {
                    let item = function_item(d, &file.text, def_uri, d.span.start);
                    add_call(out, item, span_to_range(&file.text, &sym.span), false);
                }
            }
        }
        k = k + 1;
    }
}

/// The function around a reference from another file, and the range of the reference.
pub open spec fn caller_at(f: FileView, span: Span) -> Option<(ItemView, Range)> {
    let b = encode_utf8(f.text);
    match function_around(f.analysis, f.ast, span.start) {
        Some(d) => Some((item_of(d, b, f.uri, d.span.start), range_of(b, span))),
        None => None,
    }
}

fn caller_of(file: &AnalyzedFile, span: Span) -> (r: Option<(CallHierarchyItem, Range)>)
    ensures
        match r {
            Some((item, range)) => caller_at(file@, span) == Some((item@, range)),
            None => caller_at(file@, span) is None,
        },
{
    match enclosing_fn_def(&file.analysis, &file.ast, span.start) {
        Some(d) => Some(
            (
                function_item(d, &file.text, &file.uri, d.span.start),
                span_to_range(&file.text, &span),
            ),
        ),
        None => None,
    }
}

/// The calls with those of the first `k` references from other files.
pub open spec fn with_cross_calls(
    s: Seq<CallView>,
    files: Map<Seq<char>, AnalyzedFile>,
    refs: Seq<CrossRefView>,
    k: int,
) -> Seq<CallView>
    decreases k,
{
    if 0 < k <= refs.len() {
        let before = with_cross_calls(s, files, refs, k - 1);
        let x = refs[k - 1];
        if files.dom().contains(x.uri) {
            match caller_at(files[x.uri]@, x.span) {
                Some((item, range)) => with_call(before, item, range),
                None => before,
            }
        } else {
            before
        }
    } else {
        s
    }
}

/// The byte of the definition that an item of the hierarchy names, where its file
/// is open.
pub open spec fn item_byte(files: Map<Seq<char>, AnalyzedFile>, uri: Seq<char>, start: Position) -> Option<
    u32,
> {
    if files.dom().contains(uri) {
        byte_of(files[uri]@.text, start)
    } else {
        None
    }
}

/// The calls of a function, from its own file and then from all open files, in
/// any order of the files. `start` is where the name of the function starts.
/// None where there is no call, or the place of the function is not to be found.
pub fn incoming_calls(ws: &Workspace, uri: &str, name: &str, start: Position) -> (r: Option<
    Vec<HierarchyCall>,
>)
    ensures
        match item_byte(ws.open_files(), uri@, start) {
            None => r is None,
            Some(def_byte) => exists|order: Seq<Seq<char>>| #[trigger]
                lists(order, ws.open_files().dom()) && ({
                    let f = ws.open_files()[uri@]@;
                    let own = calls_in_file(
                        f,
                        def_byte,
                        uri@,
                        Seq::empty(),
                        f.analysis.syms.len() as int,
                    );
                    let refs = refs_from_files(
                        ws.open_files(),
                        order,
                        uri_path(uri@),
                        name@,
                        order.len() as int,
                    );
                    let all = with_cross_calls(own, ws.open_files(), refs, refs.len() as int);
                    match r {
                        Some(calls) => calls@.len() > 0 && call_edge_views(calls@) == all,
                        None => all.len() == 0,
                    }
                }),
        },
{
    let ghost files = ws.open_files();
    let find = |f: &AnalyzedFile| -> (b: Option<u32>)
        ensures
            b == byte_of(f@.text, start),
    {
        byte_at_position(&f.text, start)
    };
    let def_byte = match ws.with_file(uri, find) {
        Some(Some(b)) => b,
        _ => {
            return None;
        },
    };
    let own_calls = |f: &AnalyzedFile| -> (v: Calls)
        ensures
            call_edge_views(v@) == calls_in_file(
                f@,
                def_byte,
                uri@,
                Seq::empty(),
                f@.analysis.syms.len() as int,
            ),
    {
        let mut v: Calls = Vec::new();
        assert(call_edge_views(v@) =~= Seq::<CallView>::empty());
        collect_incoming(f, def_byte, uri, &mut v);
        v
    };
    let mut out: Calls = match ws.with_file(uri, own_calls) {
        Some(v) => v,
        None => Vec::new(),
    };
    let ghost own = call_edge_views(out@);
    let cross = ws.cross_file_refs_of(uri, name);
    let ghost refs = cross_ref_views(cross@);
    let mut k: usize = 0;
    while k < cross.len()
        invariant
            k <= cross@.len(),
            files == ws.open_files(),
            refs == cross_ref_views(cross@),
            call_edge_views(out@) == with_cross_calls(own, files, refs, k as int),
        decreases cross@.len() - k,
    {
        let x: &CrossFileRef = &cross[k];
        assert(refs[k as int] == x@);
        let span = x.span;
        let call = |f: &AnalyzedFile| -> (c: Option<(CallHierarchyItem, Range)>)
            ensures
                match c {
                    Some((item, range)) => caller_at(f@, span) == Some((item@, range)),
                    None => caller_at(f@, span) is None,
                },
        {
            caller_of(f, span)
        };
        if let Some(Some((item, range))) = ws.with_file(&x.uri, call) {
            add_call(&mut out, item, range, false);
        }
        k = k + 1;
    }
    if out.len() == 0 {
        None
    } else {
        Some(out)
    }
}

pub type Calls = Vec<HierarchyCall>;

/// The function that a list inside the form `own` calls, where it is another
/// function than one that starts there; with the byte of its definition and the head.
pub open spec fn called_function(a: AnalysisView, n: AstNode, own: Span) -> Option<
    (DefinitionView, u32, Span),
> {
    match n.node {
        Form::List(v) => if own.start <= n.span.start && n.span.end <= own.end && v@.len() > 0
            && v@[0].node is Symbol && a.refs.dom().contains(v@[0].span.start) {
            let d = a.refs[v@[0].span.start];
            if a.defs.dom().contains(d) && a.defs[d].kind == DefKind::Fn && a.defs[d].span.start
                != own.start {
                Some((a.defs[d], d, v@[0].span))
            } else {
                None
            }
        } else {
            None
        },
        _ => None,
    }
}

/// The calls with those of the first `k` of some nodes.
pub open spec fn with_calls_of(
    a: AnalysisView,
    nodes: Seq<AstNode>,
    own: Span,
    b: Seq<u8>,
    uri: Seq<char>,
    s: Seq<CallView>,
    k: int,
) -> Seq<CallView>
    decreases k,
{
    if 0 < k <= nodes.len() {
        let before = with_calls_of(a, nodes, own, b, uri, s, k - 1);
        match called_function(a, nodes[k - 1], own) {
            Some((d, byte, head)) => with_named_call(
                before,
                item_of(d, b, uri, byte),
                range_of(b, head),
            ),
            None => before,
        }
    } else {
        s
    }
}

/// Walk the AST within `fn_span`, collecting outgoing calls to known `Fn`-kind
/// definitions. Deduplicates by callee name.
pub fn collect_outgoing(
    node: &AstNode,
    fn_span: &Span,
    analysis: &AnalysisResult,
    text: &str,
    caller_uri: &str,
    out: &mut Vec<HierarchyCall>,
)
    ensures
        call_edge_views(final(out)@) == with_calls_of(
            analysis@,
            visited(Rule::Touching(*fn_span), *node),
            *fn_span,
            text.spec_bytes(),
            caller_uri@,
            call_edge_views(old(out)@),
            visited(Rule::Touching(*fn_span), *node).len() as int,
        ),
{
    let nodes = reach_node(Rule::Touching(*fn_span), node);
    push_calls(
        &nodes,
        *fn_span,
        analysis,
        text,
        caller_uri,
        out,
        Ghost(visited(Rule::Touching(*fn_span), *node)),
    );
}

fn push_calls(
    nodes: &Vec<&AstNode>,
    own: Span,
    analysis: &AnalysisResult,
    text: &str,
    uri: &str,
    out: &mut Vec<HierarchyCall>,
    all: Ghost<Seq<AstNode>>,
)
    requires
        refs_are(nodes@, all@),
    ensures
        call_edge_views(final(out)@) == with_calls_of(
            analysis@,
            all@,
            own,
            text.spec_bytes(),
            uri@,
            call_edge_views(old(out)@),
            all@.len() as int,
        ),
{
    let ghost s = call_edge_views(out@);
    let ghost a = analysis@;
    let ghost b = text.spec_bytes();
    let mut k: usize = 0;
    while k < nodes.len()
        invariant
            k <= nodes@.len(),
            refs_are(nodes@, all@),
            a == analysis@,
            b == text.spec_bytes(),
            call_edge_views(out@) == with_calls_of(a, all@, own, b, uri@, s, k as int),
        decreases nodes@.len() - k,
    {
        let n = nodes[k];
        assert(*n == all@[k as int]);
        if let Form::List(forms) = &n.node {
            if own.start <= n.span.start && n.span.end <= own.end && forms.len() > 0 {
                if let Form::Symbol(_) = &forms[0].node {
                    if let Some(d) = analysis.refs.get(&forms[0].span.start) {
                        let d: u32 = *d;
                        if let Some(callee) = analysis.defs.get(&d) {
                            assert(a.defs[d] == callee@);
                            if callee.kind == DefKind::Fn && callee.span.start != own.start {
                                let item = function_item(callee, text, uri, d);
                                add_call(out, item, span_to_range(text, &forms[0].span), true);
                            }
                        }
                    }
                }
            }
        }
        k = k + 1;
    }
}

/// The functions that a function calls. `start` is where its name starts.
/// None where it calls none, or its form is not to be found.
pub open spec fn outgoing_at(f: FileView, start: Position) -> Seq<CallView> {
    match byte_of(f.text, start) {
        None => Seq::empty(),
        Some(byte) => match function_form_at(reached(Rule::All, f.ast), byte, 0) {
            None => Seq::empty(),
            Some(span) => {
                let nodes = reached(Rule::Touching(span), f.ast);
                with_calls_of(
                    f.analysis,
                    nodes,
                    span,
                    encode_utf8(f.text),
                    f.uri,
                    Seq::empty(),
                    nodes.len() as int,
                )
            },
        },
    }
}

pub fn outgoing_calls(file: &AnalyzedFile, start: Position) -> (r: Option<Vec<HierarchyCall>>)
    ensures
        match r {
            Some(calls) => calls@.len() > 0 && call_edge_views(calls@) == outgoing_at(file@, start),
            None => outgoing_at(file@, start).len() == 0,
        },
{
    let byte = match byte_at_position(&file.text, start) {
        Some(b) => b,
        None => {
            return None;
        },
    };
    let span = match fn_form_span(&file.ast, byte) {
        Some(s) => s,
        None => {
            return None;
        },
    };
    let nodes = reach(Rule::Touching(span), &file.ast);
    let mut out: Vec<HierarchyCall> = Vec::new();
    assert(call_edge_views(out@) =~= Seq::<CallView>::empty());
    push_calls(
        &nodes,
        span,
        &file.analysis,
        &file.text,
        &file.uri,
        &mut out,
        Ghost(reached(Rule::Touching(span), file@.ast)),
    );
    if out.len() == 0 {
        None
    } else {
        Some(out)
    }
}

// ── Laws ────────────────────────────────────────────────────────────────────

/// No two entries are of the same function.
pub open spec fn joined_calls(s: Seq<CallView>) -> bool {
    forall|i: int, j: int|
        0 <= i < j < s.len() ==> !((#[trigger] s[i]).item.name == (#[trigger] s[j]).item.name
            && s[i].item.uri == s[j].item.uri)
}

proof fn call_index_is_first(s: Seq<CallView>, name: Seq<char>, uri: Option<Seq<char>>, i: int)
    requires
        0 <= i <= s.len(),
    ensures
        i <= call_index(s, name, uri, i) <= s.len(),
        forall|j: int|
            i <= j < call_index(s, name, uri, i) ==> !is_item((#[trigger] s[j]).item, name, uri),
    decreases s.len() - i,
{
    if i < s.len() && !is_item(s[i].item, name, uri) {
        call_index_is_first(s, name, uri, i + 1);
    }
}

proof fn one_more_call_is_joined(s: Seq<CallView>, item: ItemView, range: Range)
    requires
        joined_calls(s),
    ensures
        joined_calls(with_call(s, item, range)),
{
    call_index_is_first(s, item.name, Some(item.uri), 0);
    let r = with_call(s, item, range);
    assert(forall|i: int|
        0 <= i < s.len() ==> (#[trigger] r[i]).item.name == s[i].item.name && r[i].item.uri
            == s[i].item.uri);
}

/// No two entries are of functions with the same name.
pub open spec fn joined_by_name(s: Seq<CallView>) -> bool {
    forall|i: int, j: int|
        0 <= i < j < s.len() ==> (#[trigger] s[i]).item.name != (#[trigger] s[j]).item.name
}

proof fn one_more_named_call_is_joined(s: Seq<CallView>, item: ItemView, range: Range)
    requires
        joined_by_name(s),
    ensures
        joined_by_name(with_named_call(s, item, range)),
{
    call_index_is_first(s, item.name, None, 0);
    let r = with_named_call(s, item, range);
    assert(forall|i: int| 0 <= i < s.len() ==> (#[trigger] r[i]).item.name == s[i].item.name);
}

/// The outgoing calls of a function have one entry for each name of a
/// function called.
pub proof fn outgoing_calls_are_joined(
    a: AnalysisView,
    nodes: Seq<AstNode>,
    own: Span,
    b: Seq<u8>,
    uri: Seq<char>,
    s: Seq<CallView>,
    k: int,
)
    requires
        joined_by_name(s),
    ensures
        joined_by_name(with_calls_of(a, nodes, own, b, uri, s, k)),
    decreases k,
{
    if 0 < k <= nodes.len() {
        outgoing_calls_are_joined(a, nodes, own, b, uri, s, k - 1);
        if let Some((d, byte, head)) = called_function(a, nodes[k - 1], own) {
            one_more_named_call_is_joined(
                with_calls_of(a, nodes, own, b, uri, s, k - 1),
                item_of(d, b, uri, byte),
                range_of(b, head),
            );
        }
    }
}

/// The calls from the file of a function have one entry for each function that
/// calls it.
pub proof fn own_calls_are_joined(
    f: FileView,
    def_byte: u32,
    uri: Seq<char>,
    s: Seq<CallView>,
    k: int,
)
    requires
        joined_calls(s),
    ensures
        joined_calls(calls_in_file(f, def_byte, uri, s, k)),
    decreases k,
{
    if 0 < k <= f.analysis.syms.len() {
        own_calls_are_joined(f, def_byte, uri, s, k - 1);
        let sym = f.analysis.syms[k - 1];
        let b = encode_utf8(f.text);
        if let Some(d) = function_around(f.analysis, f.ast, sym.span.start) {
            one_more_call_is_joined(
                calls_in_file(f, def_byte, uri, s, k - 1),
                item_of(d, b, uri, d.span.start),
                range_of(b, sym.span),
            );
        }
    }
}

/// The calls from all files have one entry for each function that calls.
pub proof fn cross_calls_are_joined(
    s: Seq<CallView>,
    files: Map<Seq<char>, AnalyzedFile>,
    refs: Seq<CrossRefView>,
    k: int,
)
    requires
        joined_calls(s),
    ensures
        joined_calls(with_cross_calls(s, files, refs, k)),
    decreases k,
{
    if 0 < k <= refs.len() {
        cross_calls_are_joined(s, files, refs, k - 1);
        let x = refs[k - 1];
        if files.dom().contains(x.uri) {
            if let Some((item, range)) = caller_at(files[x.uri]@, x.span) {
                one_more_call_is_joined(with_cross_calls(s, files, refs, k - 1), item, range);
            }
        }
    }
}

} // verus!
