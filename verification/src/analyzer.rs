//! Scope analysis for Fennel source files.
//!
//! A single recursive pass over the AST builds:
//!   - `defs`:   definition byte-offset → DefinitionInfo
//!   - `refs`:   reference byte-offset  → definition byte-offset
//!   - `syms`:   sorted list of all symbol locations for position lookup
//!   - `scopes`: scope tree for completion
use std::collections::{HashMap, HashSet};

use vstd::prelude::*;

use crate::coverage::{covered_file, every_symbol_is_listed, listed};
use crate::hooks::Instruction;
use crate::lexer::Span;
use crate::names::{index_of_first, names_once, value_after_insert, NameMap};
use crate::parser::{head_name, head_sym, AstNode, Form};
use crate::scoping;
use crate::scoping::{quoted, symbol_of, text_of_key, Hooks, State};
use crate::strings::{decimal, push_decimal, root, same, starts_with_char, texts};

verus! {

// ── Definitions ─────────────────────────────────────────────────────────────

#[derive(Debug, Clone, Copy, PartialEq, Eq, Structural)]
pub enum DefKind {
    Local,
    Var,
    Global,
    Fn,
    Macro,
    Param,
    LoopVar,
    Destructured,
}

#[derive(Debug, Clone)]
pub struct DefinitionInfo {
    pub name: String,
    pub kind: DefKind,
    pub span: Span,
    /// Parameter names, for functions.
    pub params: Option<Vec<String>>,
    /// Inline docstring (first string literal in function body).
    pub doc: Option<String>,
    /// True if the function accepts a rest arg (`& rest`) or varargs (`...`).
    pub variadic: bool,
    /// True if the last body expression can produce multiple values (e.g. `(values ...)`).
    /// Used to suppress false-positive arity warnings when this function is the last arg
    /// in a call: Lua expands multi-return calls in tail-argument position.
    pub returns_multiple: bool,
    /// Static field names for table literals (`{:a 1 :b 2}` → `["a", "b"]`).
    /// Only set when the binding is a table with literal keys. Used for field completions.
    pub table_fields: Option<Vec<String>>,
    /// For `DefKind::Macro` bindings: the module path from which this macro was
    /// imported (e.g. `"addons.lua-gdextension.defnode"`). `None` for inline
    /// `(macro ...)` / `(macros ...)` definitions.
    pub source_module: Option<String>,
}

/// All symbol occurrences (both defs and refs) stored for position lookup.
#[derive(Debug, Clone)]
pub struct SymbolEntry {
    pub span: Span,
    pub name: String,
    /// The byte offset of this symbol's definition, if known.
    pub def_byte: Option<u32>,
    pub is_def: bool,
    /// True when this symbol appears inside the argument list of a macro call.
    /// Unknown-identifier warnings are suppressed for these entries because macro
    /// arguments are DSL forms that don't follow normal Fennel evaluation rules.
    pub in_macro: bool,
}

#[derive(Debug, Clone)]
pub struct Scope {
    pub span: Span,
    /// name → def byte
    pub bindings: NameMap<u32>,
    /// Every definition of the scope, in the order in which they were read: a name
    /// that is defined again stands here once for each definition.
    pub defined: Vec<(String, u32)>,
    pub parent: Option<usize>,
}

#[derive(Debug, Clone)]
pub struct AnalysisWarning {
    pub message: String,
    pub span: Span,
    /// Span of the original definition, for shadow warnings.
    pub related_span: Option<Span>,
}

#[derive(Debug)]
pub struct AnalysisResult {
    pub defs: HashMap<u32, DefinitionInfo>,
    /// reference byte offset → definition byte offset
    pub refs: HashMap<u32, u32>,
    /// All symbol positions (sorted by `span.start`).
    pub syms: Vec<SymbolEntry>,
    pub scopes: Vec<Scope>,
    pub warnings: Vec<AnalysisWarning>,
    /// Maps local binding name → required module name for `(local x (require :mod))`.
    pub module_bindings: NameMap<String>,
    /// Maps def-byte → required module name for require bindings (used for unused-require check).
    pub require_def_bytes: HashMap<u32, String>,
    /// Macro call sites found during analysis.
    /// Each entry: (call_span_start, source_module, macro_name).
    /// `source_module` is the module path from `import-macros`, or `None` for inline macros.
    /// Used by the server to look up and execute the right hook.
    pub macro_calls: Vec<(u32, Option<String>, String)>,
    /// Maps the def-byte of a function with a rest parameter (`& name`) → the index of
    /// that parameter among its parameters.
    pub rest_params: HashMap<u32, usize>,
    /// Completions that hooks offer while the cursor is inside a span.
    pub offers: Vec<(Span, String)>,
}

// ── Models ──────────────────────────────────────────────────────────────────

#[verifier::ext_equal]
pub ghost struct DefinitionView {
    pub name: Seq<char>,
    pub kind: DefKind,
    pub span: Span,
    pub params: Option<Seq<Seq<char>>>,
    pub doc: Option<Seq<char>>,
    pub variadic: bool,
    pub returns_multiple: bool,
    pub table_fields: Option<Seq<Seq<char>>>,
    pub source_module: Option<Seq<char>>,
}

#[verifier::ext_equal]
pub ghost struct SymbolView {
    pub span: Span,
    pub name: Seq<char>,
    pub def_byte: Option<u32>,
    pub is_def: bool,
    pub in_macro: bool,
}

#[verifier::ext_equal]
pub ghost struct ScopeView {
    pub span: Span,
    pub bindings: Seq<(Seq<char>, u32)>,
    pub defined: Seq<(Seq<char>, u32)>,
    pub parent: Option<usize>,
}

#[verifier::ext_equal]
pub ghost struct WarningView {
    pub message: Seq<char>,
    pub span: Span,
    pub related_span: Option<Span>,
}

pub open spec fn opt_text(s: Option<String>) -> Option<Seq<char>> {
    match s {
        Some(t) => Some(t@),
        None => None,
    }
}

pub open spec fn opt_texts(s: Option<Vec<String>>) -> Option<Seq<Seq<char>>> {
    match s {
        Some(t) => Some(texts(t@)),
        None => None,
    }
}

impl View for DefinitionInfo {
    type V = DefinitionView;

    open spec fn view(&self) -> DefinitionView {
        DefinitionView {
            name: self.name@,
            kind: self.kind,
            span: self.span,
            params: opt_texts(self.params),
            doc: opt_text(self.doc),
            variadic: self.variadic,
            returns_multiple: self.returns_multiple,
            table_fields: opt_texts(self.table_fields),
            source_module: opt_text(self.source_module),
        }
    }
}

impl View for SymbolEntry {
    type V = SymbolView;

    open spec fn view(&self) -> SymbolView {
        SymbolView {
            span: self.span,
            name: self.name@,
            def_byte: self.def_byte,
            is_def: self.is_def,
            in_macro: self.in_macro,
        }
    }
}

impl View for Scope {
    type V = ScopeView;

    open spec fn view(&self) -> ScopeView {
        ScopeView {
            span: self.span,
            bindings: self.bindings@,
            defined: named_bytes(self.defined@),
            parent: self.parent,
        }
    }
}

pub open spec fn named_bytes(s: Seq<(String, u32)>) -> Seq<(Seq<char>, u32)> {
    Seq::new(s.len(), |i: int| (s[i].0@, s[i].1))
}

impl View for AnalysisWarning {
    type V = WarningView;

    open spec fn view(&self) -> WarningView {
        WarningView { message: self.message@, span: self.span, related_span: self.related_span }
    }
}

pub open spec fn def_views(m: Map<u32, DefinitionInfo>) -> Map<u32, DefinitionView> {
    Map::new(|k: u32| m.dom().contains(k), |k: u32| m[k]@)
}

pub open spec fn text_views(m: Map<u32, String>) -> Map<u32, Seq<char>> {
    Map::new(|k: u32| m.dom().contains(k), |k: u32| m[k]@)
}

pub open spec fn symbol_views(s: Seq<SymbolEntry>) -> Seq<SymbolView> {
    Seq::new(s.len(), |i: int| s[i]@)
}

pub open spec fn scope_views(s: Seq<Scope>) -> Seq<ScopeView> {
    Seq::new(s.len(), |i: int| s[i]@)
}

pub open spec fn warning_views(s: Seq<AnalysisWarning>) -> Seq<WarningView> {
    Seq::new(s.len(), |i: int| s[i]@)
}

pub open spec fn call_views(s: Seq<(u32, Option<String>, String)>) -> Seq<
    (u32, Option<Seq<char>>, Seq<char>),
> {
    Seq::new(s.len(), |i: int| (s[i].0, opt_text(s[i].1), s[i].2@))
}

/// The model of an [`AnalysisResult`].
#[verifier::ext_equal]
pub ghost struct AnalysisView {
    pub defs: Map<u32, DefinitionView>,
    pub refs: Map<u32, u32>,
    pub syms: Seq<SymbolView>,
    pub scopes: Seq<ScopeView>,
    pub warnings: Seq<WarningView>,
    pub modules: Seq<(Seq<char>, Seq<char>)>,
    pub requires_at: Map<u32, Seq<char>>,
    pub macro_calls: Seq<(u32, Option<Seq<char>>, Seq<char>)>,
    pub rest_params: Map<u32, usize>,
    pub offers: Seq<(Span, Seq<char>)>,
}

pub open spec fn offer_views(s: Seq<(Span, String)>) -> Seq<(Span, Seq<char>)> {
    Seq::new(s.len(), |i: int| (s[i].0, s[i].1@))
}

impl View for AnalysisResult {
    type V = AnalysisView;

    open spec fn view(&self) -> AnalysisView {
        AnalysisView {
            defs: def_views(self.defs@),
            refs: self.refs@,
            syms: symbol_views(self.syms@),
            scopes: scope_views(self.scopes@),
            warnings: warning_views(self.warnings@),
            modules: self.module_bindings@,
            requires_at: text_views(self.require_def_bytes@),
            macro_calls: call_views(self.macro_calls@),
            rest_params: self.rest_params@,
            offers: offer_views(self.offers@),
        }
    }
}

/// What an analysis finds in the forms of a file.
pub open spec fn analysis(hooks: Hooks, ast: Seq<AstNode>) -> AnalysisView {
    let st = scoping::read_file(hooks, ast);
    AnalysisView {
        defs: st.defs,
        refs: st.refs,
        syms: scoping::sorted_symbols(st.syms),
        scopes: st.scopes,
        warnings: scoping::file_warnings(st),
        modules: st.modules,
        requires_at: st.requires_at,
        macro_calls: st.macro_calls,
        rest_params: st.rest_params,
        offers: st.offers,
    }
}

/// The symbols come in the order of their starts.
pub open spec fn in_text_order(s: Seq<SymbolView>) -> bool {
    forall|i: int, j: int|
        0 <= i < j < s.len() ==> (#[trigger] s[i]).span.start <= (#[trigger] s[j]).span.start
}

/// A symbol that starts at `byte` refers to the definition at `def`.
pub open spec fn has_reference(syms: Seq<SymbolView>, byte: u32, def: u32) -> bool {
    exists|i: int|
        0 <= i < syms.len() && (#[trigger] syms[i]).span.start == byte && !syms[i].is_def
            && syms[i].def_byte == Some(def)
}

/// The first scope holds every byte, and lies in no other.
pub open spec fn starts_with_file_scope(scopes: Seq<ScopeView>) -> bool {
    &&& scopes.len() > 0
    &&& scopes[0].span.start == 0
    &&& scopes[0].span.end == u32::MAX
    &&& scopes[0].parent is None
}

/// Every scope but the first lies in another one.
#[verifier::opaque]
pub open spec fn all_inside(scopes: Seq<ScopeView>) -> bool {
    forall|i: int| 0 < i < scopes.len() ==> (#[trigger] scopes[i]).parent is Some
}

/// Every scope lies behind the scope around it.
pub open spec fn scopes_nest(scopes: Seq<ScopeView>) -> bool {
    forall|i: int|
        0 <= i < scopes.len() ==> ((#[trigger] scopes[i]).parent matches Some(p) ==> p < i)
}

/// A result hangs together: the symbols are sorted, the first scope holds the whole
/// file, scopes lie behind the scopes around them and bind no name twice, every
/// definition is found by its start, everything that points to a definition points
/// to one that is there, and every reference is that of a symbol.
pub open spec fn well_formed(a: AnalysisView) -> bool {
    &&& in_text_order(a.syms)
    &&& starts_with_file_scope(a.scopes)
    &&& forall|k: u32| #[trigger] a.defs.dom().contains(k) ==> a.defs[k].span.start == k
    &&& forall|k: u32| #[trigger]
        a.refs.dom().contains(k) ==> has_reference(a.syms, k, a.refs[k])
    &&& forall|i: int, j: int|
        0 <= i < a.scopes.len() && 0 <= j < a.scopes[i].defined.len() ==> a.defs.dom().contains(
            (#[trigger] a.scopes[i].defined[j]).1,
        )
    &&& scopes_nest(a.scopes)
    &&& forall|i: int| 0 <= i < a.scopes.len() ==> names_once((#[trigger] a.scopes[i]).bindings)
    &&& forall|i: int, j: int|
        0 <= i < a.scopes.len() && 0 <= j < a.scopes[i].bindings.len()
            ==> a.defs.dom().contains((#[trigger] a.scopes[i].bindings[j]).1)
    &&& forall|i: int|
        0 <= i < a.syms.len() ==> ((#[trigger] a.syms[i]).def_byte matches Some(d)
            ==> a.defs.dom().contains(d))
    &&& forall|k: u32| #[trigger]
        a.refs.dom().contains(k) ==> a.defs.dom().contains(a.refs[k])
}

// ── Soundness of what is known ──────────────────────────────────────────────

/// What is known hangs together: the first scope holds the whole file, scopes lie
/// behind the scopes around them, open scopes exist, no scope binds a name twice,
/// every definition is found by its start, everything that points to a definition
/// points to one that is there, and every reference is that of a symbol.
#[verifier::opaque]
pub open spec fn sound(st: State) -> bool {
    &&& st.scopes.len() <= usize::MAX
    &&& starts_with_file_scope(st.scopes)
    &&& forall|k: u32| #[trigger] st.defs.dom().contains(k) ==> st.defs[k].span.start == k
    &&& forall|k: u32| #[trigger]
        st.refs.dom().contains(k) ==> has_reference(st.syms, k, st.refs[k])
    &&& forall|i: int, j: int|
        0 <= i < st.scopes.len() && 0 <= j < st.scopes[i].defined.len() ==> st.defs.dom().contains(
            (#[trigger] st.scopes[i].defined[j]).1,
        )
    &&& forall|i: int| 0 <= i < st.open.len() ==> (#[trigger] st.open[i]) < st.scopes.len()
    &&& forall|i: int|
        0 <= i < st.scopes.len() ==> ((#[trigger] st.scopes[i]).parent matches Some(p) ==> p < i)
    &&& forall|i: int| 0 <= i < st.scopes.len() ==> names_once((#[trigger] st.scopes[i]).bindings)
    &&& forall|i: int, j: int|
        0 <= i < st.scopes.len() && 0 <= j < st.scopes[i].bindings.len()
            ==> st.defs.dom().contains((#[trigger] st.scopes[i].bindings[j]).1)
    &&& forall|i: int|
        0 <= i < st.syms.len() ==> ((#[trigger] st.syms[i]).def_byte matches Some(d)
            ==> st.defs.dom().contains(d))
    &&& forall|k: u32| #[trigger]
        st.refs.dom().contains(k) ==> st.defs.dom().contains(st.refs[k])
}

/// Where the hooks close what they open, a scope is open, and every scope but the
/// first lies in another one.
pub open spec fn rooted(h: Hooks, st: State) -> bool {
    scoping::balanced(h) ==> st.open.len() > 0 && all_inside(st.scopes)
}

/// Where the hooks close what they open, the scopes that were open still are.
pub open spec fn kept_open(h: Hooks, before: State, after: State) -> bool {
    scoping::balanced(h) ==> after.open == before.open
}

/// What a symbol refers to, it still refers to when more symbols follow.
proof fn references_stay(before: Seq<SymbolView>, after: Seq<SymbolView>, refs: Map<u32, u32>)
    requires
        before.len() <= after.len(),
        forall|i: int| 0 <= i < before.len() ==> #[trigger] after[i] == before[i],
        forall|k: u32| #[trigger]
            refs.dom().contains(k) ==> has_reference(before, k, refs[k]),
    ensures
        forall|k: u32| #[trigger] refs.dom().contains(k) ==> has_reference(after, k, refs[k]),
{
    assert forall|k: u32| #[trigger] refs.dom().contains(k) implies has_reference(
        after,
        k,
        refs[k],
    ) by {
        let i = choose|i: int|
            0 <= i < before.len() && (#[trigger] before[i]).span.start == k && !before[i].is_def
                && before[i].def_byte == Some(refs[k]);
        assert(after[i] == before[i]);
    }
}

/// The scopes that are open now: those that were open before, and as many more as
/// were opened since.
spec fn opened_since(before: Seq<usize>, now: Seq<usize>, more: Option<nat>) -> bool {
    &&& more is Some
    &&& now.len() == before.len() + more->0
    &&& now.take(before.len() as int) == before
}

/// Where all instructions together close no scope that they did not open, the first
/// of them do not either.
proof fn left_open_before(instructions: Seq<Instruction>, k: int, n: int)
    requires
        0 <= k <= n <= instructions.len(),
    ensures
        scoping::left_open(instructions, n) is Some ==> scoping::left_open(instructions, k) is Some,
    decreases n - k,
{
    if k < n {
        left_open_before(instructions, k, n - 1);
    }
}

// ── Small readers ───────────────────────────────────────────────────────────

fn symbol_name(n: &AstNode) -> (r: Option<&str>)
    ensures
        match r {
            Some(s) => symbol_of(*n) == Some(s@),
            None => symbol_of(*n) is None,
        },
{
    match &n.node {
        Form::Symbol(s) => Some(s.as_str()),
        _ => None,
    }
}

fn is_symbol(n: &AstNode, name: &str) -> (r: bool)
    ensures
        r == (symbol_of(*n) == Some(name@)),
{
    match &n.node {
        Form::Symbol(s) => same(s, name),
        _ => false,
    }
}

fn key_text(n: &AstNode) -> (r: Option<String>)
    ensures
        opt_text(r) == text_of_key(*n),
{
    match &n.node {
        Form::Keyword(s) => Some(s.clone()),
        Form::Str(s) => Some(s.clone()),
        _ => None,
    }
}

fn quote_name(name: &str) -> (r: String)
    ensures
        r@ == quoted(name@),
{
    let mut out = String::new();
    out.push('`');
    out.append(name);
    out.push('`');
    assert(out@ =~= quoted(name@));
    out
}

fn head_is(forms: &[AstNode], name: &str) -> (r: bool)
    ensures
        r == (head_name(forms@) == Some(name@)),
{
    match head_sym(forms) {
        Some(s) => same(s, name),
        None => false,
    }
}

/// If `node` is `(require :mod)` or `(require "mod")`, return the module name.
fn extract_require_module(node: &AstNode) -> (r: Option<String>)
    ensures
        opt_text(r) == scoping::required_module(*node),
{
    match &node.node {
        Form::List(forms) => {
            if head_is(forms, "require") && forms.len() >= 2 {
                key_text(&forms[1])
            } else {
                None
            }
        },
        _ => None,
    }
}

/// Extract static field names from a table literal.
/// Returns keyword and string keys found in pairs; skips computed keys silently.
/// An empty vec means either not a table or no static keys were found.
fn extract_table_keys(node: &AstNode) -> (r: Vec<String>)
    ensures
        texts(r@) == scoping::table_keys(*node),
{
    let mut keys: Vec<String> = Vec::new();
    match &node.node {
        Form::Table(fields) => {
            let mut i: usize = 0;
            while i < fields.len() && i + 1 < fields.len()
                invariant
                    i <= fields@.len() + 1,
                    texts(keys@) + scoping::static_keys(fields@, i as int)
                        == scoping::static_keys(fields@, 0),
                decreases fields@.len() + 1 - i,
            {
                let ghost before = texts(keys@);
                let ghost rest = scoping::static_keys(fields@, i as int);
                if let Some(k) = key_text(&fields[i]) {
                    keys.push(k);
                    assert(texts(keys@) =~= before.push(k@));
                }
                i = i + 2;
                assert(before + rest =~= texts(keys@) + scoping::static_keys(fields@, i as int));
            }
            assert(texts(keys@) =~= scoping::static_keys(fields@, 0));
        },
        _ => {
            assert(texts(keys@) =~= Seq::<Seq<char>>::empty());
        },
    }
    keys
}

/// Returns true when `node`, evaluated in tail position, may produce multiple
/// values.  Used to suppress false-positive arity warnings: Lua expands a
/// multi-return call that appears as the *last* argument in a call site.
fn tail_may_return_multiple(node: &AstNode) -> (r: bool)
    ensures
        r == scoping::tail_is_multiple(*node),
    decreases node,
{
    match &node.node {
        Form::List(forms) => {
            let n = forms.len();
            if head_is(forms, "values") {
                true
            } else if head_is(forms, "do") || head_is(forms, "when") || head_is(forms, "unless")
                || head_is(forms, "let") || head_is(forms, "with-open") {
                n > 0 && tail_may_return_multiple(&forms[n - 1])
            } else if head_is(forms, "if") {
                (n > 2 && tail_may_return_multiple(&forms[2])) || (n > 3
                    && tail_may_return_multiple(&forms[3]))
            } else {
                false
            }
        },
        _ => false,
    }
}

// ── The analyzer ────────────────────────────────────────────────────────────

struct Analyzer<'h> {
    result: AnalysisResult,
    /// Stack of scope indices (current scope chain).
    scope_stack: Vec<usize>,
    /// Def-bytes of `var` bindings that appear as the target of at least one `set`.
    mutation_targets: HashSet<u32>,
    /// Inside the argument list of a macro call: all emitted SymbolEntries are
    /// tagged `in_macro: true` and unknown-identifier warnings are suppressed for them.
    in_macro: bool,
    /// Hook results from a previous hook-runner pass, keyed by call_span_start.
    /// When populated, the catch-all macro branch uses these instead of in_macro tagging.
    hook_results: &'h HashMap<u32, Vec<Instruction>>,
}

impl<'h> Analyzer<'h> {
    spec fn state(&self) -> State {
        State {
            defs: def_views(self.result.defs@),
            refs: self.result.refs@,
            syms: symbol_views(self.result.syms@),
            scopes: scope_views(self.result.scopes@),
            warnings: warning_views(self.result.warnings@),
            modules: self.result.module_bindings@,
            requires_at: text_views(self.result.require_def_bytes@),
            macro_calls: call_views(self.result.macro_calls@),
            rest_params: self.result.rest_params@,
            offers: offer_views(self.result.offers@),
            open: self.scope_stack@,
            mutated: self.mutation_targets@,
            in_macro: self.in_macro,
        }
    }

    spec fn hooks(&self) -> Hooks {
        self.hook_results@
    }

    /// An analyzer with the outermost scope open, which holds every byte.
    fn new_with_hooks(
        hook_results: &'h HashMap<u32, Vec<Instruction>>,
        file_span: Span,
    ) -> (r: Self)
        requires
            file_span.start == 0,
            file_span.end == u32::MAX,
        ensures
            r.state() == scoping::push_scope(scoping::nothing_known(), file_span),
            r.hooks() == hook_results@,
            sound(r.state()),
            rooted(r.hooks(), r.state()),
    {
        let none: Vec<(String, u32)> = Vec::new();
        assert(named_bytes(none@) =~= Seq::<(Seq<char>, u32)>::empty());
        let mut scopes: Vec<Scope> = Vec::new();
        scopes.push(
            Scope { span: file_span, bindings: NameMap::new(), defined: none, parent: None },
        );
        let mut scope_stack: Vec<usize> = Vec::new();
        scope_stack.push(0);
        let r = Self {
            result: AnalysisResult {
                defs: HashMap::new(),
                refs: HashMap::new(),
                syms: Vec::new(),
                scopes,
                warnings: Vec::new(),
                module_bindings: NameMap::new(),
                require_def_bytes: HashMap::new(),
                macro_calls: Vec::new(),
                rest_params: HashMap::new(),
                offers: Vec::new(),
            },
            scope_stack,
            mutation_targets: HashSet::new(),
            in_macro: false,
            hook_results,
        };
        assert(r.state() =~= scoping::push_scope(scoping::nothing_known(), file_span));
        proof {
            reveal(sound);
            reveal(all_inside);
        }
        r
    }

    fn push_scope(&mut self, span: Span)
        requires
            sound(old(self).state()),
            rooted(old(self).hooks(), old(self).state()),
        ensures
            sound(final(self).state()),
            rooted(old(self).hooks(), final(self).state()),
            final(self).state().open.len() == old(self).state().open.len() + 1,
            final(self).state().open.drop_last() == old(self).state().open,
            final(self).hooks() == old(self).hooks(),
            final(self).state() == scoping::push_scope(old(self).state(), span),
    {
        let ghost st = self.state();
        let parent = self.current_scope();
        let idx = self.result.scopes.len();
        let none: Vec<(String, u32)> = Vec::new();
        assert(named_bytes(none@) =~= Seq::<(Seq<char>, u32)>::empty());
        self.result.scopes.push(Scope { span, bindings: NameMap::new(), defined: none, parent });
        self.scope_stack.push(idx);
        assert(self.state() =~= scoping::push_scope(st, span));
        assert(self.result.scopes.len() <= usize::MAX);
        let ghost now = self.state();
        assert(now.open.drop_last() =~= st.open);
        proof {
            reveal(sound);
            reveal(all_inside);
            assert(forall|i: int| 0 <= i < st.scopes.len() ==> #[trigger] now.scopes[i] == st.scopes[i]);
            assert(forall|i: int| 0 <= i < st.open.len() ==> #[trigger] now.open[i] == st.open[i]);
        }
    }

    fn pop_scope(&mut self)
        requires
            sound(old(self).state()),
            rooted(old(self).hooks(), old(self).state()),
            scoping::balanced(old(self).hooks()) ==> old(self).state().open.len() > 1,
        ensures
            sound(final(self).state()),
            rooted(old(self).hooks(), final(self).state()),
            final(self).hooks() == old(self).hooks(),
            final(self).state() == scoping::pop_scope(old(self).state()),
    {
        let ghost st = self.state();
        self.scope_stack.pop();
        assert(self.state() =~= scoping::pop_scope(st));
        proof {
            reveal(sound);
        }
    }

    fn current_scope(&self) -> (r: Option<usize>)
        ensures
            r == scoping::innermost(self.state()),
    {
        let n = self.scope_stack.len();
        if n > 0 {
            Some(self.scope_stack[n - 1])
        } else {
            None
        }
    }

    fn warn(&mut self, message: String, span: Span, related_span: Option<Span>)
        requires
            sound(old(self).state()),
            rooted(old(self).hooks(), old(self).state()),
        ensures
            sound(final(self).state()),
            rooted(old(self).hooks(), final(self).state()),
            kept_open(old(self).hooks(), old(self).state(), final(self).state()),
            final(self).hooks() == old(self).hooks(),
            final(self).state() == (State {
                warnings: old(self).state().warnings.push(
                    scoping::warning(message@, span, related_span),
                ),
                ..old(self).state()
            }),
    {
        let ghost st = self.state();
        self.result.warnings.push(AnalysisWarning { message, span, related_span });
        assert(self.state().warnings =~= st.warnings.push(
            scoping::warning(message@, span, related_span),
        ));
        proof {
            reveal(sound);
        }
    }

    /// Records a definition, in place of one at the same byte.
    fn put_def(&mut self, byte: u32, def: DefinitionInfo)
        requires
            sound(old(self).state()),
            rooted(old(self).hooks(), old(self).state()),
            def@.span.start == byte,
        ensures
            sound(final(self).state()),
            rooted(old(self).hooks(), final(self).state()),
            kept_open(old(self).hooks(), old(self).state(), final(self).state()),
            final(self).hooks() == old(self).hooks(),
            final(self).state() == (State {
                defs: old(self).state().defs.insert(byte, def@),
                ..old(self).state()
            }),
    {
        let ghost st = self.state();
        self.result.defs.insert(byte, def);
        assert(self.state().defs =~= st.defs.insert(byte, def@));
        proof {
            reveal(sound);
        }
    }

    /// The definition at a byte, taken out to be changed and put back.
    fn take_def(&mut self, byte: u32) -> (r: Option<DefinitionInfo>)
        ensures
            final(self).hooks() == old(self).hooks(),
            final(self).state() == (State {
                defs: old(self).state().defs.remove(byte),
                ..old(self).state()
            }),
            match r {
                Some(d) => old(self).state().defs.dom().contains(byte)
                    && old(self).state().defs[byte] == d@,
                None => !old(self).state().defs.dom().contains(byte),
            },
    {
        let ghost st = self.state();
        let r = self.result.defs.remove(&byte);
        assert(self.state().defs =~= st.defs.remove(byte));
        r
    }

    fn span_at(&self, byte: u32) -> (r: Option<Span>)
        ensures
            r == scoping::span_of_def(self.state().defs, byte),
    {
        match self.result.defs.get(&byte) {
            Some(d) => Some(d.span),
            None => None,
        }
    }

    /// Add a definition at `span`, in the current scope.
    fn define(&mut self, name: &str, span: Span, kind: DefKind)
        requires
            sound(old(self).state()),
            rooted(old(self).hooks(), old(self).state()),
        ensures
            sound(final(self).state()),
            rooted(old(self).hooks(), final(self).state()),
            kept_open(old(self).hooks(), old(self).state(), final(self).state()),
            final(self).hooks() == old(self).hooks(),
            final(self).state() == scoping::define(old(self).state(), name@, span, kind),
    {
        let ghost st = self.state();
        let byte = span.start;
        self.put_def(
            byte,
            DefinitionInfo {
                name: name.to_owned(),
                kind,
                span,
                params: None,
                doc: None,
                variadic: false,
                returns_multiple: false,
                table_fields: None,
                source_module: None,
            },
        );
        let in_macro = self.in_macro;
        let ghost s1 = self.state();
        self.result.syms.push(
            SymbolEntry { span, name: name.to_owned(), def_byte: Some(byte), is_def: true, in_macro },
        );
        assert(self.state().syms =~= st.syms.push(
            SymbolView {
                span,
                name: name@,
                def_byte: Some(byte),
                is_def: true,
                in_macro: st.in_macro,
            },
        ));
        assert(sound(self.state())) by {
            reveal(sound);
            references_stay(s1.syms, self.state().syms, s1.refs);
        }
        if let Some(idx) = self.current_scope() {
            assert(idx < st.scopes.len()) by {
                reveal(sound);
            }
            let found = match self.result.scopes[idx].bindings.get(name) {
                Some(b) => Some(*b),
                None => None,
            };
            if let Some(orig_byte) = found {
                if !same(name, "_") {
                    let related_span = self.span_at(orig_byte);
                    let mut message = quote_name(name);
                    message.append(" is already defined in this scope");
                    self.warn(message, span, related_span);
                }
            }
            self.bind(idx, name, byte);
        }
        assert(self.state() =~= scoping::define(st, name@, span, kind));
    }

    /// Binds a name in a scope to a definition that is there.
    fn bind(&mut self, idx: usize, name: &str, byte: u32)
        requires
            sound(old(self).state()),
            rooted(old(self).hooks(), old(self).state()),
            idx < old(self).state().scopes.len(),
            old(self).state().defs.dom().contains(byte),
        ensures
            sound(final(self).state()),
            rooted(old(self).hooks(), final(self).state()),
            kept_open(old(self).hooks(), old(self).state(), final(self).state()),
            final(self).hooks() == old(self).hooks(),
            final(self).state() == ({
                let st = old(self).state();
                let scope = st.scopes[idx as int];
                State {
                    scopes: st.scopes.update(
                        idx as int,
                        ScopeView {
                            bindings: crate::names::with_value(scope.bindings, name@, byte),
                            defined: scope.defined.push((name@, byte)),
                            ..scope
                        },
                    ),
                    ..st
                }
            }),
    {
        let ghost st = self.state();
        self.result.scopes[idx].bindings.insert(name, byte);
        self.result.scopes[idx].defined.push((name.to_owned(), byte));
        let ghost now = self.state();
        let ghost b0 = st.scopes[idx as int].bindings;
        let ghost d0 = st.scopes[idx as int].defined;
        assert(now.scopes[idx as int].defined =~= d0.push((name@, byte)));
        assert(now.scopes =~= st.scopes.update(
            idx as int,
            ScopeView {
                bindings: crate::names::with_value(b0, name@, byte),
                defined: d0.push((name@, byte)),
                ..st.scopes[idx as int]
            },
        ));
        proof {
            reveal(sound);
            reveal(all_inside);
            value_after_insert(b0, name@, byte, name@);
            index_of_first(b0, name@);
            assert forall|i: int, j: int|
                0 <= i < now.scopes.len() && 0 <= j
                    < now.scopes[i].bindings.len() implies now.defs.dom().contains(
                (#[trigger] now.scopes[i].bindings[j]).1,
            ) by {
                if i == idx {
                    if j < b0.len() && now.scopes[i].bindings[j].1 != byte {
                        assert(now.scopes[i].bindings[j] == st.scopes[i].bindings[j]);
                    }
                } else {
                    assert(now.scopes[i] == st.scopes[i]);
                    assert(st.defs.dom().contains(st.scopes[i].bindings[j].1));
                }
            }
            assert forall|i: int, j: int|
                0 <= i < now.scopes.len() && 0 <= j
                    < now.scopes[i].defined.len() implies now.defs.dom().contains(
                (#[trigger] now.scopes[i].defined[j]).1,
            ) by {
                if i != idx {
                    assert(now.scopes[i] == st.scopes[i]);
                    assert(st.defs.dom().contains(st.scopes[i].defined[j].1));
                } else if j < d0.len() {
                    assert(now.scopes[i].defined[j] == st.scopes[i].defined[j]);
                }
            }
            assert forall|i: int| 0 <= i < now.scopes.len() implies names_once(
                (#[trigger] now.scopes[i]).bindings,
            ) by {
                if i != idx {
                    assert(now.scopes[i] == st.scopes[i]);
                }
            }
        }
    }

    /// Record a symbol reference; looks up the scope chain for its definition.
    fn reference(&mut self, name: &str, span: Span)
        requires
            sound(old(self).state()),
            rooted(old(self).hooks(), old(self).state()),
        ensures
            sound(final(self).state()),
            rooted(old(self).hooks(), final(self).state()),
            kept_open(old(self).hooks(), old(self).state(), final(self).state()),
            final(self).hooks() == old(self).hooks(),
            final(self).state() == scoping::reference(old(self).state(), name@, span),
    {
        let ghost st = self.state();
        // For multisyms like `a.b.c` or `a:method`, look up the root part.
        // For bare operators like `..`, `+`, `<=`, use the whole name.
        let root_name = root(name);
        let def_byte = self.lookup(&root_name);
        let in_macro = self.in_macro;
        self.result.syms.push(
            SymbolEntry { span, name: name.to_owned(), def_byte, is_def: false, in_macro },
        );
        if let Some(db) = def_byte {
            self.result.refs.insert(span.start, db);
        }
        assert(self.state() =~= scoping::reference(st, name@, span));
        proof {
            reveal(sound);
            let now = self.state();
            references_stay(st.syms, now.syms, st.refs);
            if let Some(db) = def_byte {
                assert(now.syms[st.syms.len() as int].span.start == span.start);
                assert(has_reference(now.syms, span.start, db));
            }
        }
    }

    /// Look up `name` in the current scope chain.
    fn lookup(&self, name: &str) -> (r: Option<u32>)
        requires
            sound(self.state()),
        ensures
            r == scoping::lookup(self.state(), name@),
            r matches Some(d) ==> self.state().defs.dom().contains(d),
    {
        proof {
            reveal(sound);
        }
        self.lookup_from(self.current_scope(), name)
    }

    fn lookup_from(&self, from: Option<usize>, name: &str) -> (r: Option<u32>)
        requires
            sound(self.state()),
            from matches Some(i) ==> i < self.state().scopes.len(),
        ensures
            r == scoping::find_from(self.state().scopes, from, name@),
            r matches Some(d) ==> self.state().defs.dom().contains(d),
        decreases
                (match from {
                    Some(i) => i + 1,
                    None => 0,
                }),
    {
        match from {
            Some(idx) => {
                let ghost scopes = self.state().scopes;
                proof {
                    reveal(sound);
                    index_of_first(scopes[idx as int].bindings, name@);
                }
                let scope = &self.result.scopes[idx];
                assert(scope@ == scopes[idx as int]);
                match scope.bindings.get(name) {
                    Some(byte) => {
                        let ghost k = crate::names::index_of(scope@.bindings, name@);
                        assert(scopes[idx as int].bindings[k].1 == *byte);
                        Some(*byte)
                    },
                    None => self.lookup_from(scope.parent, name),
                }
            },
            None => None,
        }
    }

    /// Warns if `name` is already bound in a scope around the current one.
    /// Only called for explicit `local`/`var`/`let` bindings — not params or match patterns.
    fn check_outer_shadow(&mut self, name: &str, span: Span)
        requires
            sound(old(self).state()),
            rooted(old(self).hooks(), old(self).state()),
        ensures
            sound(final(self).state()),
            rooted(old(self).hooks(), final(self).state()),
            kept_open(old(self).hooks(), old(self).state(), final(self).state()),
            final(self).hooks() == old(self).hooks(),
            final(self).state() == scoping::outer_shadow(old(self).state(), name@, span),
    {
        if starts_with_char(name, '_') {
            return ;
        }
        if let Some(current) = self.current_scope() {
            proof {
                reveal(sound);
            }
            assert(self.result.scopes@[current as int]@ == self.state().scopes[current as int]);
            let outer = self.result.scopes[current].parent;
            if let Some(orig_byte) = self.lookup_from(outer, name) {
                let related_span = self.span_at(orig_byte);
                let mut message = quote_name(name);
                message.append(" shadows a binding from an outer scope");
                self.warn(message, span, related_span);
            }
        }
    }

    /// If `name_node` is a plain symbol and `rhs` is a table literal with static keys,
    /// record those keys on the def so completions can offer `name.field`.
    fn set_table_fields(&mut self, name_node: &AstNode, rhs: &AstNode)
        requires
            sound(old(self).state()),
            rooted(old(self).hooks(), old(self).state()),
        ensures
            sound(final(self).state()),
            rooted(old(self).hooks(), final(self).state()),
            kept_open(old(self).hooks(), old(self).state(), final(self).state()),
            final(self).hooks() == old(self).hooks(),
            final(self).state() == scoping::set_table_fields(old(self).state(), *name_node, *rhs),
    {
        let fields = extract_table_keys(rhs);
        if symbol_name(name_node).is_none() || fields.len() == 0 {
            return ;
        }
        let byte = name_node.span.start;
        let ghost st = self.state();
        if let Some(mut def) = self.take_def(byte) {
            def.table_fields = Some(fields);
            self.restore_def(byte, def, Ghost(st));
        } else {
            assert(self.state() =~= st);
        }
    }

    /// Puts back a definition that was taken out and changed.
    fn restore_def(&mut self, byte: u32, def: DefinitionInfo, Ghost(st): Ghost<State>)
        requires
            sound(st),
            rooted(old(self).hooks(), st),
            st.defs.dom().contains(byte),
            st.defs[byte].span == def@.span,
            old(self).state() == (State { defs: st.defs.remove(byte), ..st }),
        ensures
            sound(final(self).state()),
            rooted(old(self).hooks(), final(self).state()),
            kept_open(old(self).hooks(), old(self).state(), final(self).state()),
            final(self).hooks() == old(self).hooks(),
            final(self).state() == (State { defs: st.defs.insert(byte, def@), ..st }),
    {
        let ghost was = self.state();
        self.result.defs.insert(byte, def);
        assert(self.state().defs =~= was.defs.insert(byte, def@));
        assert(self.state().defs =~= st.defs.insert(byte, def@));
        proof {
            reveal(sound);
        }
    }

    // ── Pattern binding helpers ─────────────────────────────────────────────

    /// Bind a single pattern node as a definition.
    fn bind_pattern(&mut self, node: &AstNode, kind: DefKind)
        requires
            sound(old(self).state()),
            rooted(old(self).hooks(), old(self).state()),
        ensures
            sound(final(self).state()),
            rooted(old(self).hooks(), final(self).state()),
            kept_open(old(self).hooks(), old(self).state(), final(self).state()),
            final(self).hooks() == old(self).hooks(),
            final(self).state() == scoping::bind_pattern(old(self).state(), *node, kind),
        decreases node, 1int, 0int,
    {
        match &node.node {
            Form::Symbol(name) => {
                // Ignore & (rest marker) and _ (discard)
                if !same(name, "&") && !same(name, "_") {
                    self.define(name, node.span, kind);
                }
            },
            // Sequential destructuring: [a b c], also with & rest
            Form::Sequence(items) => self.bind_items(items),
            // Multi-value destructuring: (a b) from multiple return values
            Form::List(items) => self.bind_items(items),
            Form::Table(fields) => self.bind_fields(fields),
            _ => {},
        }
    }

    fn bind_items(&mut self, items: &Vec<AstNode>)
        requires
            sound(old(self).state()),
            rooted(old(self).hooks(), old(self).state()),
        ensures
            sound(final(self).state()),
            rooted(old(self).hooks(), final(self).state()),
            kept_open(old(self).hooks(), old(self).state(), final(self).state()),
            final(self).hooks() == old(self).hooks(),
            final(self).state() == scoping::bind_items(old(self).state(), items@, 0),
        decreases items@, 0int, items@.len(),
    {
        let mut i: usize = 0;
        while i < items.len()
            invariant
                i <= items@.len(),
                sound(self.state()),
                rooted(self.hooks(), self.state()),
                kept_open(self.hooks(), old(self).state(), self.state()),
                self.hooks() == old(self).hooks(),
                scoping::bind_items(self.state(), items@, i as int) == scoping::bind_items(
                    old(self).state(),
                    items@,
                    0,
                ),
            decreases items@.len() - i,
        {
            self.bind_pattern(&items[i], DefKind::Destructured);
            i = i + 1;
        }
    }

    /// Table destructuring — several syntactic forms:
    ///   {:key name}      — keyword key, symbol binding
    ///   {name :key}      — symbol binding, keyword key
    ///   {"key" name}     — string key, symbol binding
    ///   {: name}         — shorthand: bind `name` from key `:name`
    ///   {&as name}       — bind the whole table to `name`
    ///   {:key {nested}}  — nested destructuring
    fn bind_fields(&mut self, fields: &Vec<AstNode>)
        requires
            sound(old(self).state()),
            rooted(old(self).hooks(), old(self).state()),
        ensures
            sound(final(self).state()),
            rooted(old(self).hooks(), final(self).state()),
            kept_open(old(self).hooks(), old(self).state(), final(self).state()),
            final(self).hooks() == old(self).hooks(),
            final(self).state() == scoping::bind_fields(old(self).state(), fields@, 0),
        decreases fields@, 1int, fields@.len(),
    {
        let mut i: usize = 0;
        while i < fields.len() && i + 1 < fields.len()
            invariant
                i <= fields@.len() + 1,
                sound(self.state()),
                rooted(self.hooks(), self.state()),
                kept_open(self.hooks(), old(self).state(), self.state()),
                self.hooks() == old(self).hooks(),
                scoping::bind_fields(self.state(), fields@, i as int) == scoping::bind_fields(
                    old(self).state(),
                    fields@,
                    0,
                ),
            decreases fields@.len() + 1 - i,
        {
            self.bind_field(fields, i);
            i = i + 2;
        }
    }

    fn bind_field(&mut self, fields: &Vec<AstNode>, i: usize)
        requires
            sound(old(self).state()),
            rooted(old(self).hooks(), old(self).state()),
            i + 1 < fields.len(),
        ensures
            sound(final(self).state()),
            rooted(old(self).hooks(), final(self).state()),
            kept_open(old(self).hooks(), old(self).state(), final(self).state()),
            final(self).hooks() == old(self).hooks(),
            final(self).state() == scoping::bind_field(old(self).state(), fields@, i as int),
        decreases fields@, 0int, 0int,
    {
        let a = &fields[i];
        let b = &fields[i + 1];
        if is_symbol(a, ":") || is_symbol(a, "&as") {
            if let Some(name) = symbol_name(b) {
                self.define(name, b.span, DefKind::Destructured);
                return ;
            }
        }
        match (&a.node, &b.node) {
            (Form::Keyword(_), Form::Symbol(name)) => {
                self.define(name, b.span, DefKind::Destructured);
            },
            (Form::Keyword(_), Form::Table(_)) => {
                self.bind_pattern(b, DefKind::Destructured);
            },
            (Form::Keyword(_), Form::Sequence(_)) => {
                self.bind_pattern(b, DefKind::Destructured);
            },
            (Form::Str(_), Form::Symbol(name)) => {
                self.define(name, b.span, DefKind::Destructured);
            },
            (Form::Symbol(name), Form::Keyword(_)) => {
                self.define(name, a.span, DefKind::Destructured);
            },
            _ => {},
        }
    }

    /// Bind function parameters (handles the `&` rest marker).
    fn bind_params(&mut self, params: &Vec<AstNode>)
        requires
            sound(old(self).state()),
            rooted(old(self).hooks(), old(self).state()),
        ensures
            sound(final(self).state()),
            rooted(old(self).hooks(), final(self).state()),
            kept_open(old(self).hooks(), old(self).state(), final(self).state()),
            final(self).hooks() == old(self).hooks(),
            final(self).state() == scoping::bind_params(old(self).state(), params@, 0),
    {
        let mut i: usize = 0;
        while i < params.len()
            invariant
                i <= params@.len(),
                sound(self.state()),
                rooted(self.hooks(), self.state()),
                kept_open(self.hooks(), old(self).state(), self.state()),
                self.hooks() == old(self).hooks(),
                scoping::bind_params(self.state(), params@, i as int) == scoping::bind_params(
                    old(self).state(),
                    params@,
                    0,
                ),
            decreases params@.len() - i,
        {
            let p = &params[i];
            match &p.node {
                Form::Symbol(name) => {
                    // `&` marks the start of a rest parameter list; `...` is varargs
                    if !same(name, "&") && !same(name, "...") {
                        self.define(name, p.span, DefKind::Param);
                    }
                },
                Form::Sequence(_) => self.bind_pattern(p, DefKind::Param),
                Form::Table(_) => self.bind_pattern(p, DefKind::Param),
                _ => {},
            }
            i = i + 1;
        }
    }

    /// Binds the patterns from `from` up to `to` as loop variables.
    fn bind_loop_vars(&mut self, binds: &Vec<AstNode>, from: usize, to: usize)
        requires
            sound(old(self).state()),
            rooted(old(self).hooks(), old(self).state()),
            to <= binds@.len(),
        ensures
            sound(final(self).state()),
            rooted(old(self).hooks(), final(self).state()),
            kept_open(old(self).hooks(), old(self).state(), final(self).state()),
            final(self).hooks() == old(self).hooks(),
            final(self).state() == scoping::loop_vars(old(self).state(), binds@, from as int, to as int),
    {
        let mut i: usize = from;
        while i < to
            invariant
                from <= i,
                to <= binds@.len(),
                sound(self.state()),
                rooted(self.hooks(), self.state()),
                kept_open(self.hooks(), old(self).state(), self.state()),
                self.hooks() == old(self).hooks(),
                scoping::loop_vars(self.state(), binds@, i as int, to as int)
                    == scoping::loop_vars(
                    old(self).state(),
                    binds@,
                    from as int,
                    to as int,
                ),
            decreases to - i,
        {
            self.bind_pattern(&binds[i], DefKind::LoopVar);
            i = i + 1;
        }
    }

    /// Warn when a resolved function is called with the wrong number of arguments.
    fn check_arity(&mut self, forms: &[AstNode], list_span: Span)
        requires
            sound(old(self).state()),
            rooted(old(self).hooks(), old(self).state()),
        ensures
            sound(final(self).state()),
            rooted(old(self).hooks(), final(self).state()),
            kept_open(old(self).hooks(), old(self).state(), final(self).state()),
            final(self).hooks() == old(self).hooks(),
            final(self).state() == scoping::check_arity(old(self).state(), forms@, list_span),
    {
        let head = match head_sym(forms) {
            Some(s) => s,
            None => {
                return ;
            },
        };
        let def_byte = match self.lookup(head) {
            Some(b) => b,
            None => {
                return ;
            },
        };
        let (fn_name, expected) = match self.result.defs.get(&def_byte) {
            Some(def) => {
                if def.kind != DefKind::Fn || def.variadic {
                    return ;
                }
                match &def.params {
                    Some(params) => (def.name.clone(), params.len()),
                    None => {
                        return ;
                    },
                }
            },
            None => {
                return ;
            },
        };
        let actual = forms.len() - 1;
        if actual == expected {
            return ;
        }
        // Under-arity: suppress when the last argument might expand to multiple
        // values at runtime.  In Lua, a call in last-argument position expands
        // to all of its return values, so `(f (multi-ret))` is valid even if
        // `f` takes more than one parameter.
        if actual < expected && self.last_arg_may_expand(forms) {
            return ;
        }
        let mut message = quote_name(&fn_name);
        message.append(" expects ");
        push_decimal(&mut message, expected as u128);
        if expected == 1 {
            message.append(" argument");
        } else {
            message.append(" arguments");
        }
        message.append(" but got ");
        push_decimal(&mut message, actual as u128);
        self.warn(message, list_span, None);
    }

    fn last_arg_may_expand(&self, forms: &[AstNode]) -> (r: bool)
        requires
            sound(self.state()),
            forms@.len() > 0,
        ensures
            r == scoping::last_may_expand(self.state(), forms@),
    {
        let last = &forms[forms.len() - 1];
        if tail_may_return_multiple(last) {
            return true;
        }
        match &last.node {
            Form::List(inner) => match head_sym(inner) {
                Some(name) => {
                    let root_name = root(name);
                    match self.lookup(&root_name) {
                        Some(db) => match self.result.defs.get(&db) {
                            Some(d) => d.returns_multiple,
                            None => false,
                        },
                        None => false,
                    }
                },
                None => false,
            },
            _ => false,
        }
    }

    // ── Form dispatch ───────────────────────────────────────────────────────

    /// Analyzes the forms from `from` up to `to`.
    fn analyze_forms(&mut self, forms: &[AstNode], from: usize, to: usize)
        requires
            sound(old(self).state()),
            rooted(old(self).hooks(), old(self).state()),
            to <= forms@.len(),
        ensures
            sound(final(self).state()),
            rooted(old(self).hooks(), final(self).state()),
            kept_open(old(self).hooks(), old(self).state(), final(self).state()),
            final(self).hooks() == old(self).hooks(),
            final(self).state() == scoping::analyze_range(old(self).hooks(), old(self).state(), forms@, from as int, to as int),
        decreases forms@, 0int, forms@.len(),
    {
        let mut i: usize = from;
        while i < to
            invariant
                from <= i,
                to <= forms@.len(),
                sound(self.state()),
                rooted(self.hooks(), self.state()),
                kept_open(self.hooks(), old(self).state(), self.state()),
                self.hooks() == old(self).hooks(),
                scoping::analyze_range(
                    self.hooks(),
                    self.state(),
                    forms@,
                    i as int,
                    to as int,
                ) == scoping::analyze_range(
                    old(self).hooks(),
                    old(self).state(),
                    forms@,
                    from as int,
                    to as int,
                ),
            decreases to - i,
        {
            self.analyze(&forms[i]);
            i = i + 1;
        }
    }

    fn analyze(&mut self, node: &AstNode)
        requires
            sound(old(self).state()),
            rooted(old(self).hooks(), old(self).state()),
        ensures
            sound(final(self).state()),
            rooted(old(self).hooks(), final(self).state()),
            kept_open(old(self).hooks(), old(self).state(), final(self).state()),
            final(self).hooks() == old(self).hooks(),
            final(self).state() == scoping::analyze(old(self).hooks(), old(self).state(), *node),
        decreases node, 0int, 0int,
    {
        match &node.node {
            Form::Symbol(name) => self.reference(name, node.span),
            Form::List(forms) => self.analyze_list(forms, node.span),
            // Tables: analyze all field values (keys may be keywords/strings/symbols)
            Form::Table(fields) => self.analyze_forms(fields, 0, fields.len()),
            Form::Sequence(items) => self.analyze_forms(items, 0, items.len()),
            Form::HashFn(body) => {
                // #(body $) — $ is implicit arg
                self.push_scope(node.span);
                self.define_dollars(node.span);
                self.analyze(body);
                self.pop_scope();
            },
            Form::Quasiquote(inner) => self.analyze_quasiquote(inner),
            // Atoms and quotes carry no scope info
            _ => {},
        }
    }

    fn define_dollars(&mut self, span: Span)
        requires
            sound(old(self).state()),
            rooted(old(self).hooks(), old(self).state()),
        ensures
            sound(final(self).state()),
            rooted(old(self).hooks(), final(self).state()),
            kept_open(old(self).hooks(), old(self).state(), final(self).state()),
            final(self).hooks() == old(self).hooks(),
            final(self).state() == scoping::define_dollars(old(self).state(), scoping::dollar_span(span), 9),
    {
        let end = if span.start < u32::MAX {
            span.start + 1
        } else {
            0
        };
        let end_col = if span.col < u32::MAX {
            span.col + 1
        } else {
            0
        };
        let sign = Span {
            start: span.start,
            end,
            line: span.line,
            col: span.col,
            end_line: span.line,
            end_col,
        };
        self.define("$", sign, DefKind::Param);
        let mut k: usize = 0;
        while k < 9
            invariant
                k <= 9,
                sign == scoping::dollar_span(span),
                sound(self.state()),
                rooted(self.hooks(), self.state()),
                kept_open(self.hooks(), old(self).state(), self.state()),
                self.hooks() == old(self).hooks(),
                self.state() == scoping::define_dollars(old(self).state(), sign, k as nat),
            decreases 9 - k,
        {
            let mut name = String::new();
            name.push('$');
            push_decimal(&mut name, k as u128 + 1);
            assert(name@ =~= seq!['$'] + decimal((k + 1) as nat));
            self.define(&name, sign, DefKind::Param);
            k = k + 1;
        }
    }

    fn analyze_quasiquote(&mut self, node: &AstNode)
        requires
            sound(old(self).state()),
            rooted(old(self).hooks(), old(self).state()),
        ensures
            sound(final(self).state()),
            rooted(old(self).hooks(), final(self).state()),
            kept_open(old(self).hooks(), old(self).state(), final(self).state()),
            final(self).hooks() == old(self).hooks(),
            final(self).state() == scoping::analyze_quasi(old(self).hooks(), old(self).state(), *node),
        decreases node, 0int, 0int,
    {
        match &node.node {
            Form::Unquote(inner) => self.analyze(inner),
            Form::UnquoteSplice(inner) => self.analyze(inner),
            Form::List(forms) => self.quasi_forms(forms),
            Form::Table(forms) => self.quasi_forms(forms),
            Form::Sequence(forms) => self.quasi_forms(forms),
            _ => {},
        }
    }

    fn quasi_forms(&mut self, forms: &Vec<AstNode>)
        requires
            sound(old(self).state()),
            rooted(old(self).hooks(), old(self).state()),
        ensures
            sound(final(self).state()),
            rooted(old(self).hooks(), final(self).state()),
            kept_open(old(self).hooks(), old(self).state(), final(self).state()),
            final(self).hooks() == old(self).hooks(),
            final(self).state() == scoping::quasi_range(old(self).hooks(), old(self).state(), forms@, 0),
        decreases forms@, 0int, forms@.len(),
    {
        let mut i: usize = 0;
        while i < forms.len()
            invariant
                i <= forms@.len(),
                sound(self.state()),
                rooted(self.hooks(), self.state()),
                kept_open(self.hooks(), old(self).state(), self.state()),
                self.hooks() == old(self).hooks(),
                scoping::quasi_range(self.hooks(), self.state(), forms@, i as int)
                    == scoping::quasi_range(old(self).hooks(), old(self).state(), forms@, 0),
            decreases forms@.len() - i,
        {
            self.analyze_quasiquote(&forms[i]);
            i = i + 1;
        }
    }

    fn analyze_list(&mut self, forms: &Vec<AstNode>, list_span: Span)
        requires
            sound(old(self).state()),
            rooted(old(self).hooks(), old(self).state()),
        ensures
            sound(final(self).state()),
            rooted(old(self).hooks(), final(self).state()),
            kept_open(old(self).hooks(), old(self).state(), final(self).state()),
            final(self).hooks() == old(self).hooks(),
            final(self).state() == scoping::analyze_list(old(self).hooks(), old(self).state(), forms@, list_span),
        decreases forms@, 10int, 0int,
    {
        if head_is(forms, "local") {
            self.analyze_binding(forms, DefKind::Local);
        } else if head_is(forms, "var") {
            self.analyze_binding(forms, DefKind::Var);
        } else if head_is(forms, "global") {
            self.analyze_binding(forms, DefKind::Global);
        } else if head_is(forms, "set") {
            self.analyze_set(forms);
        } else if head_is(forms, "fn") || head_is(forms, "lambda") || head_is(forms, "λ") {
            // lambda/λ are identical to fn (with optional name and nil-checking).
            self.analyze_fn(forms, list_span);
        } else if head_is(forms, "let") {
            self.analyze_let(forms, list_span);
        } else if head_is(forms, "do") {
            self.analyze_do(forms, 1, list_span);
        } else if head_is(forms, "if") {
            // No new scope — just walk everything
            self.analyze_forms(forms, 1, forms.len());
        } else if head_is(forms, "when") || head_is(forms, "unless") {
            // condition in current scope; body scoped like `(if cond (do ...))`
            if forms.len() >= 2 {
                self.analyze_forms(forms, 1, 2);
            }
            self.analyze_do(forms, 2, list_span);
        } else if head_is(forms, "while") {
            // Condition is in the outer scope; body gets its own scope.
            if forms.len() >= 2 {
                self.analyze(&forms[1]);
                self.analyze_do(forms, 2, list_span);
            }
        } else if head_is(forms, "each") {
            self.analyze_each(forms, list_span);
        } else if head_is(forms, "for") {
            self.analyze_for(forms, list_span);
        } else if head_is(forms, "macro") {
            self.analyze_macro_def(forms, list_span);
        } else if head_is(forms, "macros") {
            self.analyze_macros_form(forms);
        } else if head_is(forms, "import-macros") {
            self.analyze_import_macros(forms);
        } else if head_is(forms, "match") || head_is(forms, "case") {
            if forms.len() >= 2 {
                self.analyze(&forms[1]);
                self.match_arms(forms, 2, list_span);
            }
        } else if head_is(forms, "case-try") || head_is(forms, "match-try") {
            self.analyze_case_try(forms, list_span);
        } else if head_is(forms, "collect") || head_is(forms, "icollect") {
            self.analyze_collect(forms, list_span);
        } else if head_is(forms, "fcollect") {
            self.analyze_fcollect(forms, list_span);
        } else if head_is(forms, "accumulate") {
            self.analyze_accumulate(forms, list_span);
        } else if head_is(forms, "faccumulate") {
            self.analyze_faccumulate(forms, list_span);
        } else if head_is(forms, "with-open") {
            self.analyze_with_open(forms, list_span);
        } else if head_is(forms, "as->") {
            self.analyze_as_arrow(forms, list_span);
        } else {
            self.analyze_call(forms, list_span);
        }
    }

    /// The macro at the head of a call: its name and the module it comes from.
    fn macro_called(&self, forms: &[AstNode]) -> (r: Option<(String, Option<String>)>)
        requires
            sound(self.state()),
        ensures
            match r {
                Some((name, module)) => {
                    &&& scoping::called_macro(self.state(), forms@) == Some(opt_text(module))
                    &&& head_name(forms@) == Some(name@)
                },
                None => scoping::called_macro(self.state(), forms@) is None,
            },
    {
        let head = match head_sym(forms) {
            Some(s) => s,
            None => {
                return None;
            },
        };
        match self.lookup(head) {
            Some(byte) => match self.result.defs.get(&byte) {
                Some(def) => {
                    if def.kind == DefKind::Macro {
                        Some((head.to_owned(), clone_text(&def.source_module)))
                    } else {
                        None
                    }
                },
                None => None,
            },
            None => None,
        }
    }

    fn note_macro_call(&mut self, start: u32, source_module: Option<String>, name: String)
        requires
            sound(old(self).state()),
            rooted(old(self).hooks(), old(self).state()),
        ensures
            sound(final(self).state()),
            rooted(old(self).hooks(), final(self).state()),
            kept_open(old(self).hooks(), old(self).state(), final(self).state()),
            final(self).hooks() == old(self).hooks(),
            final(self).state() == (State {
                macro_calls: old(self).state().macro_calls.push(
                    (start, opt_text(source_module), name@),
                ),
                ..old(self).state()
            }),
    {
        let ghost st = self.state();
        self.result.macro_calls.push((start, source_module, name));
        assert(self.state().macro_calls =~= st.macro_calls.push(
            (start, opt_text(source_module), name@),
        ));
        proof {
            reveal(sound);
        }
    }

    fn set_in_macro(&mut self, in_macro: bool)
        requires
            sound(old(self).state()),
            rooted(old(self).hooks(), old(self).state()),
        ensures
            sound(final(self).state()),
            rooted(old(self).hooks(), final(self).state()),
            kept_open(old(self).hooks(), old(self).state(), final(self).state()),
            final(self).hooks() == old(self).hooks(),
            final(self).state() == (State { in_macro, ..old(self).state() }),
    {
        self.in_macro = in_macro;
        proof {
            reveal(sound);
        }
    }

    /// Anything else: analyze head + args, then check arity.
    /// If the head resolves to a user-defined macro, record the call site and
    /// either execute cached hook instructions (giving full LSP support) or
    /// fall back to in_macro tagging (suppressing unknown-identifier warnings).
    fn analyze_call(&mut self, forms: &Vec<AstNode>, list_span: Span)
        requires
            sound(old(self).state()),
            rooted(old(self).hooks(), old(self).state()),
        ensures
            sound(final(self).state()),
            rooted(old(self).hooks(), final(self).state()),
            kept_open(old(self).hooks(), old(self).state(), final(self).state()),
            final(self).hooks() == old(self).hooks(),
            final(self).state() == scoping::call_form(old(self).hooks(), old(self).state(), forms@, list_span),
        decreases forms@, 8int, 0int,
    {
        match self.macro_called(forms) {
            Some((macro_name, source_module)) => {
                self.note_macro_call(list_span.start, source_module, macro_name);
                self.analyze(&forms[0]);
                let hooks = self.hook_results;
                match hooks.get(&list_span.start) {
                    Some(instrs) => {
                        proof {
                            reveal(scoping::balanced);
                        }
                        self.execute_hook_instructions(instrs, forms);
                    },
                    None => {
                        let outer = self.in_macro;
                        self.set_in_macro(true);
                        self.analyze_forms(forms, 1, forms.len());
                        self.set_in_macro(outer);
                    },
                }
            },
            None => {
                self.analyze_forms(forms, 0, forms.len());
                self.check_arity(forms, list_span);
            },
        }
    }

    /// Execute hook instructions for a macro call.
    ///
    /// `forms` is the full child list including the macro head at index 0.
    /// Instruction indices are 1-based (matching Lua convention), so index N maps
    /// to `forms[N-1]`.
    fn execute_hook_instructions(&mut self, instructions: &Vec<Instruction>, forms: &Vec<AstNode>)
        requires
            sound(old(self).state()),
            rooted(old(self).hooks(), old(self).state()),
            scoping::balanced(old(self).hooks()) ==> scoping::left_open(
                instructions@,
                instructions@.len() as int,
            ) == Some(0nat),
        ensures
            sound(final(self).state()),
            rooted(old(self).hooks(), final(self).state()),
            kept_open(old(self).hooks(), old(self).state(), final(self).state()),
            final(self).hooks() == old(self).hooks(),
            final(self).state() == scoping::run_hook(old(self).hooks(), old(self).state(), instructions@, 0, forms@),
        decreases forms@, 7int, instructions@.len(),
    {
        let mut i: usize = 0;
        let ghost outer = self.state().open;
        assert(outer.take(outer.len() as int) =~= outer);
        while i < instructions.len()
            invariant
                i <= instructions@.len(),
                outer == old(self).state().open,
                rooted(old(self).hooks(), old(self).state()),
                sound(self.state()),
                rooted(self.hooks(), self.state()),
                scoping::balanced(self.hooks()) ==> {
                    &&& scoping::left_open(instructions@, instructions@.len() as int) == Some(0nat)
                    &&& opened_since(
                        old(self).state().open,
                        self.state().open,
                        scoping::left_open(instructions@, i as int),
                    )
                },
                self.hooks() == old(self).hooks(),
                scoping::run_hook(
                    self.hooks(),
                    self.state(),
                    instructions@,
                    i as int,
                    forms@,
                ) == scoping::run_hook(
                    old(self).hooks(),
                    old(self).state(),
                    instructions@,
                    0,
                    forms@,
                ),
            decreases instructions@.len() - i,
        {
            let ghost open = self.state().open;
            proof {
                left_open_before(instructions@, i + 1, instructions@.len() as int);
            }
            match &instructions[i] {
                Instruction::Bind { name, span } => {
                    self.define(name, *span, DefKind::Local);
                },
                Instruction::Analyze { index } => {
                    if *index >= 1 && *index <= forms.len() {
                        self.analyze(&forms[*index - 1]);
                    }
                },
                Instruction::AnalyzeFn { index } => {
                    if *index >= 1 && *index <= forms.len() {
                        if let Form::List(sub_forms) = &forms[*index - 1].node {
                            self.analyze_fn(sub_forms, forms[*index - 1].span);
                        }
                    }
                },
                Instruction::ScopeOpen { span } => {
                    self.push_scope(*span);
                    let ghost now = self.state().open;
                    assert(now.drop_last() == open);
                    assert(scoping::balanced(self.hooks()) ==> now.take(outer.len() as int)
                        =~= open.take(outer.len() as int));
                },
                Instruction::ScopeClose => {
                    self.pop_scope();
                    let ghost now = self.state().open;
                    assert(scoping::balanced(self.hooks()) ==> now.take(outer.len() as int)
                        =~= open.take(outer.len() as int));
                },
                Instruction::SubFormCompletions { index, completions } => {
                    if *index >= 1 && *index <= forms.len() {
                        self.offer(forms[*index - 1].span, completions);
                    }
                },
                Instruction::AnalyzeChildAt { parent, child } => {
                    if *parent >= 1 && *parent <= forms.len() {
                        match &forms[*parent - 1].node {
                            Form::List(ch) => {
                                if *child >= 1 && *child <= ch.len() {
                                    self.analyze(&ch[*child - 1]);
                                }
                            },
                            Form::Sequence(ch) => {
                                if *child >= 1 && *child <= ch.len() {
                                    self.analyze(&ch[*child - 1]);
                                }
                            },
                            _ => {},
                        }
                    }
                },
            }
            i = i + 1;
        }
        let ghost now = self.state().open;
        assert(now.take(now.len() as int) =~= now);
    }

    /// Records completions that are offered inside a span.
    fn offer(&mut self, span: Span, completions: &Vec<String>)
        requires
            sound(old(self).state()),
            rooted(old(self).hooks(), old(self).state()),
        ensures
            sound(final(self).state()),
            rooted(old(self).hooks(), final(self).state()),
            kept_open(old(self).hooks(), old(self).state(), final(self).state()),
            final(self).hooks() == old(self).hooks(),
            final(self).state() == (State {
                offers: old(self).state().offers + scoping::offers_at(span, texts(completions@)),
                ..old(self).state()
            }),
    {
        let ghost st = self.state();
        let ghost all = scoping::offers_at(span, texts(completions@));
        let mut i: usize = 0;
        assert(st.offers + all.take(0) =~= st.offers);
        while i < completions.len()
            invariant
                i <= completions@.len(),
                all == scoping::offers_at(span, texts(completions@)),
                sound(st),
                rooted(self.hooks(), st),
                self.hooks() == old(self).hooks(),
                self.state() == (State { offers: st.offers + all.take(i as int), ..st }),
            decreases completions@.len() - i,
        {
            let ghost before = self.state().offers;
            self.result.offers.push((span, completions[i].clone()));
            assert(self.state().offers =~= before.push((span, completions@[i as int]@)));
            assert(all.take(i + 1) =~= all.take(i as int).push(all[i as int]));
            assert(before.push(all[i as int]) =~= st.offers + all.take(i + 1));
            i = i + 1;
        }
        assert(all.take(all.len() as int) =~= all);
        proof {
            reveal(sound);
        }
    }

    // ── (local name val) / (var name val) / (global name val) ───────────────

    fn analyze_binding(&mut self, forms: &Vec<AstNode>, kind: DefKind)
        requires
            sound(old(self).state()),
            rooted(old(self).hooks(), old(self).state()),
        ensures
            sound(final(self).state()),
            rooted(old(self).hooks(), final(self).state()),
            kept_open(old(self).hooks(), old(self).state(), final(self).state()),
            final(self).hooks() == old(self).hooks(),
            final(self).state() == scoping::binding(old(self).hooks(), old(self).state(), forms@, kind),
        decreases forms@, 5int, 0int,
    {
        if forms.len() < 3 {
            return ;
        }
        // Evaluate RHS first (so it doesn't see the new binding)
        self.analyze(&forms[2]);
        if let Some(name) = symbol_name(&forms[1]) {
            // Cross-scope shadow check for explicit local/var
            if kind != DefKind::Global {
                self.check_outer_shadow(name, forms[1].span);
            }
            // Detect (local name (require :mod)) → record module bindings
            if let Some(module) = extract_require_module(&forms[2]) {
                self.note_require(name, forms[1].span, module);
            }
        }
        self.bind_pattern(&forms[1], kind);
        // Record table shape for field completions
        self.set_table_fields(&forms[1], &forms[2]);
    }

    fn note_require(&mut self, name: &str, span: Span, module: String)
        requires
            sound(old(self).state()),
            rooted(old(self).hooks(), old(self).state()),
        ensures
            sound(final(self).state()),
            rooted(old(self).hooks(), final(self).state()),
            kept_open(old(self).hooks(), old(self).state(), final(self).state()),
            final(self).hooks() == old(self).hooks(),
            final(self).state() == scoping::note_require(old(self).state(), name@, span, Some(module@)),
    {
        let ghost st = self.state();
        self.result.module_bindings.insert(name, module.clone());
        self.result.require_def_bytes.insert(span.start, module);
        assert(self.state().requires_at =~= st.requires_at.insert(span.start, module@));
        assert(self.state() =~= scoping::note_require(st, name@, span, Some(module@)));
        proof {
            reveal(sound);
        }
    }

    // ── (set name val) ──────────────────────────────────────────────────────

    fn analyze_set(&mut self, forms: &Vec<AstNode>)
        requires
            sound(old(self).state()),
            rooted(old(self).hooks(), old(self).state()),
        ensures
            sound(final(self).state()),
            rooted(old(self).hooks(), final(self).state()),
            kept_open(old(self).hooks(), old(self).state(), final(self).state()),
            final(self).hooks() == old(self).hooks(),
            final(self).state() == scoping::set_form(old(self).hooks(), old(self).state(), forms@),
        decreases forms@, 5int, 0int,
    {
        if forms.len() < 3 {
            return ;
        }
        if let Some(name) = symbol_name(&forms[1]) {
            self.note_set(name, forms[1].span);
            self.reference(name, forms[1].span);
        }
        self.analyze(&forms[2]);
    }

    fn note_set(&mut self, name: &str, span: Span)
        requires
            sound(old(self).state()),
            rooted(old(self).hooks(), old(self).state()),
        ensures
            sound(final(self).state()),
            rooted(old(self).hooks(), final(self).state()),
            kept_open(old(self).hooks(), old(self).state(), final(self).state()),
            final(self).hooks() == old(self).hooks(),
            final(self).state() == scoping::note_set(old(self).state(), name@, span),
    {
        let ghost st = self.state();
        let root_name = root(name);
        if let Some(def_byte) = self.lookup(&root_name) {
            let (def_name, kind) = match self.result.defs.get(&def_byte) {
                Some(def) => (def.name.clone(), def.kind),
                None => {
                    return ;
                },
            };
            if kind == DefKind::Local || kind == DefKind::Fn {
                let mut message = quote_name(&def_name);
                message.append(" is immutable; use `var` instead of `local` to allow mutation");
                self.warn(message, span, None);
            } else if kind == DefKind::Var {
                self.mutation_targets.insert(def_byte);
                assert(self.state() =~= State { mutated: st.mutated.insert(def_byte), ..st });
                proof {
                    reveal(sound);
                }
            }
        }
    }

    // ── (fn name? [params] body...) ─────────────────────────────────────────

    fn analyze_fn(&mut self, forms: &Vec<AstNode>, list_span: Span)
        requires
            sound(old(self).state()),
            rooted(old(self).hooks(), old(self).state()),
        ensures
            sound(final(self).state()),
            rooted(old(self).hooks(), final(self).state()),
            kept_open(old(self).hooks(), old(self).state(), final(self).state()),
            final(self).hooks() == old(self).hooks(),
            final(self).state() == scoping::fn_form(old(self).hooks(), old(self).state(), forms@, list_span),
        decreases forms@, 5int, 0int,
    {
        if forms.len() < 2 {
            return ;
        }
        // Optional name
        let named = symbol_name(&forms[1]);
        if let Some(name) = named {
            self.define(name, forms[1].span, DefKind::Fn);
        }
        let parts = fn_parts(forms);
        self.push_scope(list_span);
        if let Some(params) = parts.params {
            self.bind_params(params);
        }
        // Patch the function's definition with param names, variadic flag, and return info.
        if named.is_some() {
            self.describe_fn(forms);
            self.note_rest(forms);
        }
        self.analyze_forms(forms, parts.body, forms.len());
        self.pop_scope();
    }

    fn note_rest(&mut self, forms: &Vec<AstNode>)
        requires
            sound(old(self).state()),
            rooted(old(self).hooks(), old(self).state()),
            forms@.len() >= 2,
        ensures
            sound(final(self).state()),
            rooted(old(self).hooks(), final(self).state()),
            kept_open(old(self).hooks(), old(self).state(), final(self).state()),
            final(self).hooks() == old(self).hooks(),
            final(self).state() == scoping::note_rest(
                old(self).state(),
                forms@[1].span.start,
                forms@,
            ),
    {
        let ghost st = self.state();
        if let Some(params) = fn_parts(forms).params {
            if let Some(n) = named_before_rest(params) {
                self.result.rest_params.insert(forms[1].span.start, n);
                assert(self.state() =~= scoping::note_rest(st, forms@[1].span.start, forms@));
                proof {
                    reveal(sound);
                }
            }
        }
    }

    fn describe_fn(&mut self, forms: &Vec<AstNode>)
        requires
            sound(old(self).state()),
            rooted(old(self).hooks(), old(self).state()),
            forms@.len() >= 2,
        ensures
            sound(final(self).state()),
            rooted(old(self).hooks(), final(self).state()),
            kept_open(old(self).hooks(), old(self).state(), final(self).state()),
            final(self).hooks() == old(self).hooks(),
            final(self).state() == scoping::update_def(
                old(self).state(),
                forms@[1].span.start,
                |d: DefinitionView| scoping::described(d, forms@),
            ),
    {
        let ghost st = self.state();
        let byte = forms[1].span.start;
        let parts = fn_parts(forms);
        let n = forms.len();
        let (names, variadic) = match parts.params {
            Some(params) => (param_names(params), has_rest(params)),
            None => {
                let none: Vec<String> = Vec::new();
                assert(texts(none@) =~= Seq::<Seq<char>>::empty());
                (none, false)
            },
        };
        let doc = if parts.body < n {
            match &forms[parts.body].node {
                Form::Str(s) => Some(s.clone()),
                _ => None,
            }
        } else {
            None
        };
        // Detect whether the last body expression may return multiple values.
        let returns_multiple = parts.body < n && tail_may_return_multiple(&forms[n - 1]);
        if let Some(mut def) = self.take_def(byte) {
            def.params = Some(names);
            def.doc = doc;
            def.variadic = variadic;
            def.returns_multiple = returns_multiple;
            assert(def@ =~= scoping::described(st.defs[byte], forms@));
            self.restore_def(byte, def, Ghost(st));
        } else {
            assert(self.state() =~= st);
        }
    }

    // ── (let [k1 v1 k2 v2 ...] body) ────────────────────────────────────────

    fn analyze_let(&mut self, forms: &Vec<AstNode>, list_span: Span)
        requires
            sound(old(self).state()),
            rooted(old(self).hooks(), old(self).state()),
        ensures
            sound(final(self).state()),
            rooted(old(self).hooks(), final(self).state()),
            kept_open(old(self).hooks(), old(self).state(), final(self).state()),
            final(self).hooks() == old(self).hooks(),
            final(self).state() == scoping::let_form(old(self).hooks(), old(self).state(), forms@, list_span),
        decreases forms@, 5int, 0int,
    {
        if forms.len() < 2 {
            return ;
        }
        self.push_scope(list_span);
        // Named let: (let name [bindings...] body...)
        // All initial values are evaluated before any name is bound (like fn args),
        // then the loop name and all params enter scope together for the body.
        if let Some(loop_name) = symbol_name(&forms[1]) {
            if forms.len() >= 3 {
                if let Form::Sequence(bindings) = &forms[2].node {
                    self.analyze_pair_values(bindings);
                    self.define(loop_name, forms[1].span, DefKind::Local);
                    self.bind_pair_names(bindings);
                    self.analyze_forms(forms, 3, forms.len());
                    self.pop_scope();
                    return ;
                }
            }
        }
        // Standard let: (let [bindings...] body...)
        if let Form::Sequence(bindings) = &forms[1].node {
            self.analyze_let_pairs(bindings);
        }
        self.analyze_forms(forms, 2, forms.len());
        self.pop_scope();
    }

    fn analyze_pair_values(&mut self, s: &Vec<AstNode>)
        requires
            sound(old(self).state()),
            rooted(old(self).hooks(), old(self).state()),
        ensures
            sound(final(self).state()),
            rooted(old(self).hooks(), final(self).state()),
            kept_open(old(self).hooks(), old(self).state(), final(self).state()),
            final(self).hooks() == old(self).hooks(),
            final(self).state() == scoping::pair_values(old(self).hooks(), old(self).state(), s@, 0),
        decreases s@, 1int, s@.len(),
    {
        let mut i: usize = 0;
        while i < s.len() && i + 1 < s.len()
            invariant
                i <= s@.len() + 1,
                sound(self.state()),
                rooted(self.hooks(), self.state()),
                kept_open(self.hooks(), old(self).state(), self.state()),
                self.hooks() == old(self).hooks(),
                scoping::pair_values(self.hooks(), self.state(), s@, i as int)
                    == scoping::pair_values(old(self).hooks(), old(self).state(), s@, 0),
            decreases s@.len() + 1 - i,
        {
            self.analyze(&s[i + 1]);
            i = i + 2;
        }
    }

    fn bind_pair_names(&mut self, s: &Vec<AstNode>)
        requires
            sound(old(self).state()),
            rooted(old(self).hooks(), old(self).state()),
        ensures
            sound(final(self).state()),
            rooted(old(self).hooks(), final(self).state()),
            kept_open(old(self).hooks(), old(self).state(), final(self).state()),
            final(self).hooks() == old(self).hooks(),
            final(self).state() == scoping::pair_names(old(self).state(), s@, 0),
    {
        let mut i: usize = 0;
        while i < s.len() && i + 1 < s.len()
            invariant
                i <= s@.len() + 1,
                sound(self.state()),
                rooted(self.hooks(), self.state()),
                kept_open(self.hooks(), old(self).state(), self.state()),
                self.hooks() == old(self).hooks(),
                scoping::pair_names(self.state(), s@, i as int) == scoping::pair_names(
                    old(self).state(),
                    s@,
                    0,
                ),
            decreases s@.len() + 1 - i,
        {
            self.bind_pattern(&s[i], DefKind::Local);
            i = i + 2;
        }
    }

    fn analyze_let_pairs(&mut self, s: &Vec<AstNode>)
        requires
            sound(old(self).state()),
            rooted(old(self).hooks(), old(self).state()),
        ensures
            sound(final(self).state()),
            rooted(old(self).hooks(), final(self).state()),
            kept_open(old(self).hooks(), old(self).state(), final(self).state()),
            final(self).hooks() == old(self).hooks(),
            final(self).state() == scoping::let_pairs(old(self).hooks(), old(self).state(), s@, 0),
        decreases s@, 1int, s@.len(),
    {
        let mut i: usize = 0;
        while i < s.len() && i + 1 < s.len()
            invariant
                i <= s@.len() + 1,
                sound(self.state()),
                rooted(self.hooks(), self.state()),
                kept_open(self.hooks(), old(self).state(), self.state()),
                self.hooks() == old(self).hooks(),
                scoping::let_pairs(self.hooks(), self.state(), s@, i as int) == scoping::let_pairs(
                    old(self).hooks(),
                    old(self).state(),
                    s@,
                    0,
                ),
            decreases s@.len() + 1 - i,
        {
            self.analyze(&s[i + 1]);
            // Cross-scope shadow check for plain symbol let-bindings
            if let Some(name) = symbol_name(&s[i]) {
                self.check_outer_shadow(name, s[i].span);
            }
            self.bind_pattern(&s[i], DefKind::Local);
            self.set_table_fields(&s[i], &s[i + 1]);
            i = i + 2;
        }
    }

    /// Analyzes the forms from `from` on in a scope of their own.
    fn analyze_do(&mut self, forms: &Vec<AstNode>, from: usize, span: Span)
        requires
            sound(old(self).state()),
            rooted(old(self).hooks(), old(self).state()),
        ensures
            sound(final(self).state()),
            rooted(old(self).hooks(), final(self).state()),
            kept_open(old(self).hooks(), old(self).state(), final(self).state()),
            final(self).hooks() == old(self).hooks(),
            final(self).state() == scoping::scoped(old(self).hooks(), old(self).state(), forms@, from as int, span),
        decreases forms@, 4int, 0int,
    {
        self.push_scope(span);
        self.analyze_forms(forms, from, forms.len());
        self.pop_scope();
    }

    /// Loop variables, then the iterator, which does not see them.
    fn analyze_iterated(&mut self, binds: &Vec<AstNode>, from: usize, end: usize)
        requires
            sound(old(self).state()),
            rooted(old(self).hooks(), old(self).state()),
            end <= binds@.len(),
        ensures
            sound(final(self).state()),
            rooted(old(self).hooks(), final(self).state()),
            kept_open(old(self).hooks(), old(self).state(), final(self).state()),
            final(self).hooks() == old(self).hooks(),
            final(self).state() == scoping::iterated(old(self).hooks(), old(self).state(), binds@, from as int, end as int),
        decreases binds@, 1int, 0int,
    {
        if from < end {
            self.analyze(&binds[end - 1]);
            self.bind_loop_vars(binds, from, end - 1);
        }
    }

    /// What stands behind a modifier.
    fn analyze_behind(&mut self, binds: &Vec<AstNode>, p: usize)
        requires
            sound(old(self).state()),
            rooted(old(self).hooks(), old(self).state()),
        ensures
            sound(final(self).state()),
            rooted(old(self).hooks(), final(self).state()),
            kept_open(old(self).hooks(), old(self).state(), final(self).state()),
            final(self).hooks() == old(self).hooks(),
            final(self).state() == scoping::behind(old(self).hooks(), old(self).state(), binds@, p as int),
        decreases binds@, 1int, 0int,
    {
        if p < binds.len() && p + 1 < binds.len() {
            self.analyze(&binds[p + 1]);
        }
    }

    // ── (each [k v iter] body...) ───────────────────────────────────────────

    fn analyze_each(&mut self, forms: &Vec<AstNode>, list_span: Span)
        requires
            sound(old(self).state()),
            rooted(old(self).hooks(), old(self).state()),
        ensures
            sound(final(self).state()),
            rooted(old(self).hooks(), final(self).state()),
            kept_open(old(self).hooks(), old(self).state(), final(self).state()),
            final(self).hooks() == old(self).hooks(),
            final(self).state() == scoping::each_form(old(self).hooks(), old(self).state(), forms@, list_span),
        decreases forms@, 5int, 0int,
    {
        if forms.len() < 2 {
            return ;
        }
        self.push_scope(list_span);
        if let Form::Sequence(binds) = &forms[1].node {
            let end = find_modifier(binds, "&until", "&until");
            self.analyze_iterated(binds, 0, end);
            self.analyze_behind(binds, end);
        }
        self.analyze_forms(forms, 2, forms.len());
        self.pop_scope();
    }

    // ── (for [i start stop step?] body...) ──────────────────────────────────

    fn analyze_for(&mut self, forms: &Vec<AstNode>, list_span: Span)
        requires
            sound(old(self).state()),
            rooted(old(self).hooks(), old(self).state()),
        ensures
            sound(final(self).state()),
            rooted(old(self).hooks(), final(self).state()),
            kept_open(old(self).hooks(), old(self).state(), final(self).state()),
            final(self).hooks() == old(self).hooks(),
            final(self).state() == scoping::for_form(old(self).hooks(), old(self).state(), forms@, list_span),
        decreases forms@, 5int, 0int,
    {
        if forms.len() < 3 {
            return ;
        }
        self.push_scope(list_span);
        if let Form::Sequence(binds) = &forms[1].node {
            if binds.len() >= 3 {
                // Analyze start, stop, and optional step before binding the var.
                self.analyze_forms(binds, 1, binds.len());
                self.bind_pattern(&binds[0], DefKind::LoopVar);
            }
        }
        self.analyze_forms(forms, 2, forms.len());
        self.pop_scope();
    }

    // ── (macro name [params] body) ──────────────────────────────────────────

    fn analyze_macro_def(&mut self, forms: &Vec<AstNode>, list_span: Span)
        requires
            sound(old(self).state()),
            rooted(old(self).hooks(), old(self).state()),
        ensures
            sound(final(self).state()),
            rooted(old(self).hooks(), final(self).state()),
            kept_open(old(self).hooks(), old(self).state(), final(self).state()),
            final(self).hooks() == old(self).hooks(),
            final(self).state() == scoping::macro_form(old(self).hooks(), old(self).state(), forms@, list_span),
        decreases forms@, 6int, 0int,
    {
        if forms.len() < 3 {
            return ;
        }
        // Macro definitions have the same structure as `fn`: name + params + body.
        // Analyzing the body gives hover/go-to-def for names inside the macro.
        self.analyze_fn(forms, list_span);
        // Re-tag the definition as Macro rather than Fn.
        if symbol_name(&forms[1]).is_some() {
            let ghost st = self.state();
            let byte = forms[1].span.start;
            if let Some(mut def) = self.take_def(byte) {
                def.kind = DefKind::Macro;
                self.restore_def(byte, def, Ghost(st));
            } else {
                assert(self.state() =~= st);
            }
        }
    }

    // ── (macros {name fn ...}) ──────────────────────────────────────────────

    fn analyze_macros_form(&mut self, forms: &Vec<AstNode>)
        requires
            sound(old(self).state()),
            rooted(old(self).hooks(), old(self).state()),
        ensures
            sound(final(self).state()),
            rooted(old(self).hooks(), final(self).state()),
            kept_open(old(self).hooks(), old(self).state(), final(self).state()),
            final(self).hooks() == old(self).hooks(),
            final(self).state() == scoping::macros_form(old(self).state(), forms@),
    {
        if forms.len() < 2 {
            return ;
        }
        if let Form::Table(fields) = &forms[1].node {
            let mut i: usize = 0;
            while i < fields.len() && i + 1 < fields.len()
                invariant
                    i <= fields@.len() + 1,
                    sound(self.state()),
                rooted(self.hooks(), self.state()),
                kept_open(self.hooks(), old(self).state(), self.state()),
                    self.hooks() == old(self).hooks(),
                    scoping::macro_pairs(self.state(), fields@, i as int) == scoping::macro_pairs(
                        old(self).state(),
                        fields@,
                        0,
                    ),
                decreases fields@.len() + 1 - i,
            {
                if let Some(name) = symbol_name(&fields[i]) {
                    self.define(name, fields[i].span, DefKind::Macro);
                }
                i = i + 2;
            }
        }
    }

    // ── (import-macros {name :local} :module) ───────────────────────────────

    fn analyze_import_macros(&mut self, forms: &Vec<AstNode>)
        requires
            sound(old(self).state()),
            rooted(old(self).hooks(), old(self).state()),
        ensures
            sound(final(self).state()),
            rooted(old(self).hooks(), final(self).state()),
            kept_open(old(self).hooks(), old(self).state(), final(self).state()),
            final(self).hooks() == old(self).hooks(),
            final(self).state() == scoping::import_macros_form(old(self).state(), forms@),
    {
        if forms.len() < 2 {
            return ;
        }
        // Extract the module path string (forms[2] is the module argument).
        let module = if forms.len() > 2 {
            key_text(&forms[2])
        } else {
            None
        };
        if let Form::Table(fields) = &forms[1].node {
            let mut i: usize = 0;
            while i < fields.len() && i + 1 < fields.len()
                invariant
                    i <= fields@.len() + 1,
                    sound(self.state()),
                rooted(self.hooks(), self.state()),
                kept_open(self.hooks(), old(self).state(), self.state()),
                    self.hooks() == old(self).hooks(),
                    scoping::import_fields(self.state(), fields@, i as int, opt_text(module))
                        == scoping::import_fields(
                        old(self).state(),
                        fields@,
                        0,
                        opt_text(module),
                    ),
                decreases fields@.len() + 1 - i,
            {
                // Paired element — binding name is always at fields[i+1]:
                //   {: foo}         → [sym(":"), sym("foo")]  → bind "foo"
                //   {:remote local} → [kw(...), sym("local")] → bind "local"
                self.import_macro(&fields[i + 1], &module);
                i = i + 2;
            }
            if i < fields.len() {
                // Standalone trailing symbol — shorthand for {: name}:
                //   {defnode}  →  bind "defnode"
                self.import_macro(&fields[i], &module);
            }
        }
    }

    fn import_macro(&mut self, node: &AstNode, module: &Option<String>)
        requires
            sound(old(self).state()),
            rooted(old(self).hooks(), old(self).state()),
        ensures
            sound(final(self).state()),
            rooted(old(self).hooks(), final(self).state()),
            kept_open(old(self).hooks(), old(self).state(), final(self).state()),
            final(self).hooks() == old(self).hooks(),
            final(self).state() == scoping::import_macro(old(self).state(), *node, opt_text(*module)),
    {
        if let Some(name) = symbol_name(node) {
            let byte = node.span.start;
            self.define(name, node.span, DefKind::Macro);
            let ghost st = self.state();
            if let Some(mut def) = self.take_def(byte) {
                def.source_module = clone_text(module);
                self.restore_def(byte, def, Ghost(st));
            } else {
                assert(self.state() =~= st);
            }
        }
    }

    // ── (case-try val pat body ... catch pat body) ──────────────────────────
    // Each arm's pattern bindings accumulate into a single shared scope so that
    // later bodies can reference symbols bound in earlier arms.

    fn analyze_case_try(&mut self, forms: &Vec<AstNode>, list_span: Span)
        requires
            sound(old(self).state()),
            rooted(old(self).hooks(), old(self).state()),
        ensures
            sound(final(self).state()),
            rooted(old(self).hooks(), final(self).state()),
            kept_open(old(self).hooks(), old(self).state(), final(self).state()),
            final(self).hooks() == old(self).hooks(),
            final(self).state() == (if forms@.len() < 2 {
                old(self).state()
            } else {
                scoping::pop_scope(
                    scoping::try_arms(
                        old(self).hooks(),
                        scoping::push_scope(
                            scoping::analyze(old(self).hooks(), old(self).state(), forms@[1]),
                            list_span,
                        ),
                        forms@,
                        2,
                        list_span,
                    ),
                )
            }),
        decreases forms@, 6int, 0int,
    {
        if forms.len() < 2 {
            return ;
        }
        self.analyze(&forms[1]);  // initial value
        // One accumulated scope for all non-catch arms
        self.push_scope(list_span);
        self.try_arms(forms, list_span);
        self.pop_scope();
    }

    fn try_arms(&mut self, forms: &Vec<AstNode>, list_span: Span)
        requires
            sound(old(self).state()),
            rooted(old(self).hooks(), old(self).state()),
            forms@.len() >= 2,
        ensures
            sound(final(self).state()),
            rooted(old(self).hooks(), final(self).state()),
            kept_open(old(self).hooks(), old(self).state(), final(self).state()),
            final(self).hooks() == old(self).hooks(),
            final(self).state() == scoping::try_arms(old(self).hooks(), old(self).state(), forms@, 2, list_span),
        decreases forms@, 4int, forms@.len(),
    {
        let mut i: usize = 2;
        while i < forms.len()
            invariant
                i <= forms@.len(),
                sound(self.state()),
                rooted(self.hooks(), self.state()),
                kept_open(self.hooks(), old(self).state(), self.state()),
                self.hooks() == old(self).hooks(),
                scoping::try_arms(self.hooks(), self.state(), forms@, i as int, list_span)
                    == scoping::try_arms(
                    old(self).hooks(),
                    old(self).state(),
                    forms@,
                    2,
                    list_span,
                ),
            decreases forms@.len() - i,
        {
            // Bare `catch` keyword (old syntax: ... catch pat body ...)
            if is_symbol(&forms[i], "catch") {
                self.match_arms(forms, i + 1, list_span);
                return ;
            }
            // Parenthesised `(catch pat body ...)` syntax
            if let Form::List(items) = &forms[i].node {
                if head_is(items, "catch") {
                    self.match_arms(items, 1, list_span);
                    return ;
                }
            }
            if i + 1 < forms.len() {
                self.bind_match_pattern(&forms[i]);
                self.analyze(&forms[i + 1]);
                i = i + 2;
            } else {
                return ;
            }
        }
    }

    // ── (match val pat body ...) ────────────────────────────────────────────

    /// The arms from `from` on: each pattern binds in a scope of its own.
    fn match_arms(&mut self, forms: &Vec<AstNode>, from: usize, list_span: Span)
        requires
            sound(old(self).state()),
            rooted(old(self).hooks(), old(self).state()),
            from <= forms@.len(),
        ensures
            sound(final(self).state()),
            rooted(old(self).hooks(), final(self).state()),
            kept_open(old(self).hooks(), old(self).state(), final(self).state()),
            final(self).hooks() == old(self).hooks(),
            final(self).state() == scoping::match_arms(old(self).hooks(), old(self).state(), forms@, from as int, list_span),
        decreases forms@, 3int, forms@.len(),
    {
        let mut i: usize = from;
        while i < forms.len() && i + 1 < forms.len()
            invariant
                i <= forms@.len() + 1,
                sound(self.state()),
                rooted(self.hooks(), self.state()),
                kept_open(self.hooks(), old(self).state(), self.state()),
                self.hooks() == old(self).hooks(),
                scoping::match_arms(self.hooks(), self.state(), forms@, i as int, list_span)
                    == scoping::match_arms(
                    old(self).hooks(),
                    old(self).state(),
                    forms@,
                    from as int,
                    list_span,
                ),
            decreases forms@.len() + 1 - i,
        {
            self.push_scope(list_span);
            // Bind pattern names (symbols in pattern that aren't keywords)
            self.bind_match_pattern(&forms[i]);
            self.analyze(&forms[i + 1]);
            self.pop_scope();
            i = i + 2;
        }
    }

    // ── (collect [k v iter] body) / (icollect [v iter] body) ────────────────

    fn analyze_collect(&mut self, forms: &Vec<AstNode>, list_span: Span)
        requires
            sound(old(self).state()),
            rooted(old(self).hooks(), old(self).state()),
        ensures
            sound(final(self).state()),
            rooted(old(self).hooks(), final(self).state()),
            kept_open(old(self).hooks(), old(self).state(), final(self).state()),
            final(self).hooks() == old(self).hooks(),
            final(self).state() == scoping::collect_form(old(self).hooks(), old(self).state(), forms@, list_span),
        decreases forms@, 5int, 0int,
    {
        if forms.len() < 2 {
            return ;
        }
        self.push_scope(list_span);
        if let Form::Sequence(binds) = &forms[1].node {
            // Everything before the first modifier is loop-vars + iter-expr
            let end = find_modifier(binds, "&into", "&until");
            self.analyze_iterated(binds, 0, end);
            self.analyze_modifiers(binds, end);
        }
        self.analyze_forms(forms, 2, forms.len());
        self.pop_scope();
    }

    /// Process modifiers (&into target, &until cond)
    fn analyze_modifiers(&mut self, binds: &Vec<AstNode>, from: usize)
        requires
            sound(old(self).state()),
            rooted(old(self).hooks(), old(self).state()),
            from <= binds@.len(),
        ensures
            sound(final(self).state()),
            rooted(old(self).hooks(), final(self).state()),
            kept_open(old(self).hooks(), old(self).state(), final(self).state()),
            final(self).hooks() == old(self).hooks(),
            final(self).state() == scoping::modifiers(old(self).hooks(), old(self).state(), binds@, from as int),
        decreases binds@, 1int, binds@.len(),
    {
        let mut i: usize = from;
        while i < binds.len()
            invariant
                i <= binds@.len(),
                sound(self.state()),
                rooted(self.hooks(), self.state()),
                kept_open(self.hooks(), old(self).state(), self.state()),
                self.hooks() == old(self).hooks(),
                scoping::modifiers(self.hooks(), self.state(), binds@, i as int)
                    == scoping::modifiers(
                    old(self).hooks(),
                    old(self).state(),
                    binds@,
                    from as int,
                ),
            decreases binds@.len() - i,
        {
            if (is_symbol(&binds[i], "&into") || is_symbol(&binds[i], "&until")) && i + 1
                < binds.len() {
                self.analyze(&binds[i + 1]);
                i = i + 2;
            } else {
                i = i + 1;
            }
        }
    }

    // ── (fcollect [i start stop step? &until cond? &into t?] body) ──────────

    fn analyze_fcollect(&mut self, forms: &Vec<AstNode>, list_span: Span)
        requires
            sound(old(self).state()),
            rooted(old(self).hooks(), old(self).state()),
        ensures
            sound(final(self).state()),
            rooted(old(self).hooks(), final(self).state()),
            kept_open(old(self).hooks(), old(self).state(), final(self).state()),
            final(self).hooks() == old(self).hooks(),
            final(self).state() == scoping::fcollect_form(old(self).hooks(), old(self).state(), forms@, list_span),
        decreases forms@, 5int, 0int,
    {
        if forms.len() < 2 {
            return ;
        }
        self.push_scope(list_span);
        if let Form::Sequence(binds) = &forms[1].node {
            if binds.len() > 0 {
                // Range expressions (start, stop, step) end at the first modifier
                let end = find_modifier(binds, "&into", "&until");
                self.analyze_forms(binds, 1, end);
                // Bind the loop variable before analyzing modifiers so the
                // &until guard can reference it
                self.bind_pattern(&binds[0], DefKind::LoopVar);
                self.analyze_behind(binds, find_modifier(binds, "&until", "&until"));
                self.analyze_behind(binds, find_modifier(binds, "&into", "&into"));
            }
        }
        self.analyze_forms(forms, 2, forms.len());
        self.pop_scope();
    }

    // ── (accumulate [acc init iter-vars... iter-expr &until cond?] body) ────

    fn analyze_accumulate(&mut self, forms: &Vec<AstNode>, list_span: Span)
        requires
            sound(old(self).state()),
            rooted(old(self).hooks(), old(self).state()),
        ensures
            sound(final(self).state()),
            rooted(old(self).hooks(), final(self).state()),
            kept_open(old(self).hooks(), old(self).state(), final(self).state()),
            final(self).hooks() == old(self).hooks(),
            final(self).state() == scoping::accumulate_form(old(self).hooks(), old(self).state(), forms@, list_span),
        decreases forms@, 5int, 0int,
    {
        if forms.len() < 2 {
            return ;
        }
        self.push_scope(list_span);
        if let Form::Sequence(binds) = &forms[1].node {
            if binds.len() >= 2 {
                // Find &until boundary if present
                let end = find_modifier(binds, "&until", "&until");
                self.analyze(&binds[1]);  // init value
                self.bind_pattern(&binds[0], DefKind::Local);  // acc binding
                // Last element before &until is the iterator expression
                self.analyze_iterated(binds, 2, end);
                // Analyze the &until guard (its condition can reference loop vars)
                self.analyze_behind(binds, end);
            }
        }
        self.analyze_forms(forms, 2, forms.len());
        self.pop_scope();
    }

    // ── (faccumulate [acc init var start stop step? &until cond?] body) ─────

    /// Unlike accumulate, the range elements (start/stop/step) are numeric
    /// expressions, not loop-var patterns — they must be analyzed, not bound.
    fn analyze_faccumulate(&mut self, forms: &Vec<AstNode>, list_span: Span)
        requires
            sound(old(self).state()),
            rooted(old(self).hooks(), old(self).state()),
        ensures
            sound(final(self).state()),
            rooted(old(self).hooks(), final(self).state()),
            kept_open(old(self).hooks(), old(self).state(), final(self).state()),
            final(self).hooks() == old(self).hooks(),
            final(self).state() == scoping::faccumulate_form(old(self).hooks(), old(self).state(), forms@, list_span),
        decreases forms@, 5int, 0int,
    {
        if forms.len() < 2 {
            return ;
        }
        self.push_scope(list_span);
        if let Form::Sequence(binds) = &forms[1].node {
            if binds.len() >= 5 {
                let end = find_modifier(binds, "&until", "&until");
                // Analyze init before binding acc
                self.analyze(&binds[1]);
                self.bind_pattern(&binds[0], DefKind::Local);
                // Analyze start/stop/step before binding the loop var
                self.analyze_forms(binds, 3, end);
                self.bind_pattern(&binds[2], DefKind::LoopVar);
                self.analyze_behind(binds, end);
            }
        }
        self.analyze_forms(forms, 2, forms.len());
        self.pop_scope();
    }

    // ── (with-open [name expr ...] body) ────────────────────────────────────

    fn analyze_with_open(&mut self, forms: &Vec<AstNode>, list_span: Span)
        requires
            sound(old(self).state()),
            rooted(old(self).hooks(), old(self).state()),
        ensures
            sound(final(self).state()),
            rooted(old(self).hooks(), final(self).state()),
            kept_open(old(self).hooks(), old(self).state(), final(self).state()),
            final(self).hooks() == old(self).hooks(),
            final(self).state() == scoping::with_open_form(old(self).hooks(), old(self).state(), forms@, list_span),
        decreases forms@, 5int, 0int,
    {
        if forms.len() < 2 {
            return ;
        }
        self.push_scope(list_span);
        if let Form::Sequence(binds) = &forms[1].node {
            self.analyze_open_pairs(binds);
        }
        self.analyze_forms(forms, 2, forms.len());
        self.pop_scope();
    }

    fn analyze_open_pairs(&mut self, s: &Vec<AstNode>)
        requires
            sound(old(self).state()),
            rooted(old(self).hooks(), old(self).state()),
        ensures
            sound(final(self).state()),
            rooted(old(self).hooks(), final(self).state()),
            kept_open(old(self).hooks(), old(self).state(), final(self).state()),
            final(self).hooks() == old(self).hooks(),
            final(self).state() == scoping::open_pairs(old(self).hooks(), old(self).state(), s@, 0),
        decreases s@, 1int, s@.len(),
    {
        let mut i: usize = 0;
        while i < s.len() && i + 1 < s.len()
            invariant
                i <= s@.len() + 1,
                sound(self.state()),
                rooted(self.hooks(), self.state()),
                kept_open(self.hooks(), old(self).state(), self.state()),
                self.hooks() == old(self).hooks(),
                scoping::open_pairs(self.hooks(), self.state(), s@, i as int)
                    == scoping::open_pairs(old(self).hooks(), old(self).state(), s@, 0),
            decreases s@.len() + 1 - i,
        {
            self.analyze(&s[i + 1]);
            self.bind_pattern(&s[i], DefKind::Local);
            i = i + 2;
        }
    }

    // ── (as-> val name form ...) ────────────────────────────────────────────
    // Thread `val` through each form, binding `name` to the intermediate result.

    fn analyze_as_arrow(&mut self, forms: &Vec<AstNode>, list_span: Span)
        requires
            sound(old(self).state()),
            rooted(old(self).hooks(), old(self).state()),
        ensures
            sound(final(self).state()),
            rooted(old(self).hooks(), final(self).state()),
            kept_open(old(self).hooks(), old(self).state(), final(self).state()),
            final(self).hooks() == old(self).hooks(),
            final(self).state() == scoping::as_arrow_form(old(self).hooks(), old(self).state(), forms@, list_span),
        decreases forms@, 5int, 0int,
    {
        if forms.len() < 3 {
            return ;
        }
        self.analyze(&forms[1]);  // initial value
        self.push_scope(list_span);
        // forms[2] is the placeholder name symbol
        if let Some(name) = symbol_name(&forms[2]) {
            self.define(name, forms[2].span, DefKind::Local);
        }
        self.analyze_forms(forms, 3, forms.len());
        self.pop_scope();
    }

    // ── Match patterns ──────────────────────────────────────────────────────

    /// Bind symbols in a match/case pattern.
    fn bind_match_pattern(&mut self, node: &AstNode)
        requires
            sound(old(self).state()),
            rooted(old(self).hooks(), old(self).state()),
        ensures
            sound(final(self).state()),
            rooted(old(self).hooks(), final(self).state()),
            kept_open(old(self).hooks(), old(self).state(), final(self).state()),
            final(self).hooks() == old(self).hooks(),
            final(self).state() == scoping::bind_match(old(self).hooks(), old(self).state(), *node),
        decreases node, 1int, 0int,
    {
        match &node.node {
            Form::Symbol(name) => {
                // Plain symbols are bindings. `_` and `_`-prefixed names are discards.
                if !starts_with_char(name, '_') && !same(name, "&") && !same(name, "&as") && !same(
                    name,
                    "&into",
                ) {
                    self.define(name, node.span, DefKind::Local);
                }
            },
            Form::List(items) => {
                if head_is(items, "where") {
                    // `(where pattern guard...)` — only the pattern binds
                    if items.len() >= 2 {
                        self.bind_match_pattern(&items[1]);
                        self.analyze_forms(items, 2, items.len());
                    }
                } else if head_is(items, "or") {
                    // `(or pat1 pat2 ...)` — each alternative binds the same names;
                    // skip the `or` keyword itself
                    self.match_items(items, 1);
                } else {
                    self.match_items(items, 0);
                }
            },
            Form::Sequence(items) => self.match_sequence(items),
            Form::Table(fields) => self.match_fields(fields),
            _ => {},
        }
    }

    fn match_items(&mut self, items: &Vec<AstNode>, from: usize)
        requires
            sound(old(self).state()),
            rooted(old(self).hooks(), old(self).state()),
            from <= items@.len(),
        ensures
            sound(final(self).state()),
            rooted(old(self).hooks(), final(self).state()),
            kept_open(old(self).hooks(), old(self).state(), final(self).state()),
            final(self).hooks() == old(self).hooks(),
            final(self).state() == scoping::match_items(old(self).hooks(), old(self).state(), items@, from as int),
        decreases items@, 1int, items@.len(),
    {
        let mut i: usize = from;
        while i < items.len()
            invariant
                i <= items@.len(),
                sound(self.state()),
                rooted(self.hooks(), self.state()),
                kept_open(self.hooks(), old(self).state(), self.state()),
                self.hooks() == old(self).hooks(),
                scoping::match_items(self.hooks(), self.state(), items@, i as int)
                    == scoping::match_items(
                    old(self).hooks(),
                    old(self).state(),
                    items@,
                    from as int,
                ),
            decreases items@.len() - i,
        {
            self.bind_match_pattern(&items[i]);
            i = i + 1;
        }
    }

    fn match_sequence(&mut self, items: &Vec<AstNode>)
        requires
            sound(old(self).state()),
            rooted(old(self).hooks(), old(self).state()),
        ensures
            sound(final(self).state()),
            rooted(old(self).hooks(), final(self).state()),
            kept_open(old(self).hooks(), old(self).state(), final(self).state()),
            final(self).hooks() == old(self).hooks(),
            final(self).state() == scoping::match_sequence(old(self).hooks(), old(self).state(), items@, 0),
        decreases items@, 1int, items@.len(),
    {
        let mut i: usize = 0;
        while i < items.len()
            invariant
                i <= items@.len(),
                sound(self.state()),
                rooted(self.hooks(), self.state()),
                kept_open(self.hooks(), old(self).state(), self.state()),
                self.hooks() == old(self).hooks(),
                scoping::match_sequence(self.hooks(), self.state(), items@, i as int)
                    == scoping::match_sequence(old(self).hooks(), old(self).state(), items@, 0),
            decreases items@.len() - i,
        {
            if is_symbol(&items[i], "&as") || is_symbol(&items[i], "&") {
                // `& rest` — the next symbol is a binding for the rest
                if i + 1 < items.len() {
                    self.bind_match_pattern(&items[i + 1]);
                    i = i + 2;
                } else {
                    return ;
                }
            } else if is_symbol(&items[i], "&until") || is_symbol(&items[i], "&into") {
                // modifier keyword — the next item is an expression
                if i + 1 < items.len() {
                    i = i + 2;
                } else {
                    return ;
                }
            } else {
                self.bind_match_pattern(&items[i]);
                i = i + 1;
            }
        }
    }

    fn match_fields(&mut self, fields: &Vec<AstNode>)
        requires
            sound(old(self).state()),
            rooted(old(self).hooks(), old(self).state()),
        ensures
            sound(final(self).state()),
            rooted(old(self).hooks(), final(self).state()),
            kept_open(old(self).hooks(), old(self).state(), final(self).state()),
            final(self).hooks() == old(self).hooks(),
            final(self).state() == scoping::match_fields(old(self).hooks(), old(self).state(), fields@, 0),
        decreases fields@, 1int, fields@.len(),
    {
        // For table patterns, the VALUE position (i+1) is the binding
        let mut i: usize = 0;
        while i < fields.len() && i + 1 < fields.len()
            invariant
                i <= fields@.len() + 1,
                sound(self.state()),
                rooted(self.hooks(), self.state()),
                kept_open(self.hooks(), old(self).state(), self.state()),
                self.hooks() == old(self).hooks(),
                scoping::match_fields(self.hooks(), self.state(), fields@, i as int)
                    == scoping::match_fields(old(self).hooks(), old(self).state(), fields@, 0),
            decreases fields@.len() + 1 - i,
        {
            self.bind_match_pattern(&fields[i + 1]);
            i = i + 2;
        }
    }
}

/// The parts of a function form.
struct FnParts<'a> {
    params: Option<&'a Vec<AstNode>>,
    /// Index of the first form of the body.
    body: usize,
}

fn fn_parts(forms: &Vec<AstNode>) -> (r: FnParts<'_>)
    requires
        forms@.len() >= 2,
    ensures
        match r.params {
            Some(p) => scoping::params_of(forms@) == Some(p@),
            None => scoping::params_of(forms@) is None,
        },
        r.body == scoping::body_index(forms@),
        r.params matches Some(p) ==> decreases_to!(forms@ => p@),
{
    let idx: usize = if symbol_name(&forms[1]).is_some() {
        2
    } else {
        1
    };
    if idx < forms.len() {
        if let Form::Sequence(params) = &forms[idx].node {
            return FnParts { params: Some(params), body: idx + 1 };
        }
    }
    FnParts { params: None, body: idx }
}

fn param_names(params: &Vec<AstNode>) -> (r: Vec<String>)
    ensures
        texts(r@) == scoping::param_names(params@, params@.len() as int),
{
    let mut names: Vec<String> = Vec::new();
    let mut i: usize = 0;
    assert(texts(names@) =~= Seq::<Seq<char>>::empty());
    while i < params.len()
        invariant
            i <= params@.len(),
            texts(names@) == scoping::param_names(params@, i as int),
        decreases params@.len() - i,
    {
        let ghost before = texts(names@);
        match &params[i].node {
            Form::Symbol(name) => {
                if !same(name, "&") && !same(name, "...") {
                    names.push(name.clone());
                    assert(texts(names@) =~= before.push(name@));
                }
            },
            Form::Sequence(_) => {
                names.push("<destructured>".to_owned());
                assert(texts(names@) =~= before.push("<destructured>"@));
            },
            Form::Table(_) => {
                names.push("<destructured>".to_owned());
                assert(texts(names@) =~= before.push("<destructured>"@));
            },
            _ => {},
        }
        i = i + 1;
    }
    names
}

/// How many parameters have a name before the `&` (rest marker), if there is one.
fn named_before_rest(params: &Vec<AstNode>) -> (r: Option<usize>)
    ensures
        r == scoping::named_before_rest(params@, 0),
{
    let mut named: usize = 0;
    let mut i: usize = 0;
    while i < params.len()
        invariant
            i <= params@.len(),
            named <= i,
            named == scoping::param_names(params@, i as int).len(),
            scoping::named_before_rest(params@, i as int) == scoping::named_before_rest(params@, 0),
        decreases params@.len() - i,
    {
        let names_one = match &params[i].node {
            Form::Symbol(name) => {
                if same(name, "&") {
                    return Some(named);
                }
                !same(name, "...")
            },
            Form::Sequence(_) => true,
            Form::Table(_) => true,
            _ => false,
        };
        if names_one {
            named = named + 1;
        }
        i = i + 1;
    }
    None
}

/// `&` (rest marker) and `...` (varargs) both make fn variadic.
fn has_rest(params: &Vec<AstNode>) -> (r: bool)
    ensures
        r == scoping::is_variadic(params@),
{
    let mut i: usize = 0;
    while i < params.len()
        invariant
            i <= params@.len(),
            forall|j: int| 0 <= j < i ==> !scoping::is_rest(#[trigger] params@[j]),
        decreases params@.len() - i,
    {
        let varargs = matches!(params[i].node, Form::Varargs);
        if is_symbol(&params[i], "&") || varargs {
            assert(scoping::is_rest(params@[i as int]));
            return true;
        }
        i = i + 1;
    }
    false
}

/// The first index that holds one of two symbols, or the length.
fn find_modifier(binds: &Vec<AstNode>, a: &str, b: &str) -> (r: usize)
    ensures
        r == scoping::modifier_at(binds@, 0, a@, b@),
        r <= binds@.len(),
{
    let mut i: usize = 0;
    while i < binds.len()
        invariant
            i <= binds@.len(),
            scoping::modifier_at(binds@, i as int, a@, b@) == scoping::modifier_at(
                binds@,
                0,
                a@,
                b@,
            ),
        decreases binds@.len() - i,
    {
        if is_symbol(&binds[i], a) || is_symbol(&binds[i], b) {
            return i;
        }
        i = i + 1;
    }
    i
}

fn clone_text(s: &Option<String>) -> (r: Option<String>)
    ensures
        opt_text(r) == opt_text(*s),
{
    match s {
        Some(t) => Some(t.clone()),
        None => None,
    }
}

// ── Order ───────────────────────────────────────────────────────────────────

pub open spec fn strictly_ascending(s: Seq<u32>) -> bool {
    forall|i: int, j: int| 0 <= i < j < s.len() ==> (#[trigger] s[i]) < (#[trigger] s[j])
}

proof fn ascending_facts(s: Set<u32>, n: nat)
    requires
        n <= 0x1_0000_0000,
    ensures
        strictly_ascending(scoping::ascending(s, n)),
        forall|i: int|
            0 <= i < scoping::ascending(s, n).len() ==> (#[trigger] scoping::ascending(s, n)[i])
                < n && s.contains(scoping::ascending(s, n)[i]),
        forall|x: u32|
            #[trigger] s.contains(x) && x < n ==> scoping::ascending(s, n).contains(x),
    decreases n,
{
    if n > 0 {
        ascending_facts(s, (n - 1) as nat);
        let before = scoping::ascending(s, (n - 1) as nat);
        let all = scoping::ascending(s, n);
        assert forall|x: u32| #[trigger] s.contains(x) && x < n implies all.contains(x) by {
            if x < n - 1 {
                let i = choose|i: int| 0 <= i < before.len() && before[i] == x;
                assert(all[i] == x);
            } else {
                assert(all[all.len() - 1] == x);
            }
        }
    }
}

/// Two strictly ascending sequences with the same elements are the same.
/// Every element of a set, and nothing else, comes in its ascending order.
pub proof fn in_order_holds(s: Set<u32>)
    ensures
        forall|i: int| 0 <= i < scoping::in_order(s).len() ==> s.contains(#[trigger] scoping::in_order(s)[i]),
        forall|x: u32| s.contains(x) ==> #[trigger] scoping::in_order(s).contains(x),
        strictly_ascending(scoping::in_order(s)),
{
    ascending_facts(s, 0x1_0000_0000);
    assert forall|i: int| 0 <= i < scoping::in_order(s).len() implies s.contains(
        #[trigger] scoping::in_order(s)[i],
    ) by {
        assert(scoping::in_order(s).contains(scoping::in_order(s)[i]));
    }
}

proof fn ascending_unique(a: Seq<u32>, b: Seq<u32>)
    requires
        strictly_ascending(a),
        strictly_ascending(b),
        forall|x: u32| a.contains(x) <==> b.contains(x),
    ensures
        a == b,
    decreases a.len(),
{
    if a.len() == 0 {
        if b.len() > 0 {
            assert(b.contains(b[0]));
        }
        assert(a =~= b);
    } else {
        assert(a.contains(a.last()));
        assert(b.contains(a.last()));
        assert(b.contains(b.last()));
        assert(a.contains(b.last()));
        assert(a.last() == b.last());
        let a1 = a.drop_last();
        let b1 = b.drop_last();
        assert forall|x: u32| a1.contains(x) <==> b1.contains(x) by {
            if a1.contains(x) {
                let i = choose|i: int| 0 <= i < a1.len() && a1[i] == x;
                assert(a[i] == x);
                assert(b.contains(x));
                let j = choose|j: int| 0 <= j < b.len() && b[j] == x;
                assert(x < a.last());
                assert(b1[j] == x);
            }
            if b1.contains(x) {
                let i = choose|i: int| 0 <= i < b1.len() && b1[i] == x;
                assert(b[i] == x);
                assert(a.contains(x));
                let j = choose|j: int| 0 <= j < a.len() && a[j] == x;
                assert(x < b.last());
                assert(a1[j] == x);
            }
        }
        ascending_unique(a1, b1);
        assert(a =~= a1.push(a.last()));
        assert(b =~= b1.push(b.last()));
    }
}

/// Puts a new number into its place in an ascending list.
fn insert_ascending(keys: &mut Vec<u32>, k: u32)
    requires
        strictly_ascending(old(keys)@),
        !old(keys)@.contains(k),
    ensures
        strictly_ascending(final(keys)@),
        forall|x: u32| final(keys)@.contains(x) <==> (old(keys)@.contains(x) || x == k),
{
    let ghost before = keys@;
    let mut i: usize = keys.len();
    while i > 0 && keys[i - 1] > k
        invariant
            i <= keys@.len(),
            keys@ == before,
            forall|j: int| i <= j < keys@.len() ==> (#[trigger] keys@[j]) > k,
        decreases i,
    {
        i = i - 1;
    }
    proof {
        if i > 0 {
            assert(before.contains(before[i - 1]));
        }
    }
    keys.insert(i, k);
    let ghost now = keys@;
    assert(now =~= before.insert(i as int, k));
    assert forall|x: u32| now.contains(x) <==> (before.contains(x) || x == k) by {
        if before.contains(x) {
            let j = choose|j: int| 0 <= j < before.len() && before[j] == x;
            if j < i {
                assert(now[j] == x);
            } else {
                assert(now[j + 1] == x);
            }
        }
        if x == k {
            assert(now[i as int] == k);
        }
        if now.contains(x) {
            let j = choose|j: int| 0 <= j < now.len() && now[j] == x;
            if j < i {
                assert(before[j] == x);
            } else if j > i {
                assert(before[j - 1] == x);
            }
        }
    }
}

/// The keys of a map, in the order in which the map hands them out.
fn keys_of<T>(m: &HashMap<u32, T>) -> (r: Vec<u32>)
    ensures
        r@.to_set() == m@.dom(),
        r@.no_duplicates(),
{
    let mut keys: Vec<u32> = Vec::new();
    for k in it: m.keys()
        invariant
            it.seq().no_duplicates(),
            it.seq().unref().to_set() == m@.dom(),
            keys@ == it.seq().unref().take(it.index()),
            it.index() == it.seq().len() ==> keys@ == it.seq().unref(),
            keys@.no_duplicates(),
    {
        assert(!keys@.contains(*k)) by {
            assert(forall|j: int| 0 <= j < keys@.len() ==> keys@[j] == *it.seq()[j]);
        }
        keys.push(*k);
    }
    keys
}

/// The keys of a map, in ascending order.
pub fn sorted_keys<T>(m: &HashMap<u32, T>) -> (r: Vec<u32>)
    ensures
        r@ == scoping::in_order(m@.dom()),
{
    let all = keys_of(m);
    let mut keys: Vec<u32> = Vec::new();
    let mut i: usize = 0;
    while i < all.len()
        invariant
            i <= all@.len(),
            all@.no_duplicates(),
            strictly_ascending(keys@),
            forall|x: u32| keys@.contains(x) <==> all@.take(i as int).contains(x),
        decreases all@.len() - i,
    {
        let k = all[i];
        let ghost before = all@.take(i as int);
        assert(!before.contains(k));
        insert_ascending(&mut keys, k);
        assert(all@.take(i + 1) =~= before.push(k));
        assert forall|x: u32| all@.take(i + 1).contains(x) <==> (before.contains(x) || x == k) by {
            let now = all@.take(i + 1);
            if before.contains(x) {
                let j = choose|j: int| 0 <= j < before.len() && before[j] == x;
                assert(now[j] == x);
            }
            if x == k {
                assert(now[i as int] == k);
            }
        }
        i = i + 1;
    }
    proof {
        let want = scoping::in_order(m@.dom());
        ascending_facts(m@.dom(), 0x1_0000_0000);
        assert(all@.take(all@.len() as int) =~= all@);
        assert forall|x: u32| keys@.contains(x) <==> want.contains(x) by {
            assert(all@.to_set().contains(x) <==> all@.contains(x));
        }
        ascending_unique(keys@, want);
    }
    keys
}

/// Values that a map holds.
fn values_of(m: &HashMap<u32, u32>) -> (r: Vec<u32>)
    ensures
        r@.to_set() == m@.values(),
{
    let mut values: Vec<u32> = Vec::new();
    for v in it: m.values()
        invariant
            it.seq().unref().to_set() == m@.values(),
            values@ == it.seq().unref().take(it.index()),
            it.index() == it.seq().len() ==> values@ == it.seq().unref(),
    {
        values.push(*v);
    }
    values
}

/// Putting a symbol before the first one that starts after it.
proof fn insert_symbol_at(s: Seq<SymbolView>, x: SymbolView, k: int)
    requires
        0 <= k <= s.len(),
        forall|i: int| k <= i < s.len() ==> (#[trigger] s[i]).span.start > x.span.start,
        k > 0 ==> s[k - 1].span.start <= x.span.start,
    ensures
        scoping::insert_symbol(s, x) == s.insert(k, x),
    decreases s.len() - k,
{
    if k < s.len() {
        insert_symbol_at(s.drop_last(), x, k);
        assert(s.drop_last().insert(k, x).push(s.last()) =~= s.insert(k, x));
    } else {
        assert(s.insert(k, x) =~= s.push(x));
    }
}

proof fn insert_symbol_sorted(s: Seq<SymbolView>, x: SymbolView)
    requires
        in_text_order(s),
    ensures
        in_text_order(scoping::insert_symbol(s, x)),
        scoping::insert_symbol(s, x).to_multiset() == s.to_multiset().insert(x),
        scoping::insert_symbol(s, x).len() > 0,
        scoping::insert_symbol(s, x).last() == x || (s.len() > 0 && scoping::insert_symbol(
            s,
            x,
        ).last() == s.last() && s.last().span.start > x.span.start),
    decreases s.len(),
{
    broadcast use vstd::seq_lib::group_to_multiset_ensures;

    if s.len() > 0 && s.last().span.start > x.span.start {
        let t = s.drop_last();
        insert_symbol_sorted(t, x);
        assert(s =~= t.push(s.last()));
        let r = scoping::insert_symbol(t, x);
        assert(s.to_multiset() == t.to_multiset().insert(s.last()));
        assert(r.push(s.last()).to_multiset() == r.to_multiset().insert(s.last()));
        assert(t.to_multiset().insert(x).insert(s.last()) =~= t.to_multiset().insert(
            s.last(),
        ).insert(x));
    }
}

/// Sorting puts the symbols in the order of their starts and neither loses nor
/// adds one.
pub proof fn sorted_symbols_facts(s: Seq<SymbolView>)
    ensures
        in_text_order(scoping::sorted_symbols(s)),
        scoping::sorted_symbols(s).to_multiset() == s.to_multiset(),
    decreases s.len(),
{
    broadcast use vstd::seq_lib::group_to_multiset_ensures;

    if s.len() > 0 {
        sorted_symbols_facts(s.drop_last());
        insert_symbol_sorted(scoping::sorted_symbols(s.drop_last()), s.last());
        assert(s =~= s.drop_last().push(s.last()));
    }
}

fn reverse_symbols(syms: Vec<SymbolEntry>) -> (r: Vec<SymbolEntry>)
    ensures
        r@ == syms@.reverse(),
{
    let mut rest = syms;
    let mut out: Vec<SymbolEntry> = Vec::new();
    while rest.len() > 0
        invariant
            rest@.len() + out@.len() == syms@.len(),
            forall|i: int| 0 <= i < rest@.len() ==> rest@[i] == syms@[i],
            forall|i: int|
                0 <= i < out@.len() ==> (#[trigger] out@[i]) == syms@[syms@.len() - 1 - i],
        decreases rest@.len(),
    {
        let x = rest.pop().unwrap();
        out.push(x);
    }
    assert(out@ =~= syms@.reverse());
    out
}

/// The symbols in the order of their starts.
fn sort_symbols(syms: Vec<SymbolEntry>) -> (r: Vec<SymbolEntry>)
    ensures
        symbol_views(r@) == scoping::sorted_symbols(symbol_views(syms@)),
{
    let ghost all = symbol_views(syms@);
    let mut rest = reverse_symbols(syms);
    let mut out: Vec<SymbolEntry> = Vec::new();
    assert(symbol_views(out@) =~= Seq::<SymbolView>::empty());
    assert(all.take(0) =~= Seq::<SymbolView>::empty());
    while rest.len() > 0
        invariant
            all == symbol_views(syms@),
            rest@.len() <= all.len(),
            forall|i: int|
                0 <= i < rest@.len() ==> (#[trigger] rest@[i]) == syms@[syms@.len() - 1 - i],
            symbol_views(out@) == scoping::sorted_symbols(all.take(all.len() - rest@.len())),
        decreases rest@.len(),
    {
        let ghost n = all.len() - rest@.len();
        let ghost before = symbol_views(out@);
        let x = rest.pop().unwrap();
        assert(x@ == all[n]);
        let mut k: usize = out.len();
        while k > 0 && out[k - 1].span.start > x.span.start
            invariant
                k <= out@.len(),
                before == symbol_views(out@),
                forall|i: int| k <= i < out@.len() ==> (#[trigger] before[i]).span.start
                    > x.span.start,
            decreases k,
        {
            k = k - 1;
            assert(before[k as int] == out@[k as int]@);
        }
        proof {
            if k > 0 {
                assert(before[k - 1] == out@[k - 1]@);
            }
            insert_symbol_at(before, x@, k as int);
            assert(all.take(n + 1).drop_last() =~= all.take(n));
            assert(all.take(n + 1).last() == x@);
        }
        out.insert(k, x);
        assert(symbol_views(out@) =~= before.insert(k as int, x@));
    }
    assert(all.take(all.len() as int) =~= all);
    out
}

impl<'h> Analyzer<'h> {
    /// The definitions that some reference resolves to.
    fn referenced(&self) -> (r: HashSet<u32>)
        ensures
            r@ == scoping::referenced(self.state()),
    {
        let all = values_of(&self.result.refs);
        let mut seen: HashSet<u32> = HashSet::new();
        let mut i: usize = 0;
        assert(all@.take(0).to_set() =~= Set::<u32>::empty());
        while i < all.len()
            invariant
                i <= all@.len(),
                seen@ == all@.take(i as int).to_set(),
            decreases all@.len() - i,
        {
            seen.insert(all[i]);
            proof {
                let before = all@.take(i as int);
                let now = all@.take(i + 1);
                assert(now =~= before.push(all@[i as int]));
                assert forall|x: u32| now.contains(x) <==> (before.contains(x) || x
                    == all@[i as int]) by {
                    if before.contains(x) {
                        let j = choose|j: int| 0 <= j < before.len() && before[j] == x;
                        assert(now[j] == x);
                    }
                    if x == all@[i as int] {
                        assert(now[i as int] == x);
                    }
                }
                assert(now.to_set() =~= before.to_set().insert(all@[i as int]));
            }
            i = i + 1;
        }
        assert(all@.take(all@.len() as int) =~= all@);
        seen
    }

    fn idle_warning(&self, idle: scoping::Idle, byte: u32, referenced: &HashSet<u32>) -> (r: Option<
        AnalysisWarning,
    >)
        requires
            referenced@ == scoping::referenced(self.state()),
            idle is UnusedRequire ==> self.state().requires_at.dom().contains(byte),
            !(idle is UnusedRequire) ==> self.state().defs.dom().contains(byte),
        ensures
            match r {
                Some(w) => scoping::idle_warning(self.state(), idle, byte) == Some(w@),
                None => scoping::idle_warning(self.state(), idle, byte) is None,
            },
    {
        let def = match self.result.defs.get(&byte) {
            Some(d) => d,
            None => {
                return None;
            },
        };
        assert(def@ == self.state().defs[byte]);
        let unread = !referenced.contains(&byte);
        let message = match idle {
            scoping::Idle::Unmutated => {
                if !(def.kind == DefKind::Var && !self.mutation_targets.contains(&byte)) {
                    return None;
                }
                let mut m = quote_name(&def.name);
                m.append(" is never mutated; use `local` instead of `var`");
                m
            },
            scoping::Idle::UnusedRequire => {
                if !unread {
                    return None;
                }
                let mut m = quote_name(&def.name);
                m.append(" (require :");
                match self.result.require_def_bytes.get(&byte) {
                    Some(module) => m.append(module),
                    None => {},
                }
                m.append(") is required but never used");
                m
            },
            scoping::Idle::UnusedLocal => {
                if !(def.kind == DefKind::Local && unread && !starts_with_char(&def.name, '_')
                    && !self.result.require_def_bytes.contains_key(&byte)) {
                    return None;
                }
                let mut m = quote_name(&def.name);
                m.append(" is defined but never used");
                m
            },
            scoping::Idle::UnusedParam => {
                if !(def.kind == DefKind::Param && unread && !starts_with_char(&def.name, '_')
                    && !starts_with_char(&def.name, '<') && !starts_with_char(&def.name, '$')) {
                    return None;
                }
                let mut m = String::new();
                m.append("parameter ");
                m.append(&quote_name(&def.name));
                m.append(" is unused");
                assert(m@ =~= "parameter "@ + quoted(def@.name) + " is unused"@);
                m
            },
        };
        Some(AnalysisWarning { message, span: def.span, related_span: None })
    }

    fn idle_warnings(&self, idle: scoping::Idle, bytes: &Vec<u32>, referenced: &HashSet<u32>) -> (r:
        Vec<AnalysisWarning>)
        requires
            referenced@ == scoping::referenced(self.state()),
            forall|i: int|
                0 <= i < bytes@.len() ==> if idle is UnusedRequire {
                    self.state().requires_at.dom().contains(#[trigger] bytes@[i])
                } else {
                    self.state().defs.dom().contains(bytes@[i])
                },
        ensures
            warning_views(r@) == scoping::all_idle(self.state(), idle, bytes@),
    {
        let mut out: Vec<AnalysisWarning> = Vec::new();
        let mut i: usize = 0;
        assert(warning_views(out@) =~= Seq::<WarningView>::empty());
        while i < bytes.len()
            invariant
                i <= bytes@.len(),
                referenced@ == scoping::referenced(self.state()),
                forall|i: int|
                    0 <= i < bytes@.len() ==> if idle is UnusedRequire {
                        self.state().requires_at.dom().contains(#[trigger] bytes@[i])
                    } else {
                        self.state().defs.dom().contains(bytes@[i])
                    },
                warning_views(out@) == scoping::idle_warnings(
                    self.state(),
                    idle,
                    bytes@,
                    i as int,
                ),
            decreases bytes@.len() - i,
        {
            let ghost before = warning_views(out@);
            let which = match idle {
                scoping::Idle::Unmutated => scoping::Idle::Unmutated,
                scoping::Idle::UnusedRequire => scoping::Idle::UnusedRequire,
                scoping::Idle::UnusedLocal => scoping::Idle::UnusedLocal,
                scoping::Idle::UnusedParam => scoping::Idle::UnusedParam,
            };
            if let Some(w) = self.idle_warning(which, bytes[i], referenced) {
                out.push(w);
                assert(warning_views(out@) =~= before.push(w@));
            }
            i = i + 1;
        }
        out
    }

    /// All the warnings about idle definitions.
    fn all_idle_warnings(&self) -> (r: Vec<AnalysisWarning>)
        ensures
            self.state().warnings + warning_views(r@) == scoping::file_warnings(self.state()),
    {
        let ghost st = self.state();
        let defs = sorted_keys(&self.result.defs);
        let modules = sorted_keys(&self.result.require_def_bytes);
        proof {
            assert(st.defs.dom() =~= self.result.defs@.dom());
            assert(st.requires_at.dom() =~= self.result.require_def_bytes@.dom());
            ascending_facts(st.defs.dom(), 0x1_0000_0000);
            ascending_facts(st.requires_at.dom(), 0x1_0000_0000);
        }
        let referenced = self.referenced();
        // `var` bindings that are never the target of a `set`
        let mut out = self.idle_warnings(scoping::Idle::Unmutated, &defs, &referenced);
        // require bindings that are never used
        let mut b = self.idle_warnings(scoping::Idle::UnusedRequire, &modules, &referenced);
        // `local` bindings that are never read; skips `_`-prefixed names (conventional
        // discard), destructured bindings, and require bindings (those get their own
        // message above)
        let mut c = self.idle_warnings(scoping::Idle::UnusedLocal, &defs, &referenced);
        // function parameters that are never read; skips `_`-prefixed names and
        // `<destructured>` placeholders
        let mut d = self.idle_warnings(scoping::Idle::UnusedParam, &defs, &referenced);
        let ghost (wa, wb, wc, wd) = (out@, b@, c@, d@);
        out.append(&mut b);
        out.append(&mut c);
        out.append(&mut d);
        assert(warning_views(out@) =~= warning_views(wa) + warning_views(wb) + warning_views(wc)
            + warning_views(wd));
        assert(st.warnings + warning_views(out@) =~= scoping::file_warnings(st));
        out
    }
}

// ── Public entry point ──────────────────────────────────────────────────────

/// Analyzes the forms of a file, without hooks.
pub fn analyze(ast: &[AstNode]) -> (r: AnalysisResult)
    ensures
        r@ == analysis(Map::empty(), ast@),
        covered_file(Set::empty(), ast@, listed(r@.syms)),
        well_formed(r@),
        all_inside(r@.scopes),
{
    let none: HashMap<u32, Vec<Instruction>> = HashMap::new();
    assert(scoping::balanced(none@)) by {
        reveal(scoping::balanced);
    }
    assert(none@.dom() =~= Set::empty());
    analyze_with_hooks(ast, &none)
}

/// Analyzes the forms of a file; macro calls that have hook results are read by them.
pub fn analyze_with_hooks(ast: &[AstNode], hook_results: &HashMap<u32, Vec<Instruction>>) -> (r:
    AnalysisResult)
    ensures
        r@ == analysis(hook_results@, ast@),
        covered_file(hook_results@.dom(), ast@, listed(r@.syms)),
        well_formed(r@),
        scoping::balanced(hook_results@) ==> all_inside(r@.scopes),
{
    // Global scope covering the entire file
    let n = ast.len();
    let whole = if n > 0 {
        Span::merge(&ast[0].span, &ast[n - 1].span)
    } else {
        Span { start: 0, end: 0, line: 0, col: 0, end_line: 0, end_col: 0 }
    };
    let mut analyzer = Analyzer::new_with_hooks(
        hook_results,
        Span {
            start: 0,
            end: u32::MAX,
            line: whole.line,
            col: whole.col,
            end_line: whole.end_line,
            end_col: whole.end_col,
        },
    );
    analyzer.analyze_forms(ast, 0, n);
    let ghost st = analyzer.state();
    assert(st == scoping::read_file(hook_results@, ast@));
    let mut extra = analyzer.all_idle_warnings();
    let mut result = analyzer.result;
    let ghost ws = result.warnings@;
    let ghost es = extra@;
    result.warnings.append(&mut extra);
    assert(warning_views(result.warnings@) =~= warning_views(ws) + warning_views(es));
    // Sort syms by span.start for binary search
    let r = AnalysisResult { syms: sort_symbols(result.syms), ..result };
    assert(r@ =~= analysis(hook_results@, ast@));
    proof {
        sorted_symbols_facts(st.syms);
        result_is_well_formed(st);
        every_symbol_is_listed(hook_results@, ast@);
    }
    r
}

proof fn result_is_well_formed(st: State)
    requires
        sound(st),
    ensures
        well_formed(
            AnalysisView {
                defs: st.defs,
                refs: st.refs,
                syms: scoping::sorted_symbols(st.syms),
                scopes: st.scopes,
                warnings: scoping::file_warnings(st),
                modules: st.modules,
                requires_at: st.requires_at,
                macro_calls: st.macro_calls,
                rest_params: st.rest_params,
                offers: st.offers,
            },
        ),
{
    broadcast use vstd::seq_lib::group_to_multiset_ensures;

    reveal(sound);
    sorted_symbols_facts(st.syms);
    let sorted = scoping::sorted_symbols(st.syms);
    assert forall|i: int| 0 <= i < sorted.len() implies ((#[trigger] sorted[i]).def_byte matches Some(
        d,
    ) ==> st.defs.dom().contains(d)) by {
        assert(sorted.contains(sorted[i]));
        assert(sorted.to_multiset().count(sorted[i]) > 0);
        assert(st.syms.contains(sorted[i]));
        let j = choose|j: int| 0 <= j < st.syms.len() && st.syms[j] == sorted[i];
        assert(st.syms[j].def_byte == sorted[i].def_byte);
    }
    assert forall|k: u32| #[trigger] st.refs.dom().contains(k) implies has_reference(
        sorted,
        k,
        st.refs[k],
    ) by {
        let j = choose|j: int|
            0 <= j < st.syms.len() && (#[trigger] st.syms[j]).span.start == k && !st.syms[j].is_def
                && st.syms[j].def_byte == Some(st.refs[k]);
        assert(st.syms.contains(st.syms[j]));
        assert(st.syms.to_multiset().count(st.syms[j]) > 0);
        assert(sorted.contains(st.syms[j]));
        let i = choose|i: int| 0 <= i < sorted.len() && sorted[i] == st.syms[j];
        assert(sorted[i].span.start == k);
    }
}

// ── Looking things up ───────────────────────────────────────────────────────

/// The span contains the byte; the byte just behind it counts too.
pub open spec fn covers(span: Span, byte: u32) -> bool {
    span.start <= byte <= span.end
}

/// Among the first `k` scopes, the narrowest one that contains `byte`; the
/// first of several that are equally narrow.
pub open spec fn narrowest(scopes: Seq<ScopeView>, byte: u32, k: int) -> Option<usize>
    decreases k,
{
    if 0 < k <= scopes.len() {
        let best = narrowest(scopes, byte, k - 1);
        let span = scopes[k - 1].span;
        if covers(span, byte) && (best matches Some(b) ==> span.end - span.start
            < scopes[b as int].span.end - scopes[b as int].span.start) {
            Some((k - 1) as usize)
        } else {
            best
        }
    } else {
        None
    }
}

/// The innermost scope around `byte`.
pub open spec fn scope_around(a: AnalysisView, byte: u32) -> Option<usize> {
    narrowest(a.scopes, byte, a.scopes.len() as int)
}

/// The innermost scope contains the byte, and no scope that contains it is narrower.
pub proof fn innermost_is_narrowest(scopes: Seq<ScopeView>, byte: u32, k: int)
    requires
        0 <= k <= scopes.len() <= usize::MAX,
    ensures
        match narrowest(scopes, byte, k) {
            Some(b) => {
                &&& b < k
                &&& covers(scopes[b as int].span, byte)
                &&& forall|i: int|
                    0 <= i < k && covers((#[trigger] scopes[i]).span, byte)
                        ==> scopes[b as int].span.end - scopes[b as int].span.start
                        <= scopes[i].span.end - scopes[i].span.start
            },
            None => forall|i: int| 0 <= i < k ==> !covers((#[trigger] scopes[i]).span, byte),
        },
    decreases k,
{
    if k > 0 {
        innermost_is_narrowest(scopes, byte, k - 1);
    }
}

/// The names of the first `k` definitions of a scope, as far as these stand up to
/// `byte`.
pub open spec fn names_up_to(defined: Seq<(Seq<char>, u32)>, byte: u32, k: int) -> Set<Seq<char>> {
    Set::new(
        |name: Seq<char>|
            exists|i: int|
                0 <= i < k && (#[trigger] defined[i]).0 == name && defined[i].1 <= byte,
    )
}

/// The `i`-th definition of a scope stands up to `byte`, and is the last one of its
/// name that does.
pub open spec fn is_latest(defined: Seq<(Seq<char>, u32)>, byte: u32, i: int) -> bool {
    &&& defined[i].1 <= byte
    &&& forall|j: int|
        i < j < defined.len() && (#[trigger] defined[j]).0 == defined[i].0 ==> defined[j].1 > byte
}

/// Of the first `k` definitions of a scope, the latest one of each name up to
/// `byte`, but for the names that an inner scope has taken.
pub open spec fn defs_of_scope(
    a: AnalysisView,
    defined: Seq<(Seq<char>, u32)>,
    byte: u32,
    taken: Set<Seq<char>>,
    k: int,
) -> Seq<DefinitionView>
    decreases k,
{
    if 0 < k <= defined.len() {
        let before = defs_of_scope(a, defined, byte, taken, k - 1);
        let (name, def) = defined[k - 1];
        if is_latest(defined, byte, k - 1) && !taken.contains(name) && a.defs.dom().contains(def) {
            before.push(a.defs[def])
        } else {
            before
        }
    } else {
        Seq::empty()
    }
}

/// The definitions visible at `byte` from a scope outwards.
pub open spec fn visible_from(
    a: AnalysisView,
    idx: Option<usize>,
    byte: u32,
    taken: Set<Seq<char>>,
) -> Seq<DefinitionView>
    decreases
            (match idx {
                Some(i) => i + 1,
                None => 0,
            }),
{
    match idx {
        Some(i) => {
            let scope = a.scopes[i as int];
            let n = scope.defined.len() as int;
            defs_of_scope(a, scope.defined, byte, taken, n) + (match scope.parent {
                Some(p) => if p < i {
                    visible_from(
                        a,
                        Some(p),
                        byte,
                        taken.union(names_up_to(scope.defined, byte, n)),
                    )
                } else {
                    Seq::empty()
                },
                None => Seq::empty(),
            })
        },
        None => Seq::empty(),
    }
}

/// The definitions visible at `byte`: those of the innermost scope first. Of each
/// name a scope gives the last definition up to the byte; an inner definition hides
/// an outer one of the same name.
pub open spec fn visible_defs(a: AnalysisView, byte: u32) -> Seq<DefinitionView> {
    visible_from(a, scope_around(a, byte), byte, Set::empty())
}

pub open spec fn def_ref_views(s: Seq<&DefinitionInfo>) -> Seq<DefinitionView> {
    Seq::new(s.len(), |i: int| s[i]@)
}

/// A definition of the file that stands at or before the byte.
pub open spec fn defined_up_to(a: AnalysisView, byte: u32, d: DefinitionView) -> bool {
    exists|b: u32| b <= byte && #[trigger] a.defs.dom().contains(b) && a.defs[b] == d
}

/// Every visible definition is one of the file, and stands at or before the byte.
pub proof fn visible_defs_are_before(
    a: AnalysisView,
    idx: Option<usize>,
    byte: u32,
    taken: Set<Seq<char>>,
)
    requires
        scopes_nest(a.scopes),
        idx matches Some(i) ==> i < a.scopes.len(),
    ensures
        forall|i: int|
            0 <= i < visible_from(a, idx, byte, taken).len() ==> defined_up_to(
                a,
                byte,
                #[trigger] visible_from(a, idx, byte, taken)[i],
            ),
    decreases
            (match idx {
                Some(i) => i + 1,
                None => 0,
            }),
{
    if let Some(i) = idx {
        let scope = a.scopes[i as int];
        let n = scope.defined.len() as int;
        defs_of_scope_are_before(a, scope.defined, byte, taken, n);
        let own = defs_of_scope(a, scope.defined, byte, taken, n);
        let all = visible_from(a, idx, byte, taken);
        if let Some(p) = scope.parent {
            let next = taken.union(names_up_to(scope.defined, byte, n));
            visible_defs_are_before(a, Some(p), byte, next);
            let rest = visible_from(a, Some(p), byte, next);
            assert forall|k: int| 0 <= k < all.len() implies defined_up_to(
                a,
                byte,
                #[trigger] all[k],
            ) by {
                if k < own.len() {
                    assert(all[k] == own[k]);
                } else {
                    assert(all[k] == rest[k - own.len()]);
                }
            }
        } else {
            assert(all =~= own);
        }
    }
}

proof fn defs_of_scope_are_before(
    a: AnalysisView,
    defined: Seq<(Seq<char>, u32)>,
    byte: u32,
    taken: Set<Seq<char>>,
    k: int,
)
    requires
        0 <= k <= defined.len(),
    ensures
        forall|i: int|
            0 <= i < defs_of_scope(a, defined, byte, taken, k).len() ==> defined_up_to(
                a,
                byte,
                #[trigger] defs_of_scope(a, defined, byte, taken, k)[i],
            ),
    decreases k,
{
    if k > 0 {
        defs_of_scope_are_before(a, defined, byte, taken, k - 1);
        let before = defs_of_scope(a, defined, byte, taken, k - 1);
        let now = defs_of_scope(a, defined, byte, taken, k);
        assert forall|i: int| 0 <= i < now.len() implies defined_up_to(
            a,
            byte,
            #[trigger] now[i],
        ) by {
            if i < before.len() {
                assert(now[i] == before[i]);
            } else {
                assert(a.defs.dom().contains(defined[k - 1].1));
            }
        }
    }
}

pub open spec fn name_set(s: Seq<String>) -> Set<Seq<char>> {
    Set::new(|n: Seq<char>| exists|i: int| 0 <= i < s.len() && (#[trigger] s[i])@ == n)
}

fn holds_name(names: &Vec<String>, k: usize, name: &str) -> (r: bool)
    requires
        k <= names@.len(),
    ensures
        r == name_set(names@.take(k as int)).contains(name@),
{
    let mut i: usize = 0;
    while i < k
        invariant
            i <= k <= names@.len(),
            forall|j: int| 0 <= j < i ==> (#[trigger] names@[j])@ != name@,
        decreases k - i,
    {
        if same(&names[i], name) {
            assert(names@.take(k as int)[i as int]@ == name@);
            return true;
        }
        i = i + 1;
    }
    false
}

fn latest(defined: &Vec<(String, u32)>, byte: u32, i: usize) -> (r: bool)
    requires
        i < defined@.len(),
        defined@[i as int].1 <= byte,
    ensures
        r == is_latest(named_bytes(defined@), byte, i as int),
{
    let ghost all = named_bytes(defined@);
    let n = defined.len();
    let mut j: usize = i + 1;
    while j < n
        invariant
            i < j <= n,
            n == defined@.len(),
            all == named_bytes(defined@),
            forall|k: int|
                i < k < j && (#[trigger] all[k]).0 == all[i as int].0 ==> all[k].1 > byte,
        decreases defined@.len() - j,
    {
        if same(&defined[j].0, &defined[i].0) && defined[j].1 <= byte {
            assert(all[j as int].0 == all[i as int].0);
            return false;
        }
        j = j + 1;
    }
    true
}

/// The last of the first `k` symbols whose span holds the byte.
pub open spec fn symbol_on(syms: Seq<SymbolView>, byte: u32, k: int) -> Option<SymbolView>
    decreases k,
{
    if 0 < k <= syms.len() {
        if covers(syms[k - 1].span, byte) {
            Some(syms[k - 1])
        } else {
            symbol_on(syms, byte, k - 1)
        }
    } else {
        None
    }
}

/// The innermost symbol whose span holds the byte.
pub open spec fn symbol_here(a: AnalysisView, byte: u32) -> Option<SymbolView> {
    symbol_on(a.syms, byte, a.syms.len() as int)
}

impl AnalysisResult {
    /// Find the innermost symbol whose span contains `byte`: the last one in
    /// the order of the symbols.
    pub fn symbol_at(&self, byte: u32) -> (r: Option<&SymbolEntry>)
        ensures
            match r {
                Some(e) => exists|i: int|
                    {
                        &&& 0 <= i < self@.syms.len()
                        &&& (#[trigger] self@.syms[i]) == e@
                        &&& covers(self@.syms[i].span, byte)
                        &&& forall|j: int|
                            i < j < self@.syms.len() ==> !covers(
                                (#[trigger] self@.syms[j]).span,
                                byte,
                            )
                    },
                None => forall|i: int|
                    0 <= i < self@.syms.len() ==> !covers((#[trigger] self@.syms[i]).span, byte),
            },
            match r {
                Some(e) => symbol_here(self@, byte) == Some(e@),
                None => symbol_here(self@, byte) is None,
            },
            in_text_order(self@.syms) && r is Some ==> forall|i: int|
                0 <= i < self@.syms.len() && covers((#[trigger] self@.syms[i]).span, byte)
                    ==> self@.syms[i].span.start <= r->0.span.start,
    {
        let mut i: usize = self.syms.len();
        while i > 0
            invariant
                i <= self.syms@.len(),
                symbol_on(self@.syms, byte, i as int) == symbol_here(self@, byte),
                forall|j: int|
                    i <= j < self@.syms.len() ==> !covers((#[trigger] self@.syms[j]).span, byte),
            decreases i,
        {
            i = i - 1;
            let s = &self.syms[i];
            assert(self@.syms[i as int] == s@);
            if s.span.start <= byte && byte <= s.span.end {
                return Some(s);
            }
        }
        None
    }

    /// All definitions visible at `byte` (for completion).
    pub fn defs_at(&self, byte: u32) -> (r: Vec<&DefinitionInfo>)
        requires
            scopes_nest(self@.scopes),
        ensures
            def_ref_views(r@) == visible_defs(self@, byte),
    {
        let mut result: Vec<&DefinitionInfo> = Vec::new();
        let mut seen: Vec<String> = Vec::new();
        let from = self.innermost_scope(byte);
        assert(name_set(seen@) =~= Set::<Seq<char>>::empty());
        self.collect_visible(from, byte, &mut seen, &mut result);
        assert(def_ref_views(result@) =~= visible_defs(self@, byte));
        result
    }

    fn collect_visible<'a>(
        &'a self,
        idx: Option<usize>,
        byte: u32,
        seen: &mut Vec<String>,
        result: &mut Vec<&'a DefinitionInfo>,
    )
        requires
            scopes_nest(self@.scopes),
            idx matches Some(i) ==> i < self@.scopes.len(),
        ensures
            def_ref_views(final(result)@) == def_ref_views(old(result)@) + visible_from(
                self@,
                idx,
                byte,
                name_set(old(seen)@),
            ),
        decreases
                (match idx {
                    Some(i) => i + 1,
                    None => 0,
                }),
    {
        let ghost a = self@;
        match idx {
            Some(i) => {
                let scope = &self.scopes[i];
                assert(scope@ == a.scopes[i as int]);
                let ghost defined = a.scopes[i as int].defined;
                let taken = seen.len();
                let ghost inner = seen@;
                let n = scope.defined.len();
                let mut k: usize = 0;
                assert(inner.take(taken as int) =~= inner);
                assert(name_set(seen@) =~= name_set(inner).union(names_up_to(defined, byte, 0)));
                assert(def_ref_views(result@) =~= def_ref_views(old(result)@) + defs_of_scope(
                    a,
                    defined,
                    byte,
                    name_set(inner),
                    0,
                ));
                while k < n
                    invariant
                        k <= n,
                        n == defined.len(),
                        defined == named_bytes(scope.defined@),
                        a == self@,
                        taken == inner.len(),
                        taken <= seen@.len(),
                        seen@.take(taken as int) == inner,
                        name_set(seen@) == name_set(inner).union(
                            names_up_to(defined, byte, k as int),
                        ),
                        def_ref_views(result@) == def_ref_views(old(result)@) + defs_of_scope(
                            a,
                            defined,
                            byte,
                            name_set(inner),
                            k as int,
                        ),
                    decreases n - k,
                {
                    let name = &scope.defined[k].0;
                    let def_byte = scope.defined[k].1;
                    assert(defined[k as int] == (name@, def_byte));
                    let ghost before = def_ref_views(result@);
                    let ghost seen0 = seen@;
                    if def_byte <= byte {
                        if !holds_name(seen, taken, name) && latest(&scope.defined, byte, k) {
                            if let Some(def) = self.defs.get(&def_byte) {
                                result.push(def);
                                assert(def@ == a.defs[def_byte]);
                                assert(def_ref_views(result@) =~= before.push(def@));
                            }
                        }
                        seen.push(name.clone());
                        assert(seen@.drop_last() =~= seen0);
                        assert(seen@.take(taken as int) =~= inner) by {
                            assert(seen@.take(taken as int) =~= seen0.take(taken as int));
                        }
                    }
                    proof {
                        seen_grows(seen0, seen@, inner, defined, byte, k as int);
                    }
                    assert(def_ref_views(result@) =~= def_ref_views(old(result)@) + defs_of_scope(
                        a,
                        defined,
                        byte,
                        name_set(inner),
                        k + 1,
                    ));
                    k = k + 1;
                }
                let ghost here = def_ref_views(result@);
                let parent = scope.parent;
                self.collect_visible(parent, byte, seen, result);
                assert(def_ref_views(result@) =~= def_ref_views(old(result)@) + visible_from(
                    a,
                    idx,
                    byte,
                    name_set(inner),
                ));
            },
            None => {
                assert(def_ref_views(result@) =~= def_ref_views(old(result)@) + visible_from(
                    a,
                    idx,
                    byte,
                    name_set(old(seen)@),
                ));
            },
        }
    }

    fn innermost_scope(&self, byte: u32) -> (r: Option<usize>)
        ensures
            r == scope_around(self@, byte),
            r matches Some(i) ==> i < self@.scopes.len(),
    {
        // Find the narrowest scope whose span contains `byte`.
        let mut best: Option<usize> = None;
        let mut i: usize = 0;
        while i < self.scopes.len()
            invariant
                i <= self.scopes@.len(),
                best == narrowest(self@.scopes, byte, i as int),
                best matches Some(b) ==> b < i && covers(self@.scopes[b as int].span, byte),
            decreases self.scopes@.len() - i,
        {
            let span = self.scopes[i].span;
            assert(self@.scopes[i as int].span == span);
            if span.start <= byte && span.end >= byte {
                let width = span.end - span.start;
                match best {
                    None => {
                        best = Some(i);
                    },
                    Some(b) => {
                        let other = self.scopes[b].span;
                        assert(self@.scopes[b as int].span == other);
                        if width < other.end - other.start {
                            best = Some(i);
                        }
                    },
                }
            }
            i = i + 1;
        }
        best
    }
}

proof fn seen_grows(
    before: Seq<String>,
    now: Seq<String>,
    inner: Seq<String>,
    defined: Seq<(Seq<char>, u32)>,
    byte: u32,
    k: int,
)
    requires
        0 <= k < defined.len(),
        name_set(before) == name_set(inner).union(names_up_to(defined, byte, k)),
        defined[k].1 > byte ==> now == before,
        defined[k].1 <= byte ==> now.len() == before.len() + 1 && now.drop_last() == before
            && now.last()@ == defined[k].0,
    ensures
        name_set(now) == name_set(inner).union(names_up_to(defined, byte, k + 1)),
{
    assert forall|n: Seq<char>| name_set(now).contains(n) <==> name_set(inner).union(
        names_up_to(defined, byte, k + 1),
    ).contains(n) by {
        if name_set(now).contains(n) {
            let i = choose|i: int| 0 <= i < now.len() && (#[trigger] now[i])@ == n;
            if defined[k].1 <= byte && i == now.len() - 1 {
                assert(defined[k].0 == n);
            } else {
                assert(before[i]@ == n);
                assert(name_set(before).contains(n));
                if !name_set(inner).contains(n) {
                    let j = choose|j: int|
                        0 <= j < k && (#[trigger] defined[j]).0 == n && defined[j].1 <= byte;
                    assert(0 <= j < k + 1 && defined[j].0 == n);
                }
            }
        }
        if name_set(inner).contains(n) || names_up_to(defined, byte, k + 1).contains(n) {
            if name_set(before).contains(n) {
                let i = choose|i: int| 0 <= i < before.len() && (#[trigger] before[i])@ == n;
                if defined[k].1 <= byte {
                    assert(now.drop_last()[i] == now[i]);
                }
                assert(now[i]@ == n);
            } else {
                let j = choose|j: int|
                    0 <= j < k + 1 && (#[trigger] defined[j]).0 == n && defined[j].1 <= byte;
                if j < k {
                    assert(names_up_to(defined, byte, k).contains(n));
                }
                assert(now[now.len() - 1]@ == n);
            }
        }
    }
    assert(name_set(now) =~= name_set(inner).union(names_up_to(defined, byte, k + 1)));
}

} // verus!
