//! Macro analysis hooks: user-supplied functions that guide the analysis of
//! custom macro calls.
//!
//! A hook receives a macro call and returns instructions, which are processed
//! in order. Children not mentioned by any instruction are silently skipped (no
//! analysis, no unknown-identifier warnings).
use std::collections::HashMap;
use std::sync::Arc;

use dashmap::DashMap;
use vstd::prelude::*;
use vstd::string::*;

use crate::analyzer::opt_text;
use crate::diagnostics::has_text;
use crate::lexer::Span;
use crate::number::{Number, NumberView};
use crate::parser::{AstNode, Form};
use crate::scoping::Hooks;
use crate::strings::{chars_of, contains, holds, same, text_between, texts};
use crate::walks::{reached, Rule};
use crate::workspace::{call_site_views, first_list_at, AnalyzedFile, FileView};

verus! {

/// An operation returned by a hook function describing how to handle one part
/// of a macro call.
#[derive(Debug, Clone)]
pub enum Instruction {
    /// Introduce a named binding at the given source span.
    Bind { name: String, span: Span },
    /// Analyze call.children[index] as normal Fennel code (1-based).
    Analyze { index: usize },
    /// Analyze call.children[index] as a `(fn name? [params] body...)` form (1-based).
    AnalyzeFn { index: usize },
    /// Open a new lexical scope spanning `span`.
    ScopeOpen { span: Span },
    /// Close the most recently opened scope.
    ScopeClose,
    /// When the cursor is inside call.children[index], offer these completions (1-based).
    SubFormCompletions { index: usize, completions: Vec<String> },
    /// Analyze call.children[parent].children[child] as normal Fennel code (1-based).
    AnalyzeChildAt { parent: usize, child: usize },
}


// ── Macro calls as plain data ───────────────────────────────────────────────

/// A view of an AST node for passing to hook functions.
#[derive(Debug)]
pub struct SerialNode {
    /// "sym", "keyword", "str", "num", "bool", "nil", "vararg", "list", "table",
    /// "seq", or "other" for reader-macro forms.
    pub kind: &'static str,
    /// The text of a symbol, keyword, string or boolean.
    pub value: Option<String>,
    /// The literal of a number.
    pub number: Option<Number>,
    /// The nodes inside a list, table or sequence.
    pub children: Vec<SerialNode>,
    pub span: Span,
}

pub open spec fn kind_name(f: Form) -> Seq<char> {
    match f {
        Form::List(_) => "list"@,
        Form::Table(_) => "table"@,
        Form::Sequence(_) => "seq"@,
        Form::Symbol(_) => "sym"@,
        Form::Keyword(_) => "keyword"@,
        Form::Str(_) => "str"@,
        Form::Number(_) => "num"@,
        Form::Bool(_) => "bool"@,
        Form::Nil => "nil"@,
        Form::Varargs => "vararg"@,
        _ => "other"@,
    }
}

pub open spec fn leaf_text(f: Form) -> Option<Seq<char>> {
    match f {
        Form::Symbol(s) => Some(s@),
        Form::Keyword(s) => Some(s@),
        Form::Str(s) => Some(s@),
        Form::Bool(b) => Some(
            if b {
                "true"@
            } else {
                "false"@
            },
        ),
        _ => None,
    }
}

pub open spec fn leaf_number(f: Form) -> Option<NumberView> {
    match f {
        Form::Number(n) => Some(n@),
        _ => None,
    }
}

pub open spec fn opt_number(n: Option<Number>) -> Option<NumberView> {
    match n {
        Some(n) => Some(n@),
        None => None,
    }
}

/// The plain node shows what the AST node holds.
pub open spec fn shows(s: SerialNode, n: AstNode) -> bool
    decreases n, 1int,
{
    &&& s.kind@ == kind_name(n.node)
    &&& opt_text(s.value) == leaf_text(n.node)
    &&& opt_number(s.number) == leaf_number(n.node)
    &&& s.span == n.span
    &&& match n.node {
        Form::List(v) => s.children@.len() == v@.len() && shows_all(s.children@, v@, v@.len() as int),
        Form::Table(v) => s.children@.len() == v@.len() && shows_all(
            s.children@,
            v@,
            v@.len() as int,
        ),
        Form::Sequence(v) => s.children@.len() == v@.len() && shows_all(
            s.children@,
            v@,
            v@.len() as int,
        ),
        _ => s.children@.len() == 0,
    }
}

/// Each of the first `k` plain nodes shows its AST node.
pub open spec fn shows_all(s: Seq<SerialNode>, nodes: Seq<AstNode>, k: int) -> bool
    decreases nodes, k,
{
    if 0 < k <= nodes.len() {
        shows_all(s, nodes, k - 1) && shows(s[k - 1], nodes[k - 1])
    } else {
        true
    }
}

proof fn shows_all_of_prefix(s: Seq<SerialNode>, t: Seq<SerialNode>, nodes: Seq<AstNode>, k: int)
    requires
        shows_all(s, nodes, k),
        forall|i: int| 0 <= i < k ==> #[trigger] t[i] == s[i],
    ensures
        shows_all(t, nodes, k),
    decreases k,
{
    if 0 < k <= nodes.len() {
        shows_all_of_prefix(s, t, nodes, k - 1);
    }
}

impl SerialNode {
    pub fn from_ast(node: &AstNode) -> (r: Self)
        ensures
            shows(r, *node),
        decreases *node, 1int,
    {
        match &node.node {
            Form::List(ch) => Self::branch("list", ch, node),
            Form::Table(ch) => Self::branch("table", ch, node),
            Form::Sequence(ch) => Self::branch("seq", ch, node),
            Form::Symbol(s) => Self::leaf("sym", Some(s.clone()), None, node),
            Form::Keyword(s) => Self::leaf("keyword", Some(s.clone()), None, node),
            Form::Str(s) => Self::leaf("str", Some(s.clone()), None, node),
            Form::Number(n) => Self::leaf("num", None, Some(n.dup()), node),
            Form::Bool(b) => {
                let value = if *b {
                    "true"
                } else {
                    "false"
                };
                Self::leaf("bool", Some(value.to_owned()), None, node)
            },
            Form::Nil => Self::leaf("nil", None, None, node),
            Form::Varargs => Self::leaf("vararg", None, None, node),
            _ => Self::leaf("other", None, None, node),
        }
    }

    fn leaf(
        kind: &'static str,
        value: Option<String>,
        number: Option<Number>,
        node: &AstNode,
    ) -> (r: Self)
        ensures
            r.kind@ == kind@,
            r.value == value,
            r.number == number,
            r.children@.len() == 0,
            r.span == node.span,
    {
        SerialNode { kind, value, number, children: Vec::new(), span: node.span }
    }

    fn branch(kind: &'static str, nodes: &Vec<AstNode>, node: &AstNode) -> (r: Self)
        requires
            decreases_to!(*node => nodes@),
        ensures
            r.kind@ == kind@,
            r.value is None,
            r.number is None,
            r.children@.len() == nodes@.len(),
            shows_all(r.children@, nodes@, nodes@.len() as int),
            r.span == node.span,
        decreases *node, 0int,
    {
        let mut children: Vec<SerialNode> = Vec::new();
        let mut i: usize = 0;
        while i < nodes.len()
            invariant
                i <= nodes@.len(),
                decreases_to!(*node => nodes@),
                children@.len() == i,
                shows_all(children@, nodes@, i as int),
            decreases nodes@.len() - i,
        {
            assert(decreases_to!(nodes@ => nodes@[i as int]));
            let child = Self::from_ast(&nodes[i]);
            let ghost before = children@;
            children.push(child);
            proof {
                shows_all_of_prefix(before, children@, nodes@, i as int);
            }
            i = i + 1;
        }
        SerialNode { kind, value: None, number: None, children, span: node.span }
    }
}

// ── Instructions from plain fields ──────────────────────────────────────────

#[verifier::ext_equal]
pub ghost enum InstructionView {
    Bind { name: Seq<char>, span: Span },
    Analyze { index: usize },
    AnalyzeFn { index: usize },
    ScopeOpen { span: Span },
    ScopeClose,
    SubFormCompletions { index: usize, completions: Seq<Seq<char>> },
    AnalyzeChildAt { parent: usize, child: usize },
}

impl View for Instruction {
    type V = InstructionView;

    open spec fn view(&self) -> InstructionView {
        match *self {
            Instruction::Bind { name, span } => InstructionView::Bind { name: name@, span },
            Instruction::Analyze { index } => InstructionView::Analyze { index },
            Instruction::AnalyzeFn { index } => InstructionView::AnalyzeFn { index },
            Instruction::ScopeOpen { span } => InstructionView::ScopeOpen { span },
            Instruction::ScopeClose => InstructionView::ScopeClose,
            Instruction::SubFormCompletions { index, completions } =>
                InstructionView::SubFormCompletions { index, completions: texts(completions@) },
            Instruction::AnalyzeChildAt { parent, child } => InstructionView::AnalyzeChildAt {
                parent,
                child,
            },
        }
    }
}

/// The fields of a span that a hook gave.
#[derive(Debug, Clone, Copy)]
pub struct SpanFields {
    pub start: Option<u32>,
    pub end: Option<u32>,
    pub line: Option<u32>,
    pub col: Option<u32>,
    pub end_line: Option<u32>,
    pub end_col: Option<u32>,
}

pub open spec fn number_or(n: Option<u32>, other: u32) -> u32 {
    match n {
        Some(n) => n,
        None => other,
    }
}

/// A span needs a start, an end, a line and a column; where it ends as a line
/// and a column may be left out.
pub open spec fn span_of(t: SpanFields) -> Option<Span> {
    if t.start is Some && t.end is Some && t.line is Some && t.col is Some {
        Some(
            Span {
                start: t.start->0,
                end: t.end->0,
                line: t.line->0,
                col: t.col->0,
                end_line: number_or(t.end_line, 0),
                end_col: number_or(t.end_col, 0),
            },
        )
    } else {
        None
    }
}

fn or_zero(n: Option<u32>) -> (r: u32)
    ensures
        r == number_or(n, 0),
{
    match n {
        Some(n) => n,
        None => 0,
    }
}

fn span_from_fields(t: &SpanFields) -> (r: Option<Span>)
    ensures
        r == span_of(*t),
{
    match (t.start, t.end, t.line, t.col) {
        (Some(start), Some(end), Some(line), Some(col)) => Some(
            Span {
                start,
                end,
                line,
                col,
                end_line: or_zero(t.end_line),
                end_col: or_zero(t.end_col),
            },
        ),
        _ => None,
    }
}

/// The fields of an instruction that a hook gave; a field that was not given, or
/// is of another type, is none.
#[derive(Debug)]
pub struct InstructionFields {
    pub kind: Option<String>,
    pub name: Option<String>,
    pub index: Option<usize>,
    pub span: Option<SpanFields>,
    pub completions: Option<Vec<String>>,
}

#[verifier::ext_equal]
pub ghost struct FieldsView {
    pub kind: Option<Seq<char>>,
    pub name: Option<Seq<char>>,
    pub index: Option<usize>,
    pub span: Option<SpanFields>,
    pub completions: Option<Seq<Seq<char>>>,
}

impl View for InstructionFields {
    type V = FieldsView;

    open spec fn view(&self) -> FieldsView {
        FieldsView {
            kind: opt_text(self.kind),
            name: opt_text(self.name),
            index: self.index,
            span: self.span,
            completions: match self.completions {
                Some(v) => Some(texts(v@)),
                None => None,
            },
        }
    }
}

/// Why an instruction of a hook cannot be carried out.
#[derive(Debug)]
pub enum InstructionError {
    /// A field is missing or of another type.
    Missing(&'static str),
    /// The type of the instruction is not known.
    Unknown(String),
}

#[verifier::ext_equal]
pub ghost enum InstructionErrorView {
    Missing(Seq<char>),
    Unknown(Seq<char>),
}

impl View for InstructionError {
    type V = InstructionErrorView;

    open spec fn view(&self) -> InstructionErrorView {
        match *self {
            InstructionError::Missing(field) => InstructionErrorView::Missing(field@),
            InstructionError::Unknown(kind) => InstructionErrorView::Unknown(kind@),
        }
    }
}

pub type InstructionReading = Result<InstructionView, InstructionErrorView>;

/// A missing field.
pub open spec fn missing(field: Seq<char>) -> InstructionReading {
    Err(InstructionErrorView::Missing(field))
}

pub open spec fn span_field(t: FieldsView) -> Option<Span> {
    match t.span {
        Some(fields) => span_of(fields),
        None => None,
    }
}

/// The instruction that some fields spell.
pub open spec fn instruction_of(t: FieldsView) -> InstructionReading {
    match t.kind {
        None => missing("type"@),
        Some(kind) => if kind == "bind"@ {
            match (t.name, span_field(t)) {
                (None, _) => missing("name"@),
                (_, None) => missing("span"@),
                (Some(name), Some(span)) => Ok(InstructionView::Bind { name, span }),
            }
        } else if kind == "analyze"@ {
            match t.index {
                Some(index) => Ok(InstructionView::Analyze { index }),
                None => missing("index"@),
            }
        } else if kind == "analyze-fn"@ {
            match t.index {
                Some(index) => Ok(InstructionView::AnalyzeFn { index }),
                None => missing("index"@),
            }
        } else if kind == "scope-open"@ {
            match span_field(t) {
                Some(span) => Ok(InstructionView::ScopeOpen { span }),
                None => missing("span"@),
            }
        } else if kind == "scope-close"@ {
            Ok(InstructionView::ScopeClose)
        } else if kind == "sub-form-completions"@ {
            match (t.completions, t.index) {
                (None, _) => missing("completions"@),
                (_, None) => missing("index"@),
                (Some(completions), Some(index)) => Ok(
                    InstructionView::SubFormCompletions { index, completions },
                ),
            }
        } else {
            Err(InstructionErrorView::Unknown(kind))
        },
    }
}

pub open spec fn reading_view(r: Result<Instruction, InstructionError>) -> InstructionReading {
    match r {
        Ok(i) => Ok(i@),
        Err(e) => Err(e@),
    }
}

impl Instruction {
    /// Reads an instruction from its fields.
    pub fn from_fields(t: InstructionFields) -> (r: Result<Self, InstructionError>)
        ensures
            reading_view(r) == instruction_of(t@),
    {
        let span = match &t.span {
            Some(fields) => span_from_fields(fields),
            None => None,
        };
        assert(span == span_field(t@));
        let kind = match t.kind {
            Some(kind) => kind,
            None => {
                return Err(InstructionError::Missing("type"));
            },
        };
        if same(&kind, "bind") {
            return match (t.name, span) {
                (None, _) => Err(InstructionError::Missing("name")),
                (_, None) => Err(InstructionError::Missing("span")),
                (Some(name), Some(span)) => Ok(Instruction::Bind { name, span }),
            };
        }
        if same(&kind, "analyze") {
            return match t.index {
                Some(index) => Ok(Instruction::Analyze { index }),
                None => Err(InstructionError::Missing("index")),
            };
        }
        if same(&kind, "analyze-fn") {
            return match t.index {
                Some(index) => Ok(Instruction::AnalyzeFn { index }),
                None => Err(InstructionError::Missing("index")),
            };
        }
        if same(&kind, "scope-open") {
            return match span {
                Some(span) => Ok(Instruction::ScopeOpen { span }),
                None => Err(InstructionError::Missing("span")),
            };
        }
        if same(&kind, "scope-close") {
            return Ok(Instruction::ScopeClose);
        }
        if same(&kind, "sub-form-completions") {
            return match (t.completions, t.index) {
                (None, _) => Err(InstructionError::Missing("completions")),
                (_, None) => Err(InstructionError::Missing("index")),
                (Some(completions), Some(index)) => Ok(
                    Instruction::SubFormCompletions { index, completions },
                ),
            };
        }
        Err(InstructionError::Unknown(kind))
    }
}

// ── Hooks of a file ─────────────────────────────────────────────────────────

/// A question to the hook of a macro about one call.
#[derive(Debug)]
pub struct HookRequest {
    /// Where the call starts.
    pub start: u32,
    /// The module that the macro comes from; empty for a macro of the file itself.
    pub module: String,
    pub name: String,
    pub call: SerialNode,
}

#[verifier::ext_equal]
pub ghost struct RequestView {
    pub start: u32,
    pub module: Seq<char>,
    pub name: Seq<char>,
    pub node: AstNode,
}

/// The request asks about the call.
pub open spec fn asks(r: HookRequest, v: RequestView) -> bool {
    r.start == v.start && r.module@ == v.module && r.name@ == v.name && shows(r.call, v.node)
}

/// The questions about the first `k` macro calls of a file. A call that is no list
/// of the file is left out.
pub open spec fn questions(f: FileView, k: int) -> Seq<RequestView>
    decreases k,
{
    if 0 < k <= f.analysis.macro_calls.len() {
        let before = questions(f, k - 1);
        let (start, module, name) = f.analysis.macro_calls[k - 1];
        match first_list_at(reached(Rule::All, f.ast), start, 0) {
            Some(node) => before.push(
                RequestView {
                    start,
                    module: match module {
                        Some(m) => m,
                        None => ""@,
                    },
                    name,
                    node,
                },
            ),
            None => before,
        }
    } else {
        Seq::empty()
    }
}

/// The questions to the hooks about the macro calls of a file.
pub fn hook_requests(file: &AnalyzedFile) -> (r: Vec<HookRequest>)
    ensures
        r@.len() == questions(file@, file@.analysis.macro_calls.len() as int).len(),
        forall|i: int|
            0 <= i < r@.len() ==> asks(
                #[trigger] r@[i],
                questions(file@, file@.analysis.macro_calls.len() as int)[i],
            ),
{
    let mut out: Vec<HookRequest> = Vec::new();
    let mut k: usize = 0;
    while k < file.analysis.macro_calls.len()
        invariant
            k <= file.analysis.macro_calls@.len(),
            out@.len() == questions(file@, k as int).len(),
            forall|i: int|
                0 <= i < out@.len() ==> asks(#[trigger] out@[i], questions(file@, k as int)[i]),
        decreases file.analysis.macro_calls@.len() - k,
    {
        let call = &file.analysis.macro_calls[k];
        assert(file@.analysis.macro_calls[k as int] == (call.0, opt_text(call.1), call.2@));
        if let Some(node) = file.find_list_at(call.0) {
            let module = match &call.1 {
                Some(m) => m.clone(),
                None => "".to_owned(),
            };
            out.push(
                HookRequest {
                    start: call.0,
                    module,
                    name: call.2.clone(),
                    call: SerialNode::from_ast(node),
                },
            );
        }
        k = k + 1;
    }
    out
}

/// What the hooks answered about the calls of a file so far.
pub struct HookAnswers {
    /// The instructions of each answered call, by where it starts.
    pub results: HashMap<u32, Vec<Instruction>>,
    /// The calls without a hook, as far as the configuration asks for them.
    pub unhooked: Vec<(Span, String)>,
    /// Whether calls without a hook are noted.
    pub warn: bool,
}

impl HookAnswers {
    pub fn new(warn: bool) -> (r: Self)
        ensures
            r.results@ == Map::<u32, Vec<Instruction>>::empty(),
            call_site_views(r.unhooked@) == Seq::<(Span, Seq<char>)>::empty(),
            r.warn == warn,
    {
        let r = HookAnswers { results: HashMap::new(), unhooked: Vec::new(), warn };
        assert(r.results@ =~= Map::<u32, Vec<Instruction>>::empty());
        assert(call_site_views(r.unhooked@) =~= Seq::<(Span, Seq<char>)>::empty());
        r
    }

    /// Takes the answer to a question: instructions, or none where the macro has
    /// no hook.
    pub fn answer(&mut self, request: &HookRequest, reply: Option<Vec<Instruction>>)
        ensures
            final(self).warn == old(self).warn,
            match reply {
                Some(instructions) => {
                    &&& final(self).results@ == old(self).results@.insert(
                        request.start,
                        instructions,
                    )
                    &&& final(self).unhooked@ == old(self).unhooked@
                },
                None => {
                    &&& final(self).results@ == old(self).results@
                    &&& call_site_views(final(self).unhooked@) == (if old(self).warn {
                        call_site_views(old(self).unhooked@).push(
                            (request.call.span, request.name@),
                        )
                    } else {
                        call_site_views(old(self).unhooked@)
                    })
                },
            },
    {
        match reply {
            Some(instructions) => {
                broadcast use vstd::std_specs::hash::group_hash_axioms;

                self.results.insert(request.start, instructions);
            },
            None => {
                if self.warn {
                    let ghost before = call_site_views(self.unhooked@);
                    self.unhooked.push((request.call.span, request.name.clone()));
                    assert(call_site_views(self.unhooked@) =~= before.push(
                        (request.call.span, request.name@),
                    ));
                }
            },
        }
    }
}

// ── Results of earlier runs ─────────────────────────────────────────────────

/// Results cached for a specific file version.
/// Maps call_span_start → list of instructions for that macro call.
pub type VersionedResults = (i32, Arc<HashMap<u32, Vec<Instruction>>>);

/// The results that a map holds, by URI.
pub uninterp spec fn results_map(m: DashMap<String, VersionedResults>) -> Map<
    Seq<char>,
    VersionedResults,
>;

/// Wraps `DashMap::new`: a map without entries.
#[verifier::external_body]
fn no_results() -> (r: DashMap<String, VersionedResults>)
    ensures
        results_map(r).dom() == Set::<Seq<char>>::empty(),
{
    DashMap::new()
}

/// Wraps `DashMap::insert`: the key has the value, other keys keep theirs.
#[verifier::external_body]
fn insert_results(m: &mut DashMap<String, VersionedResults>, key: String, value: VersionedResults)
    ensures
        results_map(*final(m)) == results_map(*old(m)).insert(key@, value),
{
    m.insert(key, value);
}

/// Wraps `DashMap::get`: the value of the key, shared.
#[verifier::external_body]
fn get_results(m: &DashMap<String, VersionedResults>, key: &str) -> (r: Option<VersionedResults>)
    ensures
        r == (if results_map(*m).dom().contains(key@) {
            Some(results_map(*m)[key@])
        } else {
            None
        }),
{
    m.get(key).map(|entry| entry.value().clone())
}

/// The results stored for a version of a file.
pub open spec fn cached_for(
    stored: Map<Seq<char>, VersionedResults>,
    uri: Seq<char>,
    version: i32,
) -> Option<Arc<HashMap<u32, Vec<Instruction>>>> {
    if stored.dom().contains(uri) && stored[uri].0 == version {
        Some(stored[uri].1)
    } else {
        None
    }
}

/// After results were stored for a version of a file, they are found for this
/// version, none are found for any other version of the file, and other files
/// keep theirs.
pub proof fn stored_results_are_found(
    stored: Map<Seq<char>, VersionedResults>,
    uri: Seq<char>,
    entry: VersionedResults,
    other: Seq<char>,
    version: i32,
)
    ensures
        cached_for(stored.insert(uri, entry), other, version) == (if other == uri {
            if version == entry.0 {
                Some(entry.1)
            } else {
                None
            }
        } else {
            cached_for(stored, other, version)
        }),
{
}

/// Remembers, for each file, what the hooks said about its last version.
pub struct HookRunner {
    /// Per-file cache: URI string → (version, call_span_start → instructions).
    cache: DashMap<String, VersionedResults>,
}

impl HookRunner {
    /// The stored results: URI → (version, results).
    pub closed spec fn stored(&self) -> Map<Seq<char>, VersionedResults> {
        results_map(self.cache)
    }

    pub fn new() -> (r: Self)
        ensures
            r.stored() == Map::<Seq<char>, VersionedResults>::empty(),
    {
        let r = HookRunner { cache: no_results() };
        assert(r.stored() =~= Map::<Seq<char>, VersionedResults>::empty());
        r
    }

    /// Look up cached hook results for `(uri, version)`.
    /// Returns `None` if the cache is empty or the stored version differs.
    pub fn cached_results(&self, uri: &str, version: i32) -> (r: Option<
        Arc<HashMap<u32, Vec<Instruction>>>,
    >)
        ensures
            r == cached_for(self.stored(), uri@, version),
    {
        match get_results(&self.cache, uri) {
            Some((stored, results)) => if stored == version {
                Some(results)
            } else {
                None
            },
            None => None,
        }
    }

    /// Store hook results for `(uri, version)`, replacing any previous entry.
    pub fn store_results(
        &mut self,
        uri: String,
        version: i32,
        results: HashMap<u32, Vec<Instruction>>,
    )
        ensures
            final(self).stored() == old(self).stored().insert(
                uri@,
                (version, final(self).stored()[uri@].1),
            ),
            (*final(self).stored()[uri@].1)@ == results@,
    {
        insert_results(&mut self.cache, uri, (version, Arc::new(results)));
        assert(self.stored()[uri@].0 == version);
    }
}

/// Whether the results of hooks call for a second analysis of a file: there are some.
pub fn needs_second_pass(results: &HashMap<u32, Vec<Instruction>>) -> (r: bool)
    ensures
        r == (results@.len() > 0),
{
    results.len() > 0
}

// ── Macro expansion ─────────────────────────────────────────────────────────

/// Whether the names that macros introduce have to be looked up: the file
/// imports macros.
pub fn needs_expansion(text: &str) -> (r: bool)
    ensures
        r == (holds(text@, "import-macros"@) || holds(text@, "require-macros"@)),
{
    contains(text, "import-macros") || contains(text, "require-macros")
}

/// The names that the first `k` characters list, one per line: what the complete
/// lines hold, each name once, and the line that is still open.
pub open spec fn listed(s: Seq<char>, k: int) -> (Seq<Seq<char>>, Seq<char>)
    decreases k,
{
    if 0 < k <= s.len() {
        let (names, line) = listed(s, k - 1);
        if s[k - 1] == '\n' {
            (with_name(names, line_text(line)), Seq::empty())
        } else {
            (names, line.push(s[k - 1]))
        }
    } else {
        (Seq::empty(), Seq::empty())
    }
}

/// A line without the carriage return at its end.
pub open spec fn line_text(line: Seq<char>) -> Seq<char> {
    if line.len() > 0 && line.last() == '\r' {
        line.drop_last()
    } else {
        line
    }
}

/// The names and one more, unless it is empty or among them.
pub open spec fn with_name(names: Seq<Seq<char>>, name: Seq<char>) -> Seq<Seq<char>> {
    if name.len() == 0 || names.contains(name) {
        names
    } else {
        names.push(name)
    }
}

/// The names that a text lists, one per line.
pub open spec fn names_listed(s: Seq<char>) -> Seq<Seq<char>> {
    let (names, line) = listed(s, s.len() as int);
    with_name(names, line)
}

fn add_name(names: &mut Vec<String>, name: String)
    ensures
        texts(final(names)@) == with_name(texts(old(names)@), name@),
{
    let ghost before = texts(names@);
    if chars_of(&name).len() > 0 && !has_text(names, &name) {
        names.push(name);
        assert(texts(names@) =~= before.push(name@));
    }
}

/// The names that the expander found: one per line, empty lines left out, each
/// name once.
pub fn expanded_names(output: &str) -> (r: Vec<String>)
    ensures
        texts(r@) == names_listed(output@),
{
    let chars = chars_of(output);
    let ghost s = output@;
    let mut names: Vec<String> = Vec::new();
    let mut start: usize = 0;
    let mut k: usize = 0;
    assert(texts(names@) =~= Seq::<Seq<char>>::empty());
    while k < chars.len()
        invariant
            start <= k <= chars@.len(),
            chars@ == s,
            listed(s, k as int) == (texts(names@), s.subrange(start as int, k as int)),
        decreases chars@.len() - k,
    {
        let ghost line = s.subrange(start as int, k as int);
        if chars[k] == '\n' {
            let stop: usize = if k > start && chars[k - 1] == '\r' {
                k - 1
            } else {
                k
            };
            let name = text_between(&chars, start, stop);
            assert(name@ =~= line_text(line));
            add_name(&mut names, name);
            start = k + 1;
            assert(s.subrange(start as int, k + 1) =~= Seq::<char>::empty());
        } else {
            assert(s.subrange(start as int, k + 1) =~= line.push(s[k as int]));
        }
        k = k + 1;
    }
    let last = text_between(&chars, start, chars.len());
    add_name(&mut names, last);
    names
}

} // verus!
