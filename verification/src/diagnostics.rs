//! Diagnostics: parse errors, warnings of the analysis, and unknown identifiers.
use vstd::prelude::*;
use vstd::string::*;
use vstd::utf8::*;

use crate::analyzer::{
    analysis, analyze, opt_text, AnalysisWarning, SymbolEntry, SymbolView, WarningView,
};
use crate::docs::{builtin_of, builtins_of, default_set, BuiltinSet, BuiltinView, Platform};
use crate::lexer::Span;
use crate::lsp::{Location, LocationView};
use crate::parser::{error_views, node_views, parse_source, AstNode, ParseErrorView, Parser};
use crate::scoping::quoted;
use crate::strings::{contains, holds, root, root_of, same, texts};
use crate::text::{range_of, span_to_range, Range};
use crate::workspace::{countable, AnalyzedFile, FileView};

verus! {

#[derive(Debug, Clone, Copy, PartialEq, Eq, Structural)]
pub enum DiagnosticSeverity {
    Error,
    Warning,
    Hint,
}

#[derive(Debug, Clone, Copy, PartialEq, Eq, Structural)]
pub enum DiagnosticTag {
    Unnecessary,
}

/// Something to report about a stretch of a file.
#[derive(Debug)]
pub struct Diagnostic {
    pub range: Range,
    pub severity: DiagnosticSeverity,
    pub message: String,
    pub code: Option<String>,
    pub tags: Option<Vec<DiagnosticTag>>,
    /// Another place that the report speaks of, and what it says of it.
    pub related: Option<(Location, String)>,
}

#[verifier::ext_equal]
pub ghost struct DiagnosticView {
    pub range: Range,
    pub severity: DiagnosticSeverity,
    pub message: Seq<char>,
    pub code: Option<Seq<char>>,
    pub tags: Option<Seq<DiagnosticTag>>,
    pub related: Option<(LocationView, Seq<char>)>,
}

impl View for Diagnostic {
    type V = DiagnosticView;

    open spec fn view(&self) -> DiagnosticView {
        DiagnosticView {
            range: self.range,
            severity: self.severity,
            message: self.message@,
            code: opt_text(self.code),
            tags: match self.tags {
                Some(t) => Some(t@),
                None => None,
            },
            related: match self.related {
                Some((l, m)) => Some((l@, m@)),
                None => None,
            },
        }
    }
}

pub open spec fn diagnostic_views(s: Seq<Diagnostic>) -> Seq<DiagnosticView> {
    Seq::new(s.len(), |i: int| s[i]@)
}

// ── Codes ───────────────────────────────────────────────────────────────────

/// The code of a warning, by what its message says.
pub open spec fn code_of(msg: Seq<char>) -> Option<Seq<char>> {
    if holds(msg, "already defined"@) || holds(msg, "shadows a binding"@) {
        Some("shadow"@)
    } else if holds(msg, "required but never used"@) {
        Some("unused-require"@)
    } else if holds(msg, "never used"@) {
        Some("unused-local"@)
    } else if holds(msg, "parameter"@) && holds(msg, "unused"@) {
        Some("unused-param"@)
    } else if holds(msg, "never mutated"@) {
        Some("never-mutated"@)
    } else if holds(msg, "immutable"@) {
        Some("immutable"@)
    } else if holds(msg, "expects"@) {
        Some("arity"@)
    } else if holds(msg, "unknown identifier"@) {
        Some("unknown"@)
    } else {
        None
    }
}

/// Return a diagnostic code string for a warning message, or `None` for parse errors.
pub fn warning_code(msg: &str) -> (r: Option<&'static str>)
    ensures
        match r {
            Some(c) => code_of(msg@) == Some(c@),
            None => code_of(msg@) is None,
        },
{
    if contains(msg, "already defined") || contains(msg, "shadows a binding") {
        Some("shadow")
    } else if contains(msg, "required but never used") {
        Some("unused-require")
    } else if contains(msg, "never used") {
        Some("unused-local")
    } else if contains(msg, "parameter") && contains(msg, "unused") {
        Some("unused-param")
    } else if contains(msg, "never mutated") {
        Some("never-mutated")
    } else if contains(msg, "immutable") {
        Some("immutable")
    } else if contains(msg, "expects") {
        Some("arity")
    } else if contains(msg, "unknown identifier") {
        Some("unknown")
    } else {
        None
    }
}

/// A message about code that could be left out.
pub open spec fn is_idle_message(msg: Seq<char>) -> bool {
    holds(msg, "required but never used"@) || holds(msg, "never used"@) || (holds(
        msg,
        "parameter"@,
    ) && holds(msg, "unused"@))
}

pub open spec fn tags_of(msg: Seq<char>) -> Option<Seq<DiagnosticTag>> {
    if is_idle_message(msg) {
        Some(seq![DiagnosticTag::Unnecessary])
    } else {
        None
    }
}

/// Return `DiagnosticTag::Unnecessary` for warnings about dead/unused code.
pub fn warning_tags(msg: &str) -> (r: Option<Vec<DiagnosticTag>>)
    ensures
        match r {
            Some(t) => tags_of(msg@) == Some(t@),
            None => tags_of(msg@) is None,
        },
{
    if contains(msg, "required but never used") || contains(msg, "never used") || (contains(
        msg,
        "parameter",
    ) && contains(msg, "unused")) {
        let t = vec![DiagnosticTag::Unnecessary];
        assert(t@ =~= seq![DiagnosticTag::Unnecessary]);
        Some(t)
    } else {
        None
    }
}

// ── Globals ─────────────────────────────────────────────────────────────────

/// Common Lua globals without documentation of their own.
pub const LUA_GLOBALS: [&'static str; 16] = [
    "_G",
    "_VERSION",
    "arg",
    "bit",
    "bit32",
    "debug",
    "jit",
    "package",
    "utf8",
    "ffi",
    "love",
    "vim",
    "hs",
    "mp",
    "fennel",
    "___repl___",
];

pub open spec fn is_lua_global(name: Seq<char>) -> bool {
    exists|i: int| 0 <= i < LUA_GLOBALS@.len() && (#[trigger] LUA_GLOBALS@[i])@ == name
}

/// Common Lua globals not in our doc table that we shouldn't warn about.
pub fn known_global(name: &str) -> (r: bool)
    ensures
        r == is_lua_global(name@),
{
    let all = LUA_GLOBALS;
    let mut i: usize = 0;
    while i < all.len()
        invariant
            i <= all@.len(),
            all@ == LUA_GLOBALS@,
            forall|j: int| 0 <= j < i ==> (#[trigger] LUA_GLOBALS@[j])@ != name@,
        decreases all@.len() - i,
    {
        if same(all[i], name) {
            assert(LUA_GLOBALS@[i as int]@ == name@);
            return true;
        }
        i = i + 1;
    }
    false
}

/// Whether the name is among the strings.
pub fn has_text(names: &[String], name: &str) -> (r: bool)
    ensures
        r == texts(names@).contains(name@),
{
    let ghost t = texts(names@);
    let mut i: usize = 0;
    while i < names.len()
        invariant
            i <= names@.len(),
            t == texts(names@),
            forall|j: int| 0 <= j < i ==> #[trigger] t[j] != name@,
        decreases names@.len() - i,
    {
        if same(&names[i], name) {
            assert(t[i as int] == name@);
            return true;
        }
        i = i + 1;
    }
    false
}

/// A reference to a name that nothing known explains.
pub open spec fn is_unknown(
    sym: SymbolView,
    builtins: Seq<(Seq<char>, BuiltinView)>,
    extra: Seq<Seq<char>>,
    macros: Seq<Seq<char>>,
) -> bool {
    let root = root_of(sym.name);
    &&& !sym.is_def
    &&& sym.def_byte is None
    &&& !sym.in_macro
    &&& builtin_of(builtins, sym.name) is None
    &&& !is_lua_global(root)
    &&& !extra.contains(root)
    &&& !macros.contains(root)
}

fn unknown_symbol(
    sym: &SymbolEntry,
    builtins: &BuiltinSet,
    extra_globals: &[String],
    macro_globals: &[String],
) -> (r: bool)
    ensures
        r == is_unknown(sym@, builtins@, texts(extra_globals@), texts(macro_globals@)),
{
    if sym.is_def || sym.def_byte.is_some() || sym.in_macro || builtins.is_known(&sym.name) {
        return false;
    }
    let root = root(&sym.name);
    !known_global(&root) && !has_text(extra_globals, &root) && !has_text(macro_globals, &root)
}

// ── Diagnostics of a file ───────────────────────────────────────────────────

pub open spec fn plain(
    range: Range,
    severity: DiagnosticSeverity,
    message: Seq<char>,
) -> DiagnosticView {
    DiagnosticView { range, severity, message, code: None, tags: None, related: None }
}

pub open spec fn error_diagnostics(f: FileView) -> Seq<DiagnosticView> {
    Seq::new(
        f.errors.len(),
        |i: int|
            plain(
                range_of(encode_utf8(f.text), f.errors[i].span),
                DiagnosticSeverity::Error,
                f.errors[i].message,
            ),
    )
}

pub open spec fn warning_diagnostic(f: FileView, w: WarningView) -> DiagnosticView {
    let b = encode_utf8(f.text);
    DiagnosticView {
        range: range_of(b, w.span),
        severity: DiagnosticSeverity::Warning,
        message: w.message,
        code: code_of(w.message),
        tags: tags_of(w.message),
        related: match w.related_span {
            Some(s) => Some(
                (
                    LocationView { uri: f.uri, range: range_of(b, s) },
                    "original definition here"@,
                ),
            ),
            None => None,
        },
    }
}

pub open spec fn warning_diagnostics(f: FileView) -> Seq<DiagnosticView> {
    Seq::new(f.analysis.warnings.len(), |i: int| warning_diagnostic(f, f.analysis.warnings[i]))
}

pub open spec fn unhooked_diagnostic(f: FileView, span: Span, name: Seq<char>) -> DiagnosticView {
    DiagnosticView {
        code: Some("unhooked-macro"@),
        ..plain(
            range_of(encode_utf8(f.text), span),
            DiagnosticSeverity::Hint,
            "macro "@ + quoted(name)
                + " has no hook definition; add one under :macro-hooks in .lsp.fnl for better analysis"@,
        )
    }
}

pub open spec fn unhooked_diagnostics(f: FileView) -> Seq<DiagnosticView> {
    Seq::new(f.unhooked.len(), |i: int| unhooked_diagnostic(f, f.unhooked[i].0, f.unhooked[i].1))
}

/// The reports of unknown identifiers among the first `k` symbols.
pub open spec fn unknown_diagnostics(
    f: FileView,
    builtins: Seq<(Seq<char>, BuiltinView)>,
    extra: Seq<Seq<char>>,
    k: int,
) -> Seq<DiagnosticView>
    decreases k,
{
    if 0 < k <= f.analysis.syms.len() {
        let before = unknown_diagnostics(f, builtins, extra, k - 1);
        let sym = f.analysis.syms[k - 1];
        if is_unknown(sym, builtins, extra, f.macro_globals) {
            before.push(
                plain(
                    range_of(encode_utf8(f.text), sym.span),
                    DiagnosticSeverity::Warning,
                    "unknown identifier "@ + quoted(sym.name),
                ),
            )
        } else {
            before
        }
    } else {
        Seq::empty()
    }
}

/// All that is to be reported about a file: parse errors, warnings of the
/// analysis, macro calls without a hook, and identifiers that nothing explains.
pub open spec fn file_diagnostics(
    f: FileView,
    builtins: Seq<(Seq<char>, BuiltinView)>,
    extra: Seq<Seq<char>>,
) -> Seq<DiagnosticView> {
    error_diagnostics(f) + warning_diagnostics(f) + unhooked_diagnostics(f) + unknown_diagnostics(
        f,
        builtins,
        extra,
        f.analysis.syms.len() as int,
    )
}

/// `before`, the name between backticks, `after`.
fn about(before: &str, name: &str, after: &str) -> (r: String)
    ensures
        r@ == before@ + quoted(name@) + after@,
{
    let mut out = before.to_owned();
    out.push('`');
    out.append(name);
    out.push('`');
    out.append(after);
    assert(out@ =~= before@ + quoted(name@) + after@);
    out
}

fn warning_report(file: &AnalyzedFile, w: &AnalysisWarning) -> (r: Diagnostic)
    ensures
        r@ == warning_diagnostic(file@, w@),
{
    Diagnostic {
        range: span_to_range(&file.text, &w.span),
        severity: DiagnosticSeverity::Warning,
        message: w.message.clone(),
        code: match warning_code(&w.message) {
            Some(c) => Some(c.to_owned()),
            None => None,
        },
        tags: warning_tags(&w.message),
        related: match &w.related_span {
            Some(s) => Some(
                (
                    Location { uri: file.uri.clone(), range: span_to_range(&file.text, s) },
                    "original definition here".to_owned(),
                ),
            ),
            None => None,
        },
    }
}

/// The diagnostics of a file. `extra_globals` are names of the configuration
/// that suppress reports of unknown identifiers.
pub fn diagnostics(file: &AnalyzedFile, builtins: &BuiltinSet, extra_globals: &[String]) -> (r: Vec<
    Diagnostic,
>)
    ensures
        diagnostic_views(r@) == file_diagnostics(file@, builtins@, texts(extra_globals@)),
{
    let ghost f = file@;
    let ghost b = encode_utf8(f.text);
    let ghost extra = texts(extra_globals@);
    let mut out: Vec<Diagnostic> = Vec::new();
    let mut i: usize = 0;
    while i < file.parse_errors.len()
        invariant
            i <= file.parse_errors@.len(),
            f == file@,
            out@.len() == i,
            forall|j: int| 0 <= j < i ==> (#[trigger] out@[j])@ == error_diagnostics(f)[j],
        decreases file.parse_errors@.len() - i,
    {
        let err = &file.parse_errors[i];
        assert(f.errors[i as int] == err@);
        out.push(
            Diagnostic {
                range: span_to_range(&file.text, &err.span),
                severity: DiagnosticSeverity::Error,
                message: err.message.clone(),
                code: None,
                tags: None,
                related: None,
            },
        );
        i = i + 1;
    }
    assert(diagnostic_views(out@) =~= error_diagnostics(f));
    let n0 = out.len();
    let mut i: usize = 0;
    while i < file.analysis.warnings.len()
        invariant
            i <= file.analysis.warnings@.len(),
            f == file@,
            diagnostic_views(out@) == error_diagnostics(f) + warning_diagnostics(f).take(i as int),
        decreases file.analysis.warnings@.len() - i,
    {
        let w = &file.analysis.warnings[i];
        assert(f.analysis.warnings[i as int] == w@);
        let ghost before = diagnostic_views(out@);
        let d = warning_report(file, w);
        out.push(d);
        assert(diagnostic_views(out@) =~= before.push(d@));
        i = i + 1;
        assert(diagnostic_views(out@) =~= error_diagnostics(f) + warning_diagnostics(f).take(
            i as int,
        ));
    }
    let ghost so_far = error_diagnostics(f) + warning_diagnostics(f);
    assert(diagnostic_views(out@) =~= so_far);
    let mut i: usize = 0;
    while i < file.unhooked_macros.len()
        invariant
            i <= file.unhooked_macros@.len(),
            f == file@,
            diagnostic_views(out@) == so_far + unhooked_diagnostics(f).take(i as int),
        decreases file.unhooked_macros@.len() - i,
    {
        let site = &file.unhooked_macros[i];
        assert(f.unhooked[i as int] == (site.0, site.1@));
        let ghost before = diagnostic_views(out@);
        let d = Diagnostic {
            range: span_to_range(&file.text, &site.0),
            severity: DiagnosticSeverity::Hint,
            message: about(
                "macro ",
                &site.1,
                " has no hook definition; add one under :macro-hooks in .lsp.fnl for better analysis",
            ),
            code: Some("unhooked-macro".to_owned()),
            tags: None,
            related: None,
        };
        out.push(d);
        assert(d@ =~= unhooked_diagnostics(f)[i as int]);
        assert(diagnostic_views(out@) =~= before.push(d@));
        i = i + 1;
        assert(diagnostic_views(out@) =~= so_far + unhooked_diagnostics(f).take(i as int));
    }
    let ghost before_unknown = so_far + unhooked_diagnostics(f);
    assert(diagnostic_views(out@) =~= before_unknown + unknown_diagnostics(
        f,
        builtins@,
        extra,
        0,
    ));
    let mut k: usize = 0;
    while k < file.analysis.syms.len()
        invariant
            k <= file.analysis.syms@.len(),
            f == file@,
            extra == texts(extra_globals@),
            diagnostic_views(out@) == before_unknown + unknown_diagnostics(
                f,
                builtins@,
                extra,
                k as int,
            ),
        decreases file.analysis.syms@.len() - k,
    {
        let sym = &file.analysis.syms[k];
        assert(f.analysis.syms[k as int] == sym@);
        if unknown_symbol(sym, builtins, extra_globals, &file.macro_globals) {
            let ghost before = diagnostic_views(out@);
            let d = Diagnostic {
                range: span_to_range(&file.text, &sym.span),
                severity: DiagnosticSeverity::Warning,
                message: about("unknown identifier ", &sym.name, ""),
                code: None,
                tags: None,
                related: None,
            };
            out.push(d);
            assert(d@.message =~= "unknown identifier "@ + quoted(sym@.name)) by {
                reveal_strlit("");
            }
            assert(diagnostic_views(out@) =~= before.push(d@));
            assert(before.push(d@) =~= before_unknown + unknown_diagnostics(
                f,
                builtins@,
                extra,
                k as int,
            ).push(d@));
        }
        k = k + 1;
    }
    out
}

// ── Checking a file on its own ──────────────────────────────────────────────

/// A line of the report on a file that is checked on its own. Lines and columns
/// count from 1.
#[derive(Debug)]
pub struct Finding {
    pub line: u64,
    pub column: u64,
    pub severity: DiagnosticSeverity,
    pub message: String,
}

#[verifier::ext_equal]
pub ghost struct FindingView {
    pub line: nat,
    pub column: nat,
    pub severity: DiagnosticSeverity,
    pub message: Seq<char>,
}

impl View for Finding {
    type V = FindingView;

    open spec fn view(&self) -> FindingView {
        FindingView {
            line: self.line as nat,
            column: self.column as nat,
            severity: self.severity,
            message: self.message@,
        }
    }
}

pub open spec fn finding_views(s: Seq<Finding>) -> Seq<FindingView> {
    Seq::new(s.len(), |i: int| s[i]@)
}

pub open spec fn finding_at(span: Span, severity: DiagnosticSeverity, message: Seq<char>) -> FindingView {
    FindingView {
        line: (span.line + 1) as nat,
        column: (span.col + 1) as nat,
        severity,
        message,
    }
}

pub open spec fn error_findings(errors: Seq<ParseErrorView>) -> Seq<FindingView> {
    Seq::new(
        errors.len(),
        |i: int| finding_at(errors[i].span, DiagnosticSeverity::Error, errors[i].message),
    )
}

/// The unknown identifiers among the first `k` symbols, by the builtins of the
/// default platform alone.
pub open spec fn unknown_findings(syms: Seq<SymbolView>, k: int) -> Seq<FindingView>
    decreases k,
{
    if 0 < k <= syms.len() {
        let before = unknown_findings(syms, k - 1);
        let sym = syms[k - 1];
        if is_unknown(sym, builtins_of(Platform::Lua54), Seq::empty(), Seq::empty()) {
            before.push(
                finding_at(
                    sym.span,
                    DiagnosticSeverity::Warning,
                    "unknown identifier "@ + quoted(sym.name),
                ),
            )
        } else {
            before
        }
    } else {
        Seq::empty()
    }
}

/// Check a text: its parse errors, then its unknown identifiers.
pub fn check_text(text: &str) -> (r: Vec<Finding>)
    requires
        countable(text@),
    ensures
        exists|ast: Seq<AstNode>|
            #![trigger node_views(ast)]
            node_views(ast) == parse_source(text@).0 && finding_views(r@) == error_findings(
                parse_source(text@).1,
            ) + unknown_findings(
                analysis(Map::empty(), ast).syms,
                analysis(Map::empty(), ast).syms.len() as int,
            ),
{
    let (ast, errors) = Parser::parse(text);
    let result = analyze(&ast);
    let ghost e = error_views(errors@);
    let ghost syms = result@.syms;
    let mut out: Vec<Finding> = Vec::new();
    let mut i: usize = 0;
    while i < errors.len()
        invariant
            i <= errors@.len(),
            e == error_views(errors@),
            out@.len() == i,
            forall|j: int| 0 <= j < i ==> (#[trigger] out@[j])@ == error_findings(e)[j],
        decreases errors@.len() - i,
    {
        let err = &errors[i];
        assert(e[i as int] == err@);
        out.push(
            Finding {
                line: err.span.line as u64 + 1,
                column: err.span.col as u64 + 1,
                severity: DiagnosticSeverity::Error,
                message: err.message.clone(),
            },
        );
        i = i + 1;
    }
    assert(finding_views(out@) =~= error_findings(e));
    assert(finding_views(out@) =~= error_findings(e) + unknown_findings(syms, 0));
    let builtins = default_set();
    let none: Vec<String> = Vec::new();
    assert(texts(none@) =~= Seq::<Seq<char>>::empty());
    let mut k: usize = 0;
    while k < result.syms.len()
        invariant
            k <= result.syms@.len(),
            syms == result@.syms,
            builtins@ == builtins_of(Platform::Lua54),
            texts(none@) == Seq::<Seq<char>>::empty(),
            finding_views(out@) == error_findings(e) + unknown_findings(syms, k as int),
        decreases result.syms@.len() - k,
    {
        let sym = &result.syms[k];
        assert(syms[k as int] == sym@);
        if unknown_symbol(sym, &builtins, &none, &none) {
            let ghost before = finding_views(out@);
            let x = Finding {
                line: sym.span.line as u64 + 1,
                column: sym.span.col as u64 + 1,
                severity: DiagnosticSeverity::Warning,
                message: about("unknown identifier ", &sym.name, ""),
            };
            out.push(x);
            assert(x@.message =~= "unknown identifier "@ + quoted(sym@.name)) by {
                reveal_strlit("");
            }
            assert(finding_views(out@) =~= before.push(x@));
            assert(before.push(x@) =~= error_findings(e) + unknown_findings(syms, k as int).push(
                x@,
            ));
        }
        k = k + 1;
    }
    let ghost a = ast@;
    proof {
        assert(node_views(a) == parse_source(text@).0);
    }
    out
}

} // verus!
