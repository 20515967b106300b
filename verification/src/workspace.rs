//! File state management. Each open file is parsed and analyzed on every change.
use std::collections::HashMap;
use std::sync::Arc;

use dashmap::DashMap;
use vstd::prelude::*;
use vstd::string::*;
use vstd::utf8::*;

use crate::analyzer::{
    analysis, analyze, analyze_with_hooks, in_order_holds, opt_text, opt_texts, sorted_keys,
    well_formed, AnalysisResult, AnalysisView, DefinitionInfo, DefinitionView,
};
use crate::docs::{builtins_of, BuiltinSet, BuiltinView, Platform};
use crate::hooks::Instruction;
use crate::lexer::Span;
use crate::lsp::{Location, LocationView};
use crate::lua_text::{ends_in_comment_behind_shebang, no_bare_backtick};
use crate::lua::lua_tree;
use crate::lua_to_fennel::{file_forms, line_map, lines_text, transpile};
use crate::names::{value_of, with_value, NameMap};
use crate::parser::{
    error_views, node_views, parse_source, refs_are, AstNode, Form, ParseError, ParseErrorView, Parser,
};
use crate::scoping::{in_order, Hooks};
use crate::strings::{
    before_joint, byte_len, contains, first_part, holds, same, slice, split_at_joint,
    split_multisym, texts,
};
use crate::text::{
    breaks, char_start, floor_to_char, range_of, span_to_range, text_before, Position, Range,
};
use crate::walks::{reach, reached, Rule};

verus! {

// ── Modules ─────────────────────────────────────────────────────────────────

/// A cross-file reference to a definition in another file.
#[derive(Debug, Clone)]
pub struct CrossFileRef {
    pub uri: String,
    pub text: String,
    pub span: Span,
    /// Full multisym as it appears in the referencing file (e.g. `"utils.greet"`).
    pub sym_name: String,
}

#[verifier::ext_equal]
pub ghost struct CrossRefView {
    pub uri: Seq<char>,
    pub text: Seq<char>,
    pub span: Span,
    pub sym_name: Seq<char>,
}

impl View for CrossFileRef {
    type V = CrossRefView;

    open spec fn view(&self) -> CrossRefView {
        CrossRefView {
            uri: self.uri@,
            text: self.text@,
            span: self.span,
            sym_name: self.sym_name@,
        }
    }
}

pub open spec fn cross_ref_views(s: Seq<CrossFileRef>) -> Seq<CrossRefView> {
    Seq::new(s.len(), |i: int| s[i]@)
}

/// Describes the origin of an analyzed module's text.
#[derive(Debug)]
pub enum ModuleSource {
    /// Native Fennel file — spans refer directly to the Fennel source.
    Fennel,
    /// Transpiled from a Lua file.
    ///
    /// `source_map[i]` gives the Lua source line (1-indexed) for Fennel output
    /// line `i + 1`. Used to remap definition spans back to their original Lua
    /// positions when producing LSP Locations.
    Lua { source_map: Vec<u32> },
}

#[verifier::ext_equal]
pub ghost enum SourceView {
    Fennel,
    Lua(Seq<u32>),
}

impl View for ModuleSource {
    type V = SourceView;

    open spec fn view(&self) -> SourceView {
        match self {
            ModuleSource::Fennel => SourceView::Fennel,
            ModuleSource::Lua { source_map } => SourceView::Lua(source_map@),
        }
    }
}

/// Top-level exports from a required module file.
#[derive(Debug)]
pub struct ModuleExports {
    pub uri: String,
    /// The Fennel text that was analyzed (either native source or transpiled from Lua).
    /// Byte offsets in `defs` refer to positions within this string.
    pub text: String,
    /// Top-level definitions, keyed by name.
    pub defs: NameMap<DefinitionInfo>,
    /// Where this module's text came from; drives position remapping in `location_for_def`.
    pub source: ModuleSource,
}

#[verifier::ext_equal]
pub ghost struct ExportsView {
    pub uri: Seq<char>,
    pub text: Seq<char>,
    pub defs: Seq<(Seq<char>, DefinitionView)>,
    pub source: SourceView,
}

impl View for ModuleExports {
    type V = ExportsView;

    open spec fn view(&self) -> ExportsView {
        ExportsView {
            uri: self.uri@,
            text: self.text@,
            defs: self.defs@,
            source: self.source@,
        }
    }
}

/// The number of line breaks before a byte of a text.
pub open spec fn line_of_byte(text: Seq<char>, byte: int) -> nat {
    let b = encode_utf8(text);
    breaks(text_before(b, char_start(b, byte)))
}

/// The place of a definition of a module: its own place in a Fennel file, the
/// start of the line it comes from in a Lua file. A line that the source map
/// lacks counts as the first.
pub open spec fn location_of(ex: ExportsView, span: Span) -> LocationView {
    LocationView {
        uri: ex.uri,
        range: match ex.source {
            SourceView::Fennel => range_of(encode_utf8(ex.text), span),
            SourceView::Lua(map) => {
                let line = line_of_byte(ex.text, span.start as int);
                let lua_line = if line < map.len() {
                    map[line as int]
                } else {
                    1
                };
                let at = Position {
                    line: if lua_line > 0 {
                        (lua_line - 1) as u32
                    } else {
                        0
                    },
                    character: 0,
                };
                Range { start: at, end: at }
            },
        },
    }
}

/// Count the number of newlines before `byte` in `text` (= 0-indexed line of that byte).
pub fn newlines_before(text: &str, byte: usize) -> (r: usize)
    ensures
        r == line_of_byte(text@, byte as int),
{
    broadcast use encode_utf8_decode_utf8;

    let at = floor_to_char(text, byte);
    proof {
        encode_utf8_valid_utf8(text@);
        is_char_boundary_start_end_of_seq(text.spec_bytes());
    }
    let prefix = slice(text, 0, at);
    let chars = crate::strings::chars_of(prefix);
    let ghost p = prefix@;
    let mut count: usize = 0;
    let mut i: usize = 0;
    while i < chars.len()
        invariant
            i <= chars@.len(),
            chars@ == p,
            count == breaks(p.take(i as int)),
            count <= i,
        decreases chars@.len() - i,
    {
        assert(p.take(i + 1).drop_last() =~= p.take(i as int));
        if chars[i] == '\n' {
            count = count + 1;
        }
        i = i + 1;
    }
    assert(p.take(p.len() as int) =~= p);
    count
}

impl ModuleExports {
    /// Build an LSP Location pointing to `def` inside this module.
    ///
    /// For Fennel modules, byte span → LSP range directly.
    /// For Lua modules, the byte span is in the generated Fennel; we remap
    /// via the source map to the original Lua line before returning the Location.
    pub fn location_for_def(&self, def: &DefinitionInfo) -> (r: Location)
        ensures
            r@ == location_of(self@, def@.span),
    {
        match &self.source {
            ModuleSource::Fennel => Location {
                uri: self.uri.clone(),
                range: span_to_range(&self.text, &def.span),
            },
            ModuleSource::Lua { source_map } => {
                let fennel_line = newlines_before(&self.text, def.span.start as usize);
                let lua_line: u32 = if fennel_line < source_map.len() {
                    source_map[fennel_line]
                } else {
                    1
                };
                let lsp_line: u32 = if lua_line > 0 {
                    lua_line - 1
                } else {
                    0
                };
                let at = Position { line: lsp_line, character: 0 };
                Location { uri: self.uri.clone(), range: Range { start: at, end: at } }
            },
        }
    }
}

// ── Files ───────────────────────────────────────────────────────────────────

#[derive(Debug)]
pub struct AnalyzedFile {
    pub uri: String,
    pub text: String,
    pub version: i32,
    pub ast: Vec<AstNode>,
    pub parse_errors: Vec<ParseError>,
    pub analysis: AnalysisResult,
    /// Resolved require bindings: local binding name → module exports.
    /// Populated from `(local name (require :mod))` forms when workspace root is set.
    pub modules: NameMap<Arc<ModuleExports>>,
    /// Names introduced by macro expansion (e.g. via `import-macros`).
    /// Populated after the initial analysis pass.
    pub macro_globals: Vec<String>,
    /// Macro call sites that have no hook defined, for optional diagnostics.
    /// Populated by the hook runner pass; empty when warn-unhooked-macros is off.
    pub unhooked_macros: Vec<(Span, String)>,
}

/// The model of an [`AnalyzedFile`].
#[verifier::ext_equal]
pub ghost struct FileView {
    pub uri: Seq<char>,
    pub text: Seq<char>,
    pub version: i32,
    pub ast: Seq<AstNode>,
    pub errors: Seq<ParseErrorView>,
    pub analysis: AnalysisView,
    pub modules: Seq<(Seq<char>, ExportsView)>,
    pub macro_globals: Seq<Seq<char>>,
    pub unhooked: Seq<(Span, Seq<char>)>,
}

pub open spec fn call_site_views(s: Seq<(Span, String)>) -> Seq<(Span, Seq<char>)> {
    Seq::new(s.len(), |i: int| (s[i].0, s[i].1@))
}

impl View for AnalyzedFile {
    type V = FileView;

    open spec fn view(&self) -> FileView {
        FileView {
            uri: self.uri@,
            text: self.text@,
            version: self.version,
            ast: self.ast@,
            errors: error_views(self.parse_errors@),
            analysis: self.analysis@,
            modules: self.modules@,
            macro_globals: texts(self.macro_globals@),
            unhooked: call_site_views(self.unhooked_macros@),
        }
    }
}

pub open spec fn is_list_at(n: AstNode, byte: u32) -> bool {
    n.span.start == byte && n.node is List
}

/// The first of some nodes that is a list at `byte`.
pub open spec fn first_list_at(nodes: Seq<AstNode>, byte: u32, i: int) -> Option<AstNode>
    decreases nodes.len() - i,
{
    if !(0 <= i < nodes.len()) {
        None
    } else if is_list_at(nodes[i], byte) {
        Some(nodes[i])
    } else {
        first_list_at(nodes, byte, i + 1)
    }
}

impl AnalyzedFile {
    /// Find the list node (macro call) whose span starts at `byte`.
    /// Used to build a `SerialNode` for hook execution.
    pub fn find_list_at(&self, byte: u32) -> (r: Option<&AstNode>)
        ensures
            match r {
                Some(n) => first_list_at(reached(Rule::All, self@.ast), byte, 0) == Some(*n),
                None => first_list_at(reached(Rule::All, self@.ast), byte, 0) is None,
            },
    {
        let nodes = reach(Rule::All, &self.ast);
        let ghost all = reached(Rule::All, self@.ast);
        let mut i: usize = 0;
        while i < nodes.len()
            invariant
                i <= nodes@.len(),
                refs_are(nodes@, all),
                all == reached(Rule::All, self@.ast),
                first_list_at(all, byte, i as int) == first_list_at(all, byte, 0),
            decreases nodes@.len() - i,
        {
            let n = nodes[i];
            assert(*n == all[i as int]);
            if n.span.start == byte {
                if let Form::List(_) = &n.node {
                    return Some(n);
                }
            }
            i = i + 1;
        }
        None
    }
}

pub(crate) fn dup_texts(v: &Vec<String>) -> (r: Vec<String>)
    ensures
        texts(r@) == texts(v@),
{
    let mut out: Vec<String> = Vec::new();
    let mut i: usize = 0;
    while i < v.len()
        invariant
            i <= v@.len(),
            out@.len() == i,
            forall|j: int| 0 <= j < i ==> (#[trigger] out@[j])@ == v@[j]@,
        decreases v@.len() - i,
    {
        out.push(v[i].clone());
        i = i + 1;
    }
    assert(texts(out@) =~= texts(v@));
    out
}

pub(crate) fn dup_opt_texts(v: &Option<Vec<String>>) -> (r: Option<Vec<String>>)
    ensures
        opt_texts(r) == opt_texts(*v),
{
    match v {
        Some(t) => Some(dup_texts(t)),
        None => None,
    }
}

pub(crate) fn dup_opt_text(v: &Option<String>) -> (r: Option<String>)
    ensures
        opt_text(r) == opt_text(*v),
{
    match v {
        Some(t) => Some(t.clone()),
        None => None,
    }
}

impl DefinitionInfo {
    /// A definition of its own with the same contents.
    pub fn dup(&self) -> (r: DefinitionInfo)
        ensures
            r@ == self@,
    {
        DefinitionInfo {
            name: self.name.clone(),
            kind: self.kind,
            span: self.span,
            params: dup_opt_texts(&self.params),
            doc: dup_opt_text(&self.doc),
            variadic: self.variadic,
            returns_multiple: self.returns_multiple,
            table_fields: dup_opt_texts(&self.table_fields),
            source_module: dup_opt_text(&self.source_module),
        }
    }
}

/// The definitions that the first `k` bindings of a scope name.
pub open spec fn named_defs(
    a: AnalysisView,
    bindings: Seq<(Seq<char>, u32)>,
    k: int,
) -> Seq<(Seq<char>, DefinitionView)>
    decreases k,
{
    if 0 < k <= bindings.len() {
        let before = named_defs(a, bindings, k - 1);
        let byte = bindings[k - 1].1;
        if a.defs.dom().contains(byte) {
            with_value(before, a.defs[byte].name, a.defs[byte])
        } else {
            before
        }
    } else {
        Seq::empty()
    }
}

/// The definitions of the outermost scope, by name.
pub open spec fn exported(a: AnalysisView) -> Seq<(Seq<char>, DefinitionView)> {
    if a.scopes.len() > 0 {
        named_defs(a, a.scopes[0].bindings, a.scopes[0].bindings.len() as int)
    } else {
        Seq::empty()
    }
}

/// Collect the names → DefinitionInfo for all bindings in the root scope (scope 0).
pub fn top_level_defs(analysis: &AnalysisResult) -> (r: NameMap<DefinitionInfo>)
    ensures
        r@ == exported(analysis@),
{
    let mut out: NameMap<DefinitionInfo> = NameMap::new();
    if analysis.scopes.len() == 0 {
        return out;
    }
    let bindings = &analysis.scopes[0].bindings;
    let ghost b = analysis@.scopes[0].bindings;
    assert(bindings@ == b);
    let mut i: usize = 0;
    while i < bindings.len()
        invariant
            i <= b.len(),
            bindings@ == b,
            out@ == named_defs(analysis@, b, i as int),
        decreases b.len() - i,
    {
        let byte: u32 = *bindings.value_at(i);
        if let Some(d) = analysis.defs.get(&byte) {
            assert(analysis@.defs[byte] == d@);
            out.insert(&d.name, d.dup());
        }
        i = i + 1;
    }
    out
}

// ── Loading modules ─────────────────────────────────────────────────────────

/// A module file as it was found on disk.
#[derive(Debug)]
pub struct Found {
    pub path: String,
    pub uri: String,
    /// Whether the path has the extension `lua`.
    pub lua: bool,
    /// The text of the file; none where it could not be read.
    pub text: Option<String>,
}

#[verifier::ext_equal]
pub ghost struct FoundView {
    pub path: Seq<char>,
    pub uri: Seq<char>,
    pub lua: bool,
    pub text: Option<Seq<char>>,
}

impl View for Found {
    type V = FoundView;

    open spec fn view(&self) -> FoundView {
        FoundView {
            path: self.path@,
            uri: self.uri@,
            lua: self.lua,
            text: opt_text(self.text),
        }
    }
}

/// A text is short enough for its offsets to be counted.
pub open spec fn countable(text: Seq<char>) -> bool {
    encode_utf8(text).len() <= u32::MAX
}

/// The Fennel text of a module file and where it comes from; none where a Lua
/// file does not parse, or its Fennel is too long to count its offsets.
pub open spec fn fennel_of(found: FoundView) -> Option<(Seq<char>, SourceView)> {
    match found.text {
        None => None,
        Some(text) => if found.lua && !(no_bare_backtick(text)
            && !ends_in_comment_behind_shebang(text)) {
            None
        } else if found.lua {
            match lua_tree(text) {
                Ok(block) => {
                    let forms = file_forms(block);
                    if countable(lines_text(forms)) {
                        Some((lines_text(forms), SourceView::Lua(line_map(forms))))
                    } else {
                        None
                    }
                },
                Err(_) => None,
            }
        } else if countable(text) {
            Some((text, SourceView::Fennel))
        } else {
            None
        },
    }
}

/// The exports are those of a module with the given text: its definitions are
/// the outermost ones of an analysis of that text.
pub open spec fn exports_text(ex: ExportsView, uri: Seq<char>, text: Seq<char>, source: SourceView) -> bool {
    &&& ex.uri == uri
    &&& ex.text == text
    &&& ex.source == source
    &&& exists|ast: Seq<AstNode>|
        #![trigger node_views(ast)]
        node_views(ast) == parse_source(text).0 && ex.defs == exported(
            analysis(Map::empty(), ast),
        )
}

/// The exports of an open file, as it stands in the editor.
pub open spec fn live_exports(f: FileView) -> ExportsView {
    ExportsView {
        uri: f.uri,
        text: f.text,
        defs: exported(f.analysis),
        source: SourceView::Fennel,
    }
}

/// The exports of an open file.
pub fn exports_of_file(f: &AnalyzedFile) -> (r: ModuleExports)
    ensures
        r@ == live_exports(f@),
{
    ModuleExports {
        uri: f.uri.clone(),
        text: f.text.clone(),
        defs: top_level_defs(&f.analysis),
        source: ModuleSource::Fennel,
    }
}

fn version_of(f: &AnalyzedFile) -> (r: i32)
    ensures
        r == f@.version,
{
    f.version
}

/// What a module file on disk exports.
pub fn read_module(found: &Found) -> (r: Option<ModuleExports>)
    ensures
        match r {
            Some(ex) => match fennel_of(found@) {
                Some((text, source)) => exports_text(ex@, found@.uri, text, source),
                None => false,
            },
            None => fennel_of(found@) is None,
        },
{
    let disk_text: &String = match &found.text {
        Some(t) => t,
        None => {
            return None;
        },
    };
    let (text, source) = if found.lua {
        match transpile(disk_text) {
            Ok(out) => (out.fennel, ModuleSource::Lua { source_map: out.source_map }),
            Err(_) => {
                return None;
            },
        }
    } else {
        (disk_text.clone(), ModuleSource::Fennel)
    };
    if byte_len(&text) > u32::MAX as usize {
        return None;
    }
    let (ast, _) = Parser::parse(&text);
    let result = analyze(&ast);
    let defs = top_level_defs(&result);
    let ghost a = ast@;
    proof {
        assert(node_views(a) == parse_source(text@).0);
        assert(defs@ == exported(analysis(Map::empty(), a)));
    }
    Some(ModuleExports { uri: found.uri.clone(), text, defs, source })
}

// ── The collections of a workspace ──────────────────────────────────────────

#[verifier::external_type_specification]
#[verifier::external_body]
#[verifier::reject_recursive_types(K)]
#[verifier::reject_recursive_types(V)]
#[verifier::reject_recursive_types(S)]
pub struct ExDashMap<K, V, S>(dashmap::DashMap<K, V, S>);

/// The files that a map holds, by URI.
pub uninterp spec fn file_map(m: DashMap<String, AnalyzedFile>) -> Map<Seq<char>, AnalyzedFile>;

/// The modules that a map holds, by path.
pub uninterp spec fn module_map(m: DashMap<String, Arc<ModuleExports>>) -> Map<
    Seq<char>,
    Arc<ModuleExports>,
>;

/// Wraps `DashMap::new`: a map without entries.
#[verifier::external_body]
fn no_files() -> (r: DashMap<String, AnalyzedFile>)
    ensures
        file_map(r).dom() == Set::<Seq<char>>::empty(),
{
    DashMap::new()
}

/// Wraps `DashMap::insert`: the key has the value, other keys keep theirs.
#[verifier::external_body]
fn insert_file(m: &mut DashMap<String, AnalyzedFile>, key: String, file: AnalyzedFile)
    ensures
        file_map(*final(m)) == file_map(*old(m)).insert(key@, file),
{
    m.insert(key, file);
}

/// Wraps `DashMap::remove`: the key is gone, and its value is handed out.
#[verifier::external_body]
fn remove_file(m: &mut DashMap<String, AnalyzedFile>, key: &str) -> (r: Option<AnalyzedFile>)
    ensures
        file_map(*final(m)) == file_map(*old(m)).remove(key@),
        match r {
            Some(f) => file_map(*old(m)).dom().contains(key@) && f == file_map(*old(m))[key@],
            None => !file_map(*old(m)).dom().contains(key@),
        },
{
    m.remove(key).map(|entry| entry.1)
}

/// Wraps `DashMap::get`: the function is called on the value of the key, if the
/// key is there.
#[verifier::external_body]
fn view_file<R, F: FnOnce(&AnalyzedFile) -> R>(
    m: &DashMap<String, AnalyzedFile>,
    key: &str,
    f: F,
) -> (r: Option<R>)
    requires
        file_map(*m).dom().contains(key@) ==> f.requires((&file_map(*m)[key@],)),
    ensures
        match r {
            Some(x) => file_map(*m).dom().contains(key@) && f.ensures((&file_map(*m)[key@],), x),
            None => !file_map(*m).dom().contains(key@),
        },
{
    m.get(key).map(|entry| f(entry.value()))
}

/// Wraps `DashMap::iter`: every key comes once, in an order of which nothing is
/// claimed.
#[verifier::external_body]
fn file_keys(m: &DashMap<String, AnalyzedFile>) -> (r: Vec<String>)
    ensures
        lists(texts(r@), file_map(*m).dom()),
{
    m.iter().map(|entry| entry.key().clone()).collect()
}

/// Wraps `DashMap::new`: a map without entries.
#[verifier::external_body]
fn no_modules() -> (r: DashMap<String, Arc<ModuleExports>>)
    ensures
        module_map(r).dom() == Set::<Seq<char>>::empty(),
{
    DashMap::new()
}

/// Wraps `DashMap::insert`: the key has the value, other keys keep theirs.
#[verifier::external_body]
fn insert_module(
    m: &mut DashMap<String, Arc<ModuleExports>>,
    key: String,
    module: Arc<ModuleExports>,
)
    ensures
        module_map(*final(m)) == module_map(*old(m)).insert(key@, module),
{
    m.insert(key, module);
}

/// Wraps `DashMap::remove`: the key is gone.
#[verifier::external_body]
fn remove_module(m: &mut DashMap<String, Arc<ModuleExports>>, key: &str)
    ensures
        module_map(*final(m)) == module_map(*old(m)).remove(key@),
{
    m.remove(key);
}

/// Wraps `DashMap::get`: the value of the key, shared.
#[verifier::external_body]
fn get_module(m: &DashMap<String, Arc<ModuleExports>>, key: &str) -> (r: Option<Arc<ModuleExports>>)
    ensures
        r == (if module_map(*m).dom().contains(key@) {
            Some(module_map(*m)[key@])
        } else {
            None
        }),
{
    m.get(key).map(|entry| entry.value().clone())
}

/// Wraps `DashMap::iter`: every key comes once, in an order of which nothing is
/// claimed.
#[verifier::external_body]
fn module_keys(m: &DashMap<String, Arc<ModuleExports>>) -> (r: Vec<String>)
    ensures
        lists(texts(r@), module_map(*m).dom()),
{
    m.iter().map(|entry| entry.key().clone()).collect()
}

/// Wraps `Arc::clone`: another handle on the same value.
#[verifier::external_body]
fn share(module: &Arc<ModuleExports>) -> (r: Arc<ModuleExports>)
    ensures
        r == *module,
{
    Arc::clone(module)
}

/// The lower case of a text, as `str::to_lowercase` gives it.
pub uninterp spec fn lower_case(s: Seq<char>) -> Seq<char>;

/// Wraps `str::to_lowercase`: the result is a function of the text alone.
#[verifier::external_body]
fn to_lower(s: &str) -> (r: String)
    ensures
        r@ == lower_case(s@),
{
    s.to_lowercase()
}

/// The path component of a URI, as `Url::path` gives it; none for a text that
/// `Url::parse` does not take for a URI.
pub uninterp spec fn uri_path(uri: Seq<char>) -> Option<Seq<char>>;

/// Wraps `Url::path`, of the URI that `Url::parse` reads from the text: the
/// result is a function of the text alone.
#[verifier::external_body]
fn path_of(uri: &str) -> (r: Option<String>)
    ensures
        opt_text(r) == uri_path(uri@),
{
    tower_lsp::lsp_types::Url::parse(uri).ok().map(|u| u.path().to_owned())
}

/// The sequence lists the elements of the set, each once.
pub open spec fn lists(s: Seq<Seq<char>>, set: Set<Seq<char>>) -> bool {
    &&& forall|x: Seq<char>| #[trigger] s.contains(x) <==> set.contains(x)
    &&& s.no_duplicates()
}

// ── Workspaces ──────────────────────────────────────────────────────────────

/// The open files, the builtins, and the modules that were required but are not open.
pub struct Workspace {
    files: DashMap<String, AnalyzedFile>,
    builtins: Option<BuiltinSet>,
    /// Cache of analyzed module files (required but not open).
    /// Keyed by filesystem path; bounded by number of unique source files.
    require_cache: DashMap<String, Arc<ModuleExports>>,
}

/// What a module on disk gives, and the cache afterwards: an open file comes
/// first, in the state of the editor; then what the cache holds; then the disk,
/// whose reading is cached.
pub open spec fn loads(
    files: Map<Seq<char>, AnalyzedFile>,
    cache: Map<Seq<char>, Arc<ModuleExports>>,
    found: FoundView,
    r: Option<Arc<ModuleExports>>,
    after: Map<Seq<char>, Arc<ModuleExports>>,
) -> bool {
    if files.dom().contains(found.uri) {
        &&& after == cache
        &&& r matches Some(ex) && (*ex)@ == live_exports(files[found.uri]@)
    } else if cache.dom().contains(found.path) {
        after == cache && r == Some(cache[found.path])
    } else {
        match fennel_of(found) {
            Some((text, source)) => {
                &&& r matches Some(ex) && exports_text((*ex)@, found.uri, text, source)
                    && after == cache.insert(found.path, ex)
            },
            None => after == cache && r is None,
        }
    }
}

/// The offsets of the file fit into 32 bits, and its analysis is well formed.
pub open spec fn sound_file(f: FileView) -> bool {
    countable(f.text) && well_formed(f.analysis)
}

/// All open files are sound: what the answers about a file ask of it.
pub open spec fn sound(files: Map<Seq<char>, AnalyzedFile>) -> bool {
    forall|uri: Seq<char>| #[trigger] files.dom().contains(uri) ==> sound_file(files[uri]@)
}

/// A module that was loaded from disk is not read again: the second time it comes
/// out of the cache, the same, and the cache stays as it is.
pub proof fn loading_twice_gives_the_same(
    files: Map<Seq<char>, AnalyzedFile>,
    cache: Map<Seq<char>, Arc<ModuleExports>>,
    first: FoundView,
    second: FoundView,
    r: Option<Arc<ModuleExports>>,
    after: Map<Seq<char>, Arc<ModuleExports>>,
    again: Option<Arc<ModuleExports>>,
    in_the_end: Map<Seq<char>, Arc<ModuleExports>>,
)
    requires
        loads(files, cache, first, r, after),
        loads(files, after, second, again, in_the_end),
        r is Some,
        first.uri == second.uri,
        first.path == second.path,
        !files.dom().contains(first.uri),
    ensures
        again == r,
        in_the_end == after,
{
}

/// An open file is seen as the editor has it, whatever the cache and the disk hold.
pub proof fn open_files_come_first(
    files: Map<Seq<char>, AnalyzedFile>,
    cache: Map<Seq<char>, Arc<ModuleExports>>,
    found: FoundView,
    r: Option<Arc<ModuleExports>>,
    after: Map<Seq<char>, Arc<ModuleExports>>,
)
    requires
        loads(files, cache, found, r, after),
        files.dom().contains(found.uri),
    ensures
        r is Some,
        (*r->0)@ == live_exports(files[found.uri]@),
        after == cache,
{
}

/// A module that was dropped from the cache is read from disk again.
pub proof fn dropped_modules_are_read_again(
    files: Map<Seq<char>, AnalyzedFile>,
    cache: Map<Seq<char>, Arc<ModuleExports>>,
    found: FoundView,
    r: Option<Arc<ModuleExports>>,
    after: Map<Seq<char>, Arc<ModuleExports>>,
)
    requires
        loads(files, cache.remove(found.path), found, r, after),
        !files.dom().contains(found.uri),
    ensures
        match fennel_of(found) {
            Some((text, source)) => r is Some && exports_text(
                (*r->0)@,
                found.uri,
                text,
                source,
            ) && after == cache.remove(found.path).insert(found.path, r->0),
            None => r is None && after == cache.remove(found.path),
        },
{
}

impl Workspace {
    /// The open files, by URI.
    pub closed spec fn open_files(&self) -> Map<Seq<char>, AnalyzedFile> {
        file_map(self.files)
    }

    /// The cached modules, by path.
    pub closed spec fn cached(&self) -> Map<Seq<char>, Arc<ModuleExports>> {
        module_map(self.require_cache)
    }

    /// The builtins, once they are settled.
    pub closed spec fn settled(&self) -> Option<Seq<(Seq<char>, BuiltinView)>> {
        match self.builtins {
            Some(b) => Some(b@),
            None => None,
        }
    }

    pub fn new() -> (r: Self)
        ensures
            r.open_files() == Map::<Seq<char>, AnalyzedFile>::empty(),
            r.cached() == Map::<Seq<char>, Arc<ModuleExports>>::empty(),
            r.settled() is None,
            sound(r.open_files()),
    {
        let r = Workspace { files: no_files(), builtins: None, require_cache: no_modules() };
        assert(r.open_files() =~= Map::<Seq<char>, AnalyzedFile>::empty());
        assert(r.cached() =~= Map::<Seq<char>, Arc<ModuleExports>>::empty());
        r
    }

    /// Set the builtin set based on a platform selection. Must be called before
    /// any `builtins()` access; silently ignored if already initialised.
    pub fn configure_platform(&mut self, platform: Platform)
        ensures
            final(self).settled() == (if old(self).settled() is None {
                Some(builtins_of(platform))
            } else {
                old(self).settled()
            }),
            final(self).open_files() == old(self).open_files(),
            final(self).cached() == old(self).cached(),
    {
        if self.builtins.is_none() {
            self.builtins = Some(BuiltinSet::for_platform(platform));
        }
    }

    /// Replace the builtin set (builder style).
    pub fn with_builtins(self, builtins: BuiltinSet) -> (r: Self)
        ensures
            r.settled() == Some(builtins@),
            r.open_files() == self.open_files(),
            r.cached() == self.cached(),
    {
        Workspace {
            files: self.files,
            builtins: Some(builtins),
            require_cache: self.require_cache,
        }
    }

    /// Access the active builtin set (for hover, completion, and diagnostics).
    /// The first access settles it.
    pub fn builtins(&mut self) -> (r: &BuiltinSet)
        ensures
            final(self).settled() == Some(r@),
            r@ == (match old(self).settled() {
                Some(b) => b,
                None => builtins_of(Platform::Lua54),
            }),
            final(self).open_files() == old(self).open_files(),
            final(self).cached() == old(self).cached(),
    {
        if self.builtins.is_none() {
            self.builtins = Some(BuiltinSet::for_platform(Platform::Lua54));
        }
        self.builtins.as_ref().unwrap()
    }

    /// The builtin set, once it is settled.
    pub fn settled_builtins(&self) -> (r: Option<&BuiltinSet>)
        ensures
            match r {
                Some(b) => self.settled() == Some(b@),
                None => self.settled() is None,
            },
    {
        self.builtins.as_ref()
    }

    /// Whether a file is open.
    pub fn is_open(&self, uri: &str) -> (r: bool)
        ensures
            r == self.open_files().dom().contains(uri@),
    {
        view_file(&self.files, uri, version_of).is_some()
    }

    /// Whether the module file at a path must be read from disk: it is neither
    /// open nor cached.
    pub fn needs_disk(&self, uri: &str, path: &str) -> (r: bool)
        ensures
            r == (!self.open_files().dom().contains(uri@) && !self.cached().dom().contains(path@)),
    {
        !self.is_open(uri) && get_module(&self.require_cache, path).is_none()
    }

    /// Load and cache the top-level exports of a module file.
    ///
    /// Accepts both `.fnl` and `.lua` files. Lua files are transpiled to Fennel
    /// before analysis; the resulting source map is stored in `ModuleSource::Lua`
    /// so that go-to-definition can remap Fennel spans back to Lua line numbers.
    ///
    /// Priority: open files (live version) > require_cache > disk.
    pub fn load_module(&mut self, found: &Found) -> (r: Option<Arc<ModuleExports>>)
        ensures
            loads(old(self).open_files(), old(self).cached(), found@, r, final(self).cached()),
            final(self).open_files() == old(self).open_files(),
            final(self).settled() == old(self).settled(),
    {
        let live = view_file(&self.files, &found.uri, exports_of_file);
        if let Some(ex) = live {
            return Some(Arc::new(ex));
        }
        if let Some(ex) = get_module(&self.require_cache, &found.path) {
            return Some(ex);
        }
        match read_module(found) {
            Some(ex) => {
                let shared = Arc::new(ex);
                insert_module(&mut self.require_cache, found.path.clone(), share(&shared));
                Some(shared)
            },
            None => None,
        }
    }

    pub fn remove(&mut self, uri: &str)
        ensures
            final(self).open_files() == old(self).open_files().remove(uri@),
            final(self).cached() == old(self).cached(),
            final(self).settled() == old(self).settled(),
            sound(old(self).open_files()) ==> sound(final(self).open_files()),
    {
        let _ = remove_file(&mut self.files, uri);
    }

    /// Remove a file from the require cache so the next require of it re-reads disk.
    pub fn invalidate_require_cache(&mut self, path: &str)
        ensures
            final(self).cached() == old(self).cached().remove(path@),
            final(self).open_files() == old(self).open_files(),
            final(self).settled() == old(self).settled(),
    {
        remove_module(&mut self.require_cache, path);
    }

    /// Merge macro-expansion results into the file's scope.
    pub fn set_macro_globals(&mut self, uri: &str, names: Vec<String>)
        ensures
            final(self).cached() == old(self).cached(),
            final(self).settled() == old(self).settled(),
            !old(self).open_files().dom().contains(uri@) ==> final(self).open_files() == old(
                self,
            ).open_files(),
            old(self).open_files().dom().contains(uri@) ==> final(self).open_files() == old(
                self,
            ).open_files().insert(
                uri@,
                (AnalyzedFile { macro_globals: names, ..old(self).open_files()[uri@] }),
            ),
            sound(old(self).open_files()) ==> sound(final(self).open_files()),
    {
        let ghost before = self.open_files();
        if let Some(file) = remove_file(&mut self.files, uri) {
            let mut file = file;
            file.macro_globals = names;
            insert_file(&mut self.files, uri.to_owned(), file);
            assert(self.open_files() =~= before.insert(uri@, file));
        } else {
            assert(self.open_files() =~= before);
        }
    }

    /// Store macro call sites that have no hook defined (for optional diagnostics).
    pub fn set_unhooked_macros(&mut self, uri: &str, spans: Vec<(Span, String)>)
        ensures
            final(self).cached() == old(self).cached(),
            final(self).settled() == old(self).settled(),
            !old(self).open_files().dom().contains(uri@) ==> final(self).open_files() == old(
                self,
            ).open_files(),
            old(self).open_files().dom().contains(uri@) ==> final(self).open_files() == old(
                self,
            ).open_files().insert(
                uri@,
                (AnalyzedFile { unhooked_macros: spans, ..old(self).open_files()[uri@] }),
            ),
            sound(old(self).open_files()) ==> sound(final(self).open_files()),
    {
        let ghost before = self.open_files();
        if let Some(file) = remove_file(&mut self.files, uri) {
            let mut file = file;
            file.unhooked_macros = spans;
            insert_file(&mut self.files, uri.to_owned(), file);
            assert(self.open_files() =~= before.insert(uri@, file));
        } else {
            assert(self.open_files() =~= before);
        }
    }

    /// Run `f` with a reference to the file, returning `None` if not found.
    pub fn with_file<F, R>(&self, uri: &str, f: F) -> (r: Option<R>) where
        F: FnOnce(&AnalyzedFile) -> R,

        requires
            self.open_files().dom().contains(uri@) ==> f.requires((&self.open_files()[uri@],)),
        ensures
            match r {
                Some(x) => self.open_files().dom().contains(uri@) && f.ensures(
                    (&self.open_files()[uri@],),
                    x,
                ),
                None => !self.open_files().dom().contains(uri@),
            },
    {
        view_file(&self.files, uri, f)
    }

    /// Returns the URIs of all currently open (tracked) files, in any order.
    pub fn all_open_uris(&self) -> (r: Vec<String>)
        ensures
            lists(texts(r@), self.open_files().dom()),
    {
        file_keys(&self.files)
    }
}

// ── Opening files ───────────────────────────────────────────────────────────

/// The file holds the parse and the analysis of a text, and nothing of later passes.
pub open spec fn reads(f: FileView, uri: Seq<char>, text: Seq<char>, version: i32, hooks: Hooks) -> bool {
    &&& f.uri == uri
    &&& f.text == text
    &&& f.version == version
    &&& (node_views(f.ast), f.errors) == parse_source(text)
    &&& f.analysis == analysis(hooks, f.ast)
    &&& f.macro_globals.len() == 0
    &&& f.unhooked.len() == 0
}

/// Require bindings, one after the other: the modules and the cache after each.
pub open spec fn bind_steps(
    files: Map<Seq<char>, AnalyzedFile>,
    bindings: Seq<(Seq<char>, Seq<char>)>,
    disk: Seq<(Seq<char>, FoundView)>,
    modules: Seq<Seq<(Seq<char>, ExportsView)>>,
    caches: Seq<Map<Seq<char>, Arc<ModuleExports>>>,
) -> bool {
    &&& modules.len() == caches.len()
    &&& 0 < modules.len() <= bindings.len() + 1
    &&& modules[0].len() == 0
    &&& forall|i: int|
        0 <= i < modules.len() - 1 ==> bind_step(
            files,
            #[trigger] caches[i],
            bindings[i],
            disk,
            modules[i],
            modules[i + 1],
            caches[i + 1],
        )
}

/// The require bindings of a file give these modules, and leave this cache.
pub open spec fn binds(
    files: Map<Seq<char>, AnalyzedFile>,
    cache: Map<Seq<char>, Arc<ModuleExports>>,
    bindings: Seq<(Seq<char>, Seq<char>)>,
    disk: Seq<(Seq<char>, FoundView)>,
    modules: Seq<(Seq<char>, ExportsView)>,
    after: Map<Seq<char>, Arc<ModuleExports>>,
) -> bool {
    exists|
        ms: Seq<Seq<(Seq<char>, ExportsView)>>,
        cs: Seq<Map<Seq<char>, Arc<ModuleExports>>>,
    |
        #[trigger]
        bind_steps(files, bindings, disk, ms, cs) && ms.len() == bindings.len() + 1 && cs[0]
            == cache && ms.last() == modules && cs.last() == after
}

/// One require binding: a module that was not found on disk, or cannot be
/// loaded, binds nothing.
pub open spec fn bind_step(
    files: Map<Seq<char>, AnalyzedFile>,
    cache: Map<Seq<char>, Arc<ModuleExports>>,
    binding: (Seq<char>, Seq<char>),
    disk: Seq<(Seq<char>, FoundView)>,
    before: Seq<(Seq<char>, ExportsView)>,
    modules: Seq<(Seq<char>, ExportsView)>,
    after: Map<Seq<char>, Arc<ModuleExports>>,
) -> bool {
    match value_of(disk, binding.1) {
        None => modules == before && after == cache,
        Some(found) => exists|r: Option<Arc<ModuleExports>>|
            #[trigger]
            loads(files, cache, found, r, after) && modules == (match r {
                Some(ex) => with_value(before, binding.0, (*ex)@),
                None => before,
            }),
    }
}

pub open spec fn without_path(
    cache: Map<Seq<char>, Arc<ModuleExports>>,
    path: Option<Seq<char>>,
) -> Map<Seq<char>, Arc<ModuleExports>> {
    match path {
        Some(p) => cache.remove(p),
        None => cache,
    }
}

/// The names of the modules that a text requires, in the order of the names they
/// are bound to.
pub fn required_modules(text: &str, hook_results: &HashMap<u32, Vec<Instruction>>) -> (r: Vec<
    String,
>)
    requires
        countable(text@),
    ensures
        exists|ast: Seq<AstNode>|
            #![trigger node_views(ast)]
            node_views(ast) == parse_source(text@).0 && texts(r@) == Seq::new(
                analysis(hook_results@, ast).modules.len(),
                |i: int| analysis(hook_results@, ast).modules[i].1,
            ),
{
    let (ast, _) = Parser::parse(text);
    let result = analyze_with_hooks(&ast, hook_results);
    let ghost m = result@.modules;
    let bindings = &result.module_bindings;
    let mut out: Vec<String> = Vec::new();
    let mut i: usize = 0;
    while i < bindings.len()
        invariant
            i <= m.len(),
            bindings@ == m,
            out@.len() == i,
            forall|j: int| 0 <= j < i ==> (#[trigger] out@[j])@ == m[j].1,
        decreases m.len() - i,
    {
        out.push(bindings.value_at(i).clone());
        i = i + 1;
    }
    let ghost a = ast@;
    proof {
        assert(node_views(a) == parse_source(text@).0);
        assert(texts(out@) =~= Seq::new(
            analysis(hook_results@, a).modules.len(),
            |i: int| analysis(hook_results@, a).modules[i].1,
        ));
    }
    out
}

impl Workspace {
    /// Parse, analyze, and resolve require bindings for a file.
    ///
    /// `path` is the path of the file, where its URI has one. `disk` holds what
    /// was found on disk of the modules it requires, by module name; without
    /// entries, cross-file resolution is skipped.
    ///
    /// `hook_results` is a map of macro call span → hook instructions from a
    /// previous hook-runner pass. Pass an empty map on the first pass.
    pub fn update(
        &mut self,
        uri: &str,
        path: Option<&str>,
        text: String,
        version: i32,
        hook_results: &HashMap<u32, Vec<Instruction>>,
        disk: &NameMap<Found>,
    )
        requires
            countable(text@),
        ensures
            final(self).settled() == old(self).settled(),
            final(self).open_files().dom().contains(uri@),
            final(self).open_files() == old(self).open_files().insert(
                uri@,
                final(self).open_files()[uri@],
            ),
            reads(final(self).open_files()[uri@]@, uri@, text@, version, hook_results@),
            sound_file(final(self).open_files()[uri@]@),
            sound(old(self).open_files()) ==> sound(final(self).open_files()),
            binds(
                old(self).open_files(),
                without_path(
                    old(self).cached(),
                    match path {
                        Some(p) => Some(p@),
                        None => None,
                    },
                ),
                final(self).open_files()[uri@]@.analysis.modules,
                disk@,
                final(self).open_files()[uri@]@.modules,
                final(self).cached(),
            ),
    {
        // Callers get fresh exports after edits.
        if let Some(p) = path {
            self.invalidate_require_cache(p);
        }
        let ghost cache = self.cached();
        let ghost files = self.open_files();
        let (ast, parse_errors) = Parser::parse(&text);
        let result = analyze_with_hooks(&ast, hook_results);
        let ghost b = result@.modules;
        let mut modules: NameMap<Arc<ModuleExports>> = NameMap::new();
        let ghost mut ms = seq![modules@];
        let ghost mut cs = seq![cache];
        let mut i: usize = 0;
        while i < result.module_bindings.len()
            invariant
                i <= b.len(),
                result@.modules == b,
                bind_steps(files, b, disk@, ms, cs),
                ms.len() == i + 1,
                cs[0] == cache,
                ms.last() == modules@,
                cs.last() == self.cached(),
                self.open_files() == files,
                self.settled() == old(self).settled(),
            decreases b.len() - i,
        {
            let ghost m0 = modules@;
            let ghost c0 = self.cached();
            if let Some(found) = disk.get(result.module_bindings.value_at(i)) {
                let loaded = self.load_module(found);
                assert(loads(files, c0, found@, loaded, self.cached()));
                if let Some(ex) = loaded {
                    modules.insert(result.module_bindings.name_at(i), ex);
                }
            }
            assert(bind_step(files, c0, b[i as int], disk@, m0, modules@, self.cached()));
            proof {
                ms = ms.push(modules@);
                cs = cs.push(self.cached());
            }
            i = i + 1;
        }
        let file = AnalyzedFile {
            uri: uri.to_owned(),
            text,
            version,
            ast,
            parse_errors,
            analysis: result,
            modules,
            macro_globals: Vec::new(),
            unhooked_macros: Vec::new(),
        };
        assert(binds(files, cache, b, disk@, file@.modules, self.cached()));
        insert_file(&mut self.files, uri.to_owned(), file);
    }
}

// ── Searching all files ─────────────────────────────────────────────────────

/// A definition answers a query that its name holds, in lower case.
pub open spec fn answers(name: Seq<char>, query: Seq<char>) -> bool {
    query.len() == 0 || holds(lower_case(name), query)
}

/// Definitions, each with the URI and the text of its file.
pub type Hits = Vec<(String, String, DefinitionInfo)>;

pub type CrossFileRefs = Vec<CrossFileRef>;

pub type HitView = (Seq<char>, Seq<char>, DefinitionView);

pub open spec fn hit_views(s: Seq<(String, String, DefinitionInfo)>) -> Seq<HitView> {
    Seq::new(s.len(), |i: int| (s[i].0@, s[i].1@, s[i].2@))
}

/// The definitions of a file, at the first `k` of some bytes, that answer a query.
pub open spec fn hits_at(f: FileView, query: Seq<char>, bytes: Seq<u32>, k: int) -> Seq<HitView>
    decreases k,
{
    if 0 < k <= bytes.len() {
        let before = hits_at(f, query, bytes, k - 1);
        let d = f.analysis.defs[bytes[k - 1]];
        if answers(d.name, query) {
            before.push((f.uri, f.text, d))
        } else {
            before
        }
    } else {
        Seq::empty()
    }
}

/// The definitions of a file that answer a query, in the order of the text.
pub open spec fn hits_in_file(f: FileView, query: Seq<char>) -> Seq<HitView> {
    let bytes = in_order(f.analysis.defs.dom());
    hits_at(f, query, bytes, bytes.len() as int)
}

/// The first `k` definitions of a module that answer a query.
pub open spec fn hits_in_module(ex: ExportsView, query: Seq<char>, k: int) -> Seq<HitView>
    decreases k,
{
    if 0 < k <= ex.defs.len() {
        let before = hits_in_module(ex, query, k - 1);
        let d = ex.defs[k - 1].1;
        if answers(d.name, query) {
            before.push((ex.uri, ex.text, d))
        } else {
            before
        }
    } else {
        Seq::empty()
    }
}

pub open spec fn hits_in_files(
    files: Map<Seq<char>, AnalyzedFile>,
    order: Seq<Seq<char>>,
    query: Seq<char>,
    k: int,
) -> Seq<HitView>
    decreases k,
{
    if 0 < k <= order.len() {
        hits_in_files(files, order, query, k - 1) + hits_in_file(files[order[k - 1]]@, query)
    } else {
        Seq::empty()
    }
}

pub open spec fn hits_in_modules(
    cache: Map<Seq<char>, Arc<ModuleExports>>,
    order: Seq<Seq<char>>,
    query: Seq<char>,
    k: int,
) -> Seq<HitView>
    decreases k,
{
    if 0 < k <= order.len() {
        let ex = (*cache[order[k - 1]])@;
        hits_in_modules(cache, order, query, k - 1) + hits_in_module(
            ex,
            query,
            ex.defs.len() as int,
        )
    } else {
        Seq::empty()
    }
}

fn is_answer(name: &str, query: &str) -> (r: bool)
    ensures
        r == answers(name@, query@),
{
    byte_len(query) == 0 || contains(&to_lower(name), query)
}

/// The definitions of a file whose names hold the query.
pub fn defs_in_file(f: &AnalyzedFile, query: &str) -> (r: Hits)
    ensures
        hit_views(r@) == hits_in_file(f@, query@),
{
    let keys = sorted_keys(&f.analysis.defs);
    let ghost bytes = in_order(f@.analysis.defs.dom());
    assert(f@.analysis.defs.dom() =~= f.analysis.defs@.dom());
    proof {
        in_order_holds(f@.analysis.defs.dom());
    }
    let mut out: Hits = Vec::new();
    assert(hit_views(out@) =~= hits_at(f@, query@, bytes, 0));
    let mut i: usize = 0;
    while i < keys.len()
        invariant
            i <= keys@.len(),
            keys@ == bytes,
            forall|j: int|
                0 <= j < keys@.len() ==> f.analysis.defs@.dom().contains(#[trigger] keys@[j]),
            hit_views(out@) == hits_at(f@, query@, bytes, i as int),
        decreases keys@.len() - i,
    {
        let byte: u32 = keys[i];
        assert(f.analysis.defs@.dom().contains(byte));
        if let Some(d) = f.analysis.defs.get(&byte) {
            assert(f@.analysis.defs[byte] == d@);
            if is_answer(&d.name, query) {
                let ghost before = hit_views(out@);
                out.push((f.uri.clone(), f.text.clone(), d.dup()));
                assert(hit_views(out@) =~= before.push((f@.uri, f@.text, d@)));
            }
        }
        i = i + 1;
    }
    out
}

fn defs_in_module(ex: &ModuleExports, query: &str) -> (r: Hits)
    ensures
        hit_views(r@) == hits_in_module(ex@, query@, ex@.defs.len() as int),
{
    let mut out: Hits = Vec::new();
    assert(hit_views(out@) =~= hits_in_module(ex@, query@, 0));
    let mut i: usize = 0;
    while i < ex.defs.len()
        invariant
            i <= ex@.defs.len(),
            hit_views(out@) == hits_in_module(ex@, query@, i as int),
        decreases ex@.defs.len() - i,
    {
        let d = ex.defs.value_at(i);
        if is_answer(&d.name, query) {
            let ghost before = hit_views(out@);
            out.push((ex.uri.clone(), ex.text.clone(), d.dup()));
            assert(hit_views(out@) =~= before.push((ex@.uri, ex@.text, d@)));
        }
        i = i + 1;
    }
    out
}

/// The references of a file to a member of one of its modules, among its first
/// `k` symbols.
pub open spec fn member_refs(f: FileView, binding: Seq<char>, name: Seq<char>, k: int) -> Seq<
    CrossRefView,
>
    decreases k,
{
    if 0 < k <= f.analysis.syms.len() {
        let before = member_refs(f, binding, name, k - 1);
        let sym = f.analysis.syms[k - 1];
        if !sym.is_def && names_member(sym.name, binding, name) {
            before.push(
                CrossRefView { uri: f.uri, text: f.text, span: sym.span, sym_name: sym.name },
            )
        } else {
            before
        }
    } else {
        Seq::empty()
    }
}

/// A multisym that names a member of a binding, or something inside that member.
pub open spec fn names_member(sym: Seq<char>, binding: Seq<char>, member: Seq<char>) -> bool {
    match split_at_joint(sym) {
        Some((root, rest)) => root == binding && first_part(rest) == member,
        None => false,
    }
}

/// The references of a file to a definition of another file, through its first
/// `k` modules.
pub open spec fn refs_through(f: FileView, path: Option<Seq<char>>, name: Seq<char>, k: int) -> Seq<
    CrossRefView,
>
    decreases k,
{
    if 0 < k <= f.modules.len() {
        let before = refs_through(f, path, name, k - 1);
        if uri_path(f.modules[k - 1].1.uri) == path {
            before + member_refs(f, f.modules[k - 1].0, name, f.analysis.syms.len() as int)
        } else {
            before
        }
    } else {
        Seq::empty()
    }
}

/// The references of a file to a definition of another file. The file itself has none.
pub open spec fn refs_from_file(f: FileView, path: Option<Seq<char>>, name: Seq<char>) -> Seq<
    CrossRefView,
> {
    if uri_path(f.uri) == path {
        Seq::empty()
    } else {
        refs_through(f, path, name, f.modules.len() as int)
    }
}

pub open spec fn refs_from_files(
    files: Map<Seq<char>, AnalyzedFile>,
    order: Seq<Seq<char>>,
    path: Option<Seq<char>>,
    name: Seq<char>,
    k: int,
) -> Seq<CrossRefView>
    decreases k,
{
    if 0 < k <= order.len() {
        refs_from_files(files, order, path, name, k - 1) + refs_from_file(
            files[order[k - 1]]@,
            path,
            name,
        )
    } else {
        Seq::empty()
    }
}

fn same_path(a: &Option<String>, b: &Option<String>) -> (r: bool)
    ensures
        r == (opt_text(*a) == opt_text(*b)),
{
    match (a, b) {
        (Some(x), Some(y)) => same(x, y),
        (None, None) => true,
        _ => false,
    }
}

/// The references of one file to a definition named `name` in the file whose
/// path is `path`.
fn refs_of_file(f: &AnalyzedFile, path: &Option<String>, name: &str) -> (r: CrossFileRefs)
    ensures
        cross_ref_views(r@) == refs_from_file(f@, opt_text(*path), name@),
{
    let mut out: Vec<CrossFileRef> = Vec::new();
    let ghost p = opt_text(*path);
    assert(cross_ref_views(out@) =~= Seq::<CrossRefView>::empty());
    if same_path(&path_of(&f.uri), path) {
        return out;
    }
    let mut k: usize = 0;
    while k < f.modules.len()
        invariant
            k <= f@.modules.len(),
            p == opt_text(*path),
            cross_ref_views(out@) == refs_through(f@, p, name@, k as int),
        decreases f@.modules.len() - k,
    {
        let ex: &Arc<ModuleExports> = f.modules.value_at(k);
        if same_path(&path_of(&ex.uri), path) {
            let binding = f.modules.name_at(k);
            let ghost before = cross_ref_views(out@);
            let mut i: usize = 0;
            assert(before =~= before + member_refs(f@, binding@, name@, 0));
            while i < f.analysis.syms.len()
                invariant
                    i <= f.analysis.syms@.len(),
                    cross_ref_views(out@) == before + member_refs(f@, binding@, name@, i as int),
                decreases f.analysis.syms@.len() - i,
            {
                let sym = &f.analysis.syms[i];
                assert(f@.analysis.syms[i as int] == sym@);
                if !sym.is_def {
                    if let Some((root, rest)) = split_multisym(&sym.name) {
                        if same(&root, binding) && same(&before_joint(&rest), name) {
                            let ghost so_far = cross_ref_views(out@);
                            let x = CrossFileRef {
                                uri: f.uri.clone(),
                                text: f.text.clone(),
                                span: sym.span,
                                sym_name: sym.name.clone(),
                            };
                            out.push(x);
                            assert(cross_ref_views(out@) =~= so_far.push(x@));
                            assert(so_far.push(x@) =~= before + member_refs(
                                f@,
                                binding@,
                                name@,
                                i as int,
                            ).push(x@));
                        }
                    }
                }
                i = i + 1;
            }
        }
        k = k + 1;
    }
    out
}

impl Workspace {
    /// Search every open file and the require cache for definitions whose names
    /// contain `query` (case-insensitive). An empty query returns everything.
    /// Returns `(uri, file_text, def)` triples — callers convert spans to ranges.
    /// The files come in any order, then the cached modules in any order.
    pub fn all_defs(&self, query: &str) -> (r: Hits)
        ensures
            exists|files: Seq<Seq<char>>, modules: Seq<Seq<char>>|
                #![trigger lists(files, self.open_files().dom()), lists(modules, self.cached().dom())]
                lists(files, self.open_files().dom()) && lists(modules, self.cached().dom())
                    && hit_views(r@) == hits_in_files(
                    self.open_files(),
                    files,
                    lower_case(query@),
                    files.len() as int,
                ) + hits_in_modules(
                    self.cached(),
                    modules,
                    lower_case(query@),
                    modules.len() as int,
                ),
    {
        let q = to_lower(query);
        let files = file_keys(&self.files);
        let ghost fo = texts(files@);
        let mut out: Hits = Vec::new();
        assert(hit_views(out@) =~= hits_in_files(self.open_files(), fo, q@, 0));
        let mut i: usize = 0;
        while i < files.len()
            invariant
                i <= files@.len(),
                fo == texts(files@),
                lists(fo, self.open_files().dom()),
                hit_views(out@) == hits_in_files(self.open_files(), fo, q@, i as int),
            decreases files@.len() - i,
        {
            let search = |f: &AnalyzedFile| -> (v: Hits)
                ensures
                    hit_views(v@) == hits_in_file(f@, q@),
            {
                defs_in_file(f, &q)
            };
            let found = view_file(&self.files, &files[i], search);
            assert(fo.contains(fo[i as int]));
            if let Some(v) = found {
                let mut v = v;
                let ghost a = hit_views(out@);
                let ghost b = hit_views(v@);
                out.append(&mut v);
                assert(hit_views(out@) =~= a + b);
            }
            i = i + 1;
        }
        let ghost first = hit_views(out@);
        let modules = module_keys(&self.require_cache);
        let ghost mo = texts(modules@);
        assert(first =~= first + hits_in_modules(self.cached(), mo, q@, 0));
        let mut k: usize = 0;
        while k < modules.len()
            invariant
                k <= modules@.len(),
                mo == texts(modules@),
                lists(mo, self.cached().dom()),
                hit_views(out@) == first + hits_in_modules(self.cached(), mo, q@, k as int),
            decreases modules@.len() - k,
        {
            assert(mo.contains(mo[k as int]));
            if let Some(ex) = get_module(&self.require_cache, &modules[k]) {
                let mut v = defs_in_module(&ex, &q);
                let ghost a = hit_views(out@);
                let ghost b = hit_views(v@);
                out.append(&mut v);
                assert(hit_views(out@) =~= a + b);
                assert(a + b =~= first + hits_in_modules(self.cached(), mo, q@, k + 1));
            }
            k = k + 1;
        }
        out
    }

    /// Find every cross-file reference to the definition named `def_name`
    /// in the file at `def_uri`, across all currently open files, in any order
    /// of the files.
    ///
    /// A cross-file reference is a multisym like `utils.greet` in a file that
    /// imports `def_uri` as the local binding `utils`.
    pub fn cross_file_refs_of(&self, def_uri: &str, def_name: &str) -> (r: CrossFileRefs)
        ensures
            exists|files: Seq<Seq<char>>|
                #[trigger]
                lists(files, self.open_files().dom()) && cross_ref_views(r@) == refs_from_files(
                    self.open_files(),
                    files,
                    uri_path(def_uri@),
                    def_name@,
                    files.len() as int,
                ),
    {
        let path = path_of(def_uri);
        let ghost p = uri_path(def_uri@);
        let files = file_keys(&self.files);
        let ghost fo = texts(files@);
        let mut out: Vec<CrossFileRef> = Vec::new();
        assert(cross_ref_views(out@) =~= refs_from_files(self.open_files(), fo, p, def_name@, 0));
        let mut i: usize = 0;
        while i < files.len()
            invariant
                i <= files@.len(),
                fo == texts(files@),
                p == opt_text(path),
                lists(fo, self.open_files().dom()),
                cross_ref_views(out@) == refs_from_files(
                    self.open_files(),
                    fo,
                    p,
                    def_name@,
                    i as int,
                ),
            decreases files@.len() - i,
        {
            let search = |f: &AnalyzedFile| -> (v: CrossFileRefs)
                ensures
                    cross_ref_views(v@) == refs_from_file(f@, opt_text(path), def_name@),
            {
                refs_of_file(f, &path, def_name)
            };
            let found = view_file(&self.files, &files[i], search);
            assert(fo.contains(fo[i as int]));
            if let Some(v) = found {
                let mut v = v;
                let ghost a = cross_ref_views(out@);
                let ghost b = cross_ref_views(v@);
                out.append(&mut v);
                assert(cross_ref_views(out@) =~= a + b);
            }
            i = i + 1;
        }
        out
    }
}

// ── Module names and paths ──────────────────────────────────────────────────

/// The path of a module name: dots stand for directories.
pub open spec fn slashed(module: Seq<char>) -> Seq<char> {
    Seq::new(
        module.len(),
        |i: int|
            if module[i] == '.' {
                '/'
            } else {
                module[i]
            },
    )
}

/// The files that may hold a module, relative to the root, in the order in which
/// they are tried.
pub open spec fn candidates(module: Seq<char>) -> Seq<Seq<char>> {
    seq![
        slashed(module) + ".fnl"@,
        slashed(module) + "/init.fnl"@,
        slashed(module) + ".lua"@,
        slashed(module) + "/init.lua"@,
    ]
}

/// The files that may hold a module (e.g. `"my.util"`), relative to the root.
///
/// Search order: `.fnl` → `init.fnl` → `.lua` → `init.lua`.
/// Fennel takes priority so that a `.fnl` shadow of a `.lua` file is preferred.
pub fn require_candidates(module: &str) -> (r: Vec<String>)
    ensures
        texts(r@) == candidates(module@),
{
    let chars = crate::strings::chars_of(module);
    let mut rel = String::new();
    let mut i: usize = 0;
    while i < chars.len()
        invariant
            i <= chars@.len(),
            chars@ == module@,
            rel@ == slashed(module@).take(i as int),
        decreases chars@.len() - i,
    {
        if chars[i] == '.' {
            rel.push('/');
        } else {
            rel.push(chars[i]);
        }
        i = i + 1;
        assert(rel@ =~= slashed(module@).take(i as int));
    }
    assert(rel@ =~= slashed(module@));
    let r = vec![
        crate::strings::concat(&rel, ".fnl"),
        crate::strings::concat(&rel, "/init.fnl"),
        crate::strings::concat(&rel, ".lua"),
        crate::strings::concat(&rel, "/init.lua"),
    ];
    assert(texts(r@) =~= candidates(module@));
    r
}

/// The first index at or after `i` that is marked.
pub open spec fn first_marked(marks: Seq<bool>, i: int) -> Option<int>
    decreases marks.len() - i,
{
    if !(0 <= i < marks.len()) {
        None
    } else if marks[i] {
        Some(i)
    } else {
        first_marked(marks, i + 1)
    }
}

/// A Fennel file shadows a Lua file of the same module.
pub proof fn fennel_shadows_lua(present: Seq<bool>)
    requires
        present.len() == 4,
        present[0] || present[1],
    ensures
        first_marked(present, 0) == Some(0int) || first_marked(present, 0) == Some(1int),
{
    reveal_with_fuel(first_marked, 2);
}

/// Resolve a Fennel module name to a source file path relative to the root,
/// given which of its candidates exist: the first that does.
pub fn resolve_require_path(module: &str, present: &Vec<bool>) -> (r: Option<String>)
    requires
        present@.len() == candidates(module@).len(),
    ensures
        match r {
            Some(path) => first_marked(present@, 0) matches Some(i) && path@ == candidates(
                module@,
            )[i],
            None => first_marked(present@, 0) is None,
        },
{
    let paths = require_candidates(module);
    assert(texts(paths@).len() == 4);
    let mut i: usize = 0;
    while i < present.len()
        invariant
            i <= present@.len(),
            present@.len() == 4,
            texts(paths@) == candidates(module@),
            texts(paths@).len() == 4,
            first_marked(present@, i as int) == first_marked(present@, 0),
        decreases present@.len() - i,
    {
        if present[i] {
            assert(texts(paths@)[i as int] == paths@[i as int]@);
            return Some(paths[i].clone());
        }
        i = i + 1;
    }
    None
}

} // verus!
