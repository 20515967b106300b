//! Hover, go-to-definition, references, highlights and rename.
use vstd::prelude::*;
use vstd::string::*;
use vstd::utf8::*;

use crate::actions::{required_by, required_module};
use crate::analyzer::{
    def_ref_views, opt_text, scopes_nest, symbol_here, visible_defs, AnalysisView, DefKind,
    DefinitionInfo, DefinitionView, SymbolEntry, SymbolView,
};
use crate::calls::{byte_at_position, byte_of, target_byte};
use crate::docs::{builtin_of, BuiltinSet, BuiltinView};
use crate::lexer::Span;
use crate::lsp::{
    edit_views, file_edit_views, location_views, EditView, FileEdits, Location, LocationView,
    TextEdit,
};
use crate::names::{has_name, index_of, index_of_first, value_of, NameMap};
use crate::parser::{refs_are, AstNode};
use crate::strings::{
    before_joint, behind_joints, chars_of, comes_before, first_part, is_joint, join, joined,
    last_part, order_is_strict, part_end, part_end_skips, same, split_at_joint, split_multisym, text_before, text_between, texts,
};
use crate::text::{range_of, span_to_range, Position, Range};
use crate::walks::{reach, reached, spans_byte, Rule};
use crate::workspace::{
    cross_ref_views, lists, location_of, member_refs, names_member, refs_from_file,
    refs_from_files, refs_through, uri_path, AnalyzedFile, CrossFileRef, CrossRefView, ExportsView, FileView, ModuleExports, Workspace,
};

verus! {

// ── Texts about definitions ─────────────────────────────────────────────────

/// Documentation entry for a single global name of the configuration.
#[derive(Debug)]
pub struct GlobalDoc {
    pub signature: String,
    pub doc: Option<String>,
}

#[verifier::ext_equal]
pub ghost struct GlobalDocView {
    pub signature: Seq<char>,
    pub doc: Option<Seq<char>>,
}

impl View for GlobalDoc {
    type V = GlobalDocView;

    open spec fn view(&self) -> GlobalDocView {
        GlobalDocView { signature: self.signature@, doc: opt_text(self.doc) }
    }
}

/// A block of Fennel code in Markdown.
pub open spec fn fenced(code: Seq<char>) -> Seq<char> {
    "```fennel\n"@ + code + "\n```"@
}

/// A signature and what there is to say of it, as Markdown.
pub open spec fn described(code: Seq<char>, doc: Option<Seq<char>>) -> Seq<char> {
    match doc {
        Some(d) => fenced(code) + "\n\n"@ + d,
        None => fenced(code),
    }
}

fn markdown(code: &str, doc: Option<&str>) -> (r: String)
    ensures
        r@ == described(
            code@,
            match doc {
                Some(d) => Some(d@),
                None => None,
            },
        ),
{
    let mut out = "```fennel\n".to_owned();
    out.append(code);
    out.append("\n```");
    if let Some(d) = doc {
        out.append("\n\n");
        out.append(d);
    }
    out
}

pub open spec fn kind_word(kind: DefKind) -> Seq<char> {
    match kind {
        DefKind::Fn => "fn"@,
        DefKind::Macro => "fn"@,
        DefKind::Local => "local"@,
        DefKind::Var => "var"@,
        DefKind::Global => "global"@,
        DefKind::Param => "param"@,
        DefKind::LoopVar => "loop-var"@,
        DefKind::Destructured => "let"@,
    }
}

/// The signature of a definition.
pub open spec fn signature_of(d: DefinitionView) -> Seq<char> {
    match d.params {
        Some(p) => "("@ + kind_word(d.kind) + " "@ + d.name + " ["@ + joined(
            p,
            " "@,
            p.len() as int,
        ) + "])"@,
        None => "("@ + kind_word(d.kind) + " "@ + d.name + ")"@,
    }
}

pub open spec fn definition_text(d: DefinitionView) -> Seq<char> {
    described(signature_of(d), d.doc)
}

/// A definition as Markdown: its signature, and its docstring if it has one.
pub fn format_definition(def: &DefinitionInfo) -> (r: String)
    ensures
        r@ == definition_text(def@),
{
    let word = match def.kind {
        DefKind::Fn => "fn",
        DefKind::Macro => "fn",
        DefKind::Local => "local",
        DefKind::Var => "var",
        DefKind::Global => "global",
        DefKind::Param => "param",
        DefKind::LoopVar => "loop-var",
        DefKind::Destructured => "let",
    };
    let mut code = "(".to_owned();
    code.append(word);
    code.append(" ");
    code.append(&def.name);
    match &def.params {
        Some(p) => {
            code.append(" [");
            code.append(&join(p, " "));
            code.append("])");
        },
        None => {
            code.append(")");
        },
    }
    match &def.doc {
        Some(d) => markdown(&code, Some(d.as_str())),
        None => markdown(&code, None),
    }
}

// ── Members of modules ──────────────────────────────────────────────────────

/// The definition that a multisym like `utils.helper` names in a required module.
pub open spec fn member_of(f: FileView, name: Seq<char>) -> Option<(ExportsView, DefinitionView)> {
    match split_at_joint(name) {
        None => None,
        Some((root, rest)) => match value_of(f.modules, root) {
            None => None,
            Some(ex) => match value_of(ex.defs, first_part(rest)) {
                None => None,
                Some(d) => Some((ex, d)),
            },
        },
    }
}

fn module_member<'a>(file: &'a AnalyzedFile, name: &str) -> (r: Option<
    (&'a ModuleExports, &'a DefinitionInfo),
>)
    ensures
        match r {
            Some((ex, d)) => member_of(file@, name@) == Some((ex@, d@)),
            None => member_of(file@, name@) is None,
        },
{
    match split_multisym(name) {
        None => None,
        Some((root, rest)) => match file.modules.get(&root) {
            None => None,
            Some(ex) => match ex.defs.get(&before_joint(&rest)) {
                None => None,
                Some(d) => Some((&**ex, d)),
            },
        },
    }
}

/// The definition at a byte.
pub open spec fn def_at_byte(a: AnalysisView, byte: Option<u32>) -> Option<DefinitionView> {
    match byte {
        Some(d) => if a.defs.dom().contains(d) {
            Some(a.defs[d])
        } else {
            None
        },
        None => None,
    }
}

fn definition_at<'a>(file: &'a AnalyzedFile, byte: Option<u32>) -> (r: Option<&'a DefinitionInfo>)
    ensures
        match r {
            Some(d) => def_at_byte(file@.analysis, byte) == Some(d@),
            None => def_at_byte(file@.analysis, byte) is None,
        },
{
    match byte {
        Some(d) => file.analysis.defs.get(&d),
        None => None,
    }
}

/// The symbol at a position.
pub open spec fn symbol_at_position(f: FileView, pos: Position) -> Option<SymbolView> {
    match byte_of(f.text, pos) {
        Some(byte) => symbol_here(f.analysis, byte),
        None => None,
    }
}

fn symbol_under<'a>(file: &'a AnalyzedFile, pos: Position) -> (r: Option<&'a SymbolEntry>)
    ensures
        match r {
            Some(s) => symbol_at_position(file@, pos) == Some(s@),
            None => symbol_at_position(file@, pos) is None,
        },
{
    match byte_at_position(&file.text, pos) {
        Some(byte) => file.analysis.symbol_at(byte),
        None => None,
    }
}

// ── Hover ───────────────────────────────────────────────────────────────────

/// What to show about a symbol, as Markdown, and where the symbol stands.
#[derive(Debug)]
pub struct Hover {
    pub value: String,
    pub range: Range,
}

/// The text before the last dot.
pub open spec fn before_last_dot(s: Seq<char>) -> Option<Seq<char>>
    decreases s.len(),
{
    if s.len() == 0 {
        None
    } else if s.last() == '.' {
        Some(s.drop_last())
    } else {
        before_last_dot(s.drop_last())
    }
}

proof fn before_last_dot_is_shorter(s: Seq<char>)
    ensures
        before_last_dot(s) matches Some(t) ==> t.len() < s.len(),
    decreases s.len(),
{
    if s.len() > 0 && s.last() != '.' {
        before_last_dot_is_shorter(s.drop_last());
    }
}

/// The documentation of a global: its own, or that of the nearest namespace
/// around it.
pub open spec fn global_doc(docs: Seq<(Seq<char>, GlobalDocView)>, name: Seq<char>) -> Option<
    GlobalDocView,
>
    decreases name.len(),
    via shorter_names
{
    if has_name(docs, name) {
        value_of(docs, name)
    } else {
        match before_last_dot(name) {
            Some(outer) => global_doc(docs, outer),
            None => None,
        }
    }
}

#[via_fn]
proof fn shorter_names(docs: Seq<(Seq<char>, GlobalDocView)>, name: Seq<char>) {
    before_last_dot_is_shorter(name);
}

fn cut_at_last_dot(s: &str) -> (r: Option<String>)
    ensures
        match r {
            Some(t) => before_last_dot(s@) == Some(t@),
            None => before_last_dot(s@) is None,
        },
{
    let chars = chars_of(s);
    let mut i: usize = chars.len();
    assert(chars@.take(i as int) =~= chars@);
    while i > 0
        invariant
            i <= chars@.len(),
            chars@ == s@,
            before_last_dot(chars@.take(i as int)) == before_last_dot(chars@),
        decreases i,
    {
        assert(chars@.take(i as int).drop_last() =~= chars@.take(i - 1));
        if chars[i - 1] == '.' {
            let t = text_between(&chars, 0, i - 1);
            assert(t@ =~= chars@.take(i - 1));
            return Some(t);
        }
        i = i - 1;
    }
    None
}

fn find_global_doc<'a>(docs: &'a NameMap<GlobalDoc>, name: &str) -> (r: Option<&'a GlobalDoc>)
    ensures
        match r {
            Some(d) => global_doc(docs@, name@) == Some(d@),
            None => global_doc(docs@, name@) is None,
        },
    decreases name@.len(),
{
    if let Some(d) = docs.get(name) {
        return Some(d);
    }
    match cut_at_last_dot(name) {
        Some(outer) => {
            proof {
                before_last_dot_is_shorter(name@);
            }
            find_global_doc(docs, &outer)
        },
        None => None,
    }
}

/// What to show about a symbol: a member of a module comes first, then the
/// definition in the file, then a builtin, then the documentation of a global.
pub open spec fn symbol_text(
    f: FileView,
    sym: SymbolView,
    builtins: Seq<(Seq<char>, BuiltinView)>,
    docs: Seq<(Seq<char>, GlobalDocView)>,
) -> Option<Seq<char>> {
    match member_of(f, sym.name) {
        Some((_, d)) => Some(definition_text(d)),
        None => match def_at_byte(f.analysis, sym.def_byte) {
            Some(d) => Some(definition_text(d)),
            None => match builtin_of(builtins, sym.name) {
                Some(d) => Some(described(d.signature, Some(d.doc))),
                None => match global_doc(docs, sym.name) {
                    Some(d) => Some(described(d.signature, d.doc)),
                    None => None,
                },
            },
        },
    }
}

pub fn hover(file: &AnalyzedFile, builtins: &BuiltinSet, docs: &NameMap<GlobalDoc>, pos: Position) -> (r:
    Option<Hover>)
    ensures
        match symbol_at_position(file@, pos) {
            None => r is None,
            Some(sym) => match r {
                Some(h) => symbol_text(file@, sym, builtins@, docs@) == Some(h.value@) && h.range
                    == range_of(encode_utf8(file@.text), sym.span),
                None => symbol_text(file@, sym, builtins@, docs@) is None,
            },
        },
{
    let sym = match symbol_under(file, pos) {
        Some(s) => s,
        None => {
            return None;
        },
    };
    let range = span_to_range(&file.text, &sym.span);
    if let Some((_, d)) = module_member(file, &sym.name) {
        return Some(Hover { value: format_definition(d), range });
    }
    if let Some(d) = definition_at(file, sym.def_byte) {
        return Some(Hover { value: format_definition(d), range });
    }
    if let Some(d) = builtins.get(&sym.name) {
        return Some(Hover { value: markdown(&d.signature, Some(d.doc.as_str())), range });
    }
    if let Some(d) = find_global_doc(docs, &sym.name) {
        let value = match &d.doc {
            Some(t) => markdown(&d.signature, Some(t.as_str())),
            None => markdown(&d.signature, None),
        };
        return Some(Hover { value, range });
    }
    None
}

// ── Go to definition ────────────────────────────────────────────────────────

/// Where a symbol is defined: in a required module, or in its own file.
pub open spec fn definition_place(f: FileView, sym: SymbolView) -> Option<LocationView> {
    match member_of(f, sym.name) {
        Some((ex, d)) => Some(location_of(ex, d.span)),
        None => match def_at_byte(f.analysis, sym.def_byte) {
            Some(d) => Some(
                LocationView { uri: f.uri, range: range_of(encode_utf8(f.text), d.span) },
            ),
            None => None,
        },
    }
}

/// The place of the definition of the symbol at a position; module members take
/// priority over the root binding.
pub fn goto_definition(file: &AnalyzedFile, pos: Position) -> (r: Option<Location>)
    ensures
        match symbol_at_position(file@, pos) {
            None => r is None,
            Some(sym) => match r {
                Some(l) => definition_place(file@, sym) == Some(l@),
                None => definition_place(file@, sym) is None,
            },
        },
{
    let sym = match symbol_under(file, pos) {
        Some(s) => s,
        None => {
            return None;
        },
    };
    if let Some((ex, d)) = module_member(file, &sym.name) {
        return Some(ex.location_for_def(d));
    }
    match definition_at(file, sym.def_byte) {
        Some(d) => Some(
            Location { uri: file.uri.clone(), range: span_to_range(&file.text, &d.span) },
        ),
        None => None,
    }
}

/// The module that a `(require …)` form names around a byte.
pub open spec fn names_module_at(n: AstNode, byte: u32) -> Option<Seq<char>> {
    match required_by(n) {
        Some((span, module)) => if spans_byte(span, byte) {
            Some(module)
        } else {
            None
        },
        None => None,
    }
}

/// The module that the first of some nodes names around a byte, from index `i` on.
pub open spec fn module_named_at(nodes: Seq<AstNode>, byte: u32, i: int) -> Option<Seq<char>>
    decreases nodes.len() - i,
{
    if !(0 <= i < nodes.len()) {
        None
    } else if names_module_at(nodes[i], byte) is Some {
        names_module_at(nodes[i], byte)
    } else {
        module_named_at(nodes, byte, i + 1)
    }
}

/// If `byte` falls inside the module-name argument of a `(require …)` form,
/// return that module name string.
pub fn require_module_at(byte: u32, ast: &[AstNode]) -> (r: Option<String>)
    ensures
        opt_text(r) == module_named_at(reached(Rule::All, ast@), byte, 0),
{
    let nodes = reach(Rule::All, ast);
    let ghost all = reached(Rule::All, ast@);
    let mut i: usize = 0;
    while i < nodes.len()
        invariant
            i <= nodes@.len(),
            all == reached(Rule::All, ast@),
            refs_are(nodes@, all),
            module_named_at(all, byte, i as int) == module_named_at(all, byte, 0),
        decreases nodes@.len() - i,
    {
        assert(*nodes@[i as int] == all[i as int]);
        if let Some((span, module)) = required_module(nodes[i]) {
            if span.start <= byte && byte <= span.end {
                return Some(module.clone());
            }
        }
        i = i + 1;
    }
    None
}

/// The module whose name stands at a position, as the argument of a `require`.
pub fn goto_module(file: &AnalyzedFile, pos: Position) -> (r: Option<String>)
    ensures
        opt_text(r) == (match byte_of(file@.text, pos) {
            Some(byte) => module_named_at(reached(Rule::All, file@.ast), byte, 0),
            None => None,
        }),
{
    match byte_at_position(&file.text, pos) {
        Some(byte) => require_module_at(byte, &file.ast),
        None => None,
    }
}

// ── Uses of a definition ────────────────────────────────────────────────────

/// The symbol makes, or stands for, the definition at a byte.
pub open spec fn is_use(sym: SymbolView, target: u32) -> bool {
    (sym.is_def && sym.span.start == target) || (!sym.is_def && sym.def_byte == Some(target))
}

/// The uses of a definition among the first `k` symbols of a file: where they
/// stand, and whether they make the definition.
pub open spec fn uses_of(syms: Seq<SymbolView>, target: u32, k: int) -> Seq<(Span, bool)>
    decreases k,
{
    if 0 < k <= syms.len() {
        let before = uses_of(syms, target, k - 1);
        if is_use(syms[k - 1], target) {
            before.push((syms[k - 1].span, syms[k - 1].is_def))
        } else {
            before
        }
    } else {
        Seq::empty()
    }
}

/// The uses of the definition of a symbol in its file; none where it has none.
pub open spec fn uses_in_file(f: FileView, target: Option<u32>) -> Seq<(Span, bool)> {
    match target {
        Some(d) => uses_of(f.analysis.syms, d, f.analysis.syms.len() as int),
        None => Seq::empty(),
    }
}

fn find_uses(file: &AnalyzedFile, target: Option<u32>) -> (r: Vec<(Span, bool)>)
    ensures
        r@ == uses_in_file(file@, target),
{
    let mut out: Vec<(Span, bool)> = Vec::new();
    let d = match target {
        Some(d) => d,
        None => {
            return out;
        },
    };
    let ghost syms = file@.analysis.syms;
    let mut k: usize = 0;
    while k < file.analysis.syms.len()
        invariant
            k <= file.analysis.syms@.len(),
            syms == file@.analysis.syms,
            out@ == uses_of(syms, d, k as int),
        decreases file.analysis.syms@.len() - k,
    {
        let sym = &file.analysis.syms[k];
        assert(syms[k as int] == sym@);
        let used = if sym.is_def {
            sym.span.start == d
        } else {
            match sym.def_byte {
                Some(b) => b == d,
                None => false,
            }
        };
        if used {
            out.push((sym.span, sym.is_def));
        }
        k = k + 1;
    }
    out
}

fn target_of(sym: &SymbolEntry) -> (r: Option<u32>)
    ensures
        r == target_byte(sym@),
{
    if sym.is_def {
        Some(sym.span.start)
    } else {
        sym.def_byte
    }
}

/// A place where a definition is used; it is written where it is defined.
#[derive(Debug, Clone, Copy, PartialEq, Eq, Structural)]
pub struct DocumentHighlight {
    pub range: Range,
    pub write: bool,
}

pub open spec fn highlights_of(uses: Seq<(Span, bool)>, b: Seq<u8>) -> Seq<DocumentHighlight> {
    Seq::new(
        uses.len(),
        |i: int| DocumentHighlight { range: range_of(b, uses[i].0), write: uses[i].1 },
    )
}

/// The uses of the definition of the symbol at a position. None where there is
/// no symbol, or its definition is not known.
pub fn document_highlight(file: &AnalyzedFile, pos: Position) -> (r: Option<Vec<DocumentHighlight>>)
    ensures
        match symbol_at_position(file@, pos) {
            None => r is None,
            Some(sym) => match r {
                Some(h) => target_byte(sym) is Some && h@ == highlights_of(
                    uses_in_file(file@, target_byte(sym)),
                    encode_utf8(file@.text),
                ),
                None => target_byte(sym) is None,
            },
        },
{
    let sym = match symbol_under(file, pos) {
        Some(s) => s,
        None => {
            return None;
        },
    };
    let target = target_of(sym);
    if target.is_none() {
        return None;
    }
    let uses = find_uses(file, target);
    let ghost b = encode_utf8(file@.text);
    let mut out: Vec<DocumentHighlight> = Vec::new();
    let mut i: usize = 0;
    while i < uses.len()
        invariant
            i <= uses@.len(),
            b == encode_utf8(file@.text),
            out@.len() == i,
            forall|j: int| 0 <= j < i ==> #[trigger] out@[j] == highlights_of(uses@, b)[j],
        decreases uses@.len() - i,
    {
        let (span, write) = uses[i];
        out.push(DocumentHighlight { range: span_to_range(&file.text, &span), write });
        i = i + 1;
    }
    assert(out@ =~= highlights_of(uses@, b));
    Some(out)
}

// ── References ──────────────────────────────────────────────────────────────

/// The file and the name by which other files refer to what a symbol names.
pub open spec fn cross_key(f: FileView, sym: SymbolView) -> Option<(Seq<char>, Seq<char>)> {
    if sym.is_def {
        Some((f.uri, sym.name))
    } else {
        match split_at_joint(sym.name) {
            Some((root, rest)) => match value_of(f.modules, root) {
                Some(ex) => Some((ex.uri, first_part(rest))),
                None => None,
            },
            None => None,
        }
    }
}

pub open spec fn key_view(k: Option<(String, String)>) -> Option<(Seq<char>, Seq<char>)> {
    match k {
        Some((uri, name)) => Some((uri@, name@)),
        None => None,
    }
}

fn key_of(file: &AnalyzedFile, sym: &SymbolEntry) -> (r: Option<(String, String)>)
    ensures
        key_view(r) == cross_key(file@, sym@),
{
    if sym.is_def {
        return Some((file.uri.clone(), sym.name.clone()));
    }
    match split_multisym(&sym.name) {
        Some((root, rest)) => match file.modules.get(&root) {
            Some(ex) => Some((ex.uri.clone(), before_joint(&rest))),
            None => None,
        },
        None => None,
    }
}

pub open spec fn use_locations(f: FileView, uses: Seq<(Span, bool)>) -> Seq<LocationView> {
    Seq::new(
        uses.len(),
        |i: int| LocationView { uri: f.uri, range: range_of(encode_utf8(f.text), uses[i].0) },
    )
}

pub open spec fn cross_locations(refs: Seq<CrossRefView>) -> Seq<LocationView> {
    Seq::new(
        refs.len(),
        |i: int|
            LocationView {
                uri: refs[i].uri,
                range: range_of(encode_utf8(refs[i].text), refs[i].span),
            },
    )
}

/// The order of locations: by URI, then by line, then by character.
pub open spec fn stands_before(a: LocationView, b: LocationView) -> bool {
    if a.uri != b.uri {
        text_before(a.uri, b.uri)
    } else if a.range.start.line != b.range.start.line {
        a.range.start.line < b.range.start.line
    } else {
        a.range.start.character < b.range.start.character
    }
}

/// Puts a location behind all those that it does not stand before.
pub open spec fn insert_location(s: Seq<LocationView>, x: LocationView) -> Seq<LocationView>
    decreases s.len(),
{
    if s.len() > 0 && stands_before(x, s.last()) {
        insert_location(s.drop_last(), x).push(s.last())
    } else {
        s.push(x)
    }
}

/// The locations in their order; equals keep theirs.
pub open spec fn sorted_locations(s: Seq<LocationView>) -> Seq<LocationView>
    decreases s.len(),
{
    if s.len() == 0 {
        s
    } else {
        insert_location(sorted_locations(s.drop_last()), s.last())
    }
}

/// No location stands before the one in front of it.
pub open spec fn in_location_order(s: Seq<LocationView>) -> bool {
    forall|i: int| 0 < i < s.len() ==> !stands_before(#[trigger] s[i], s[i - 1])
}

proof fn insert_location_in_order(s: Seq<LocationView>, x: LocationView)
    requires
        in_location_order(s),
    ensures
        in_location_order(insert_location(s, x)),
        insert_location(s, x).len() == s.len() + 1,
        insert_location(s, x).last() == x || s.len() > 0 && insert_location(s, x).last()
            == s.last(),
    decreases s.len(),
{
    if s.len() > 0 && stands_before(x, s.last()) {
        let t = s.drop_last();
        assert(forall|i: int| 0 <= i < t.len() ==> t[i] == s[i]);
        insert_location_in_order(t, x);
        order_is_strict(x.uri, s.last().uri);
        let u = insert_location(t, x);
        let r = insert_location(s, x);
        assert(forall|i: int| 0 <= i < u.len() ==> r[i] == u[i]);
        if t.len() > 0 {
            assert(!stands_before(s[s.len() - 1], s[s.len() - 2]));
        }
    } else {
        let r = insert_location(s, x);
        assert(forall|i: int| 0 <= i < s.len() ==> r[i] == s[i]);
    }
}

/// References come by URI, then by line, then by character.
pub proof fn references_are_in_order(s: Seq<LocationView>)
    ensures
        in_location_order(sorted_locations(s)),
        sorted_locations(s).len() == s.len(),
    decreases s.len(),
{
    if s.len() > 0 {
        references_are_in_order(s.drop_last());
        insert_location_in_order(sorted_locations(s.drop_last()), s.last());
    }
}

fn is_before(a: &Location, b: &Location) -> (r: bool)
    ensures
        r == stands_before(a@, b@),
{
    if !same(&a.uri, &b.uri) {
        comes_before(&a.uri, &b.uri)
    } else if a.range.start.line != b.range.start.line {
        a.range.start.line < b.range.start.line
    } else {
        a.range.start.character < b.range.start.character
    }
}

proof fn insert_location_at(s: Seq<LocationView>, x: LocationView, k: int)
    requires
        0 <= k <= s.len(),
        forall|i: int| k <= i < s.len() ==> stands_before(x, #[trigger] s[i]),
        k > 0 ==> !stands_before(x, s[k - 1]),
    ensures
        insert_location(s, x) == s.insert(k, x),
    decreases s.len(),
{
    if k < s.len() {
        let t = s.drop_last();
        assert(stands_before(x, s[s.len() - 1]));
        insert_location_at(t, x, k);
        assert(t.insert(k, x).push(s.last()) =~= s.insert(k, x));
    } else {
        assert(s.push(x) =~= s.insert(k, x));
    }
}

fn sort_locations(v: Vec<Location>) -> (r: Vec<Location>)
    ensures
        location_views(r@) == sorted_locations(location_views(v@)),
{
    let ghost all = location_views(v@);
    let mut out: Vec<Location> = Vec::new();
    let mut i: usize = 0;
    assert(location_views(out@) =~= sorted_locations(all.take(0))) by {
        assert(all.take(0) =~= Seq::<LocationView>::empty());
    }
    while i < v.len()
        invariant
            i <= v@.len(),
            all == location_views(v@),
            location_views(out@) == sorted_locations(all.take(i as int)),
        decreases v@.len() - i,
    {
        let x = Location { uri: v[i].uri.clone(), range: v[i].range };
        assert(x@ == all[i as int]);
        let ghost s = location_views(out@);
        let mut k: usize = out.len();
        while k > 0 && is_before(&x, &out[k - 1])
            invariant
                k <= out@.len(),
                s == location_views(out@),
                forall|j: int| k <= j < s.len() ==> stands_before(x@, #[trigger] s[j]),
            decreases k,
        {
            assert(s[k - 1] == out@[k - 1]@);
            k = k - 1;
        }
        proof {
            if k > 0 {
                assert(s[k - 1] == out@[k - 1]@);
            }
            insert_location_at(s, x@, k as int);
            let t = all.take(i + 1);
            assert(t.drop_last() =~= all.take(i as int));
        }
        out.insert(k, x);
        assert(location_views(out@) =~= s.insert(k as int, x@));
        i = i + 1;
    }
    assert(all.take(all.len() as int) =~= all);
    out
}

pub type FileUses = Option<(Vec<Location>, Option<(String, String)>)>;

/// What the file of a symbol says about references to it: its uses, and the key
/// for other files. None where there is no symbol, or neither.
pub open spec fn file_references(f: FileView, pos: Position) -> Option<
    (Seq<LocationView>, Option<(Seq<char>, Seq<char>)>),
> {
    match symbol_at_position(f, pos) {
        None => None,
        Some(sym) => {
            let own = use_locations(f, uses_in_file(f, target_byte(sym)));
            if own.len() == 0 && cross_key(f, sym) is None {
                None
            } else {
                Some((own, cross_key(f, sym)))
            }
        },
    }
}

fn references_in_file(file: &AnalyzedFile, pos: Position) -> (r: FileUses)
    ensures
        match r {
            Some((own, key)) => file_references(file@, pos) == Some(
                (location_views(own@), key_view(key)),
            ),
            None => file_references(file@, pos) is None,
        },
{
    let sym = match symbol_under(file, pos) {
        Some(s) => s,
        None => {
            return None;
        },
    };
    let uses = find_uses(file, target_of(sym));
    let ghost want = use_locations(file@, uses@);
    let mut own: Vec<Location> = Vec::new();
    let mut i: usize = 0;
    while i < uses.len()
        invariant
            i <= uses@.len(),
            want == use_locations(file@, uses@),
            own@.len() == i,
            forall|j: int| 0 <= j < i ==> (#[trigger] own@[j])@ == want[j],
        decreases uses@.len() - i,
    {
        own.push(
            Location { uri: file.uri.clone(), range: span_to_range(&file.text, &uses[i].0) },
        );
        i = i + 1;
    }
    assert(location_views(own@) =~= want);
    let key = key_of(file, sym);
    if own.len() == 0 && key.is_none() {
        None
    } else {
        Some((own, key))
    }
}

/// All references, sorted: the uses in the file of the symbol, and those in the
/// open files that refer to it across files.
pub open spec fn all_references(
    own: Seq<LocationView>,
    key: Option<(Seq<char>, Seq<char>)>,
    files: Map<Seq<char>, AnalyzedFile>,
    order: Seq<Seq<char>>,
) -> Seq<LocationView> {
    sorted_locations(own + cross_locations(key_refs(key, files, order)))
}

/// The references from other files by a key.
pub open spec fn key_refs(
    key: Option<(Seq<char>, Seq<char>)>,
    files: Map<Seq<char>, AnalyzedFile>,
    order: Seq<Seq<char>>,
) -> Seq<CrossRefView> {
    match key {
        Some((uri, name)) => refs_from_files(
            files,
            order,
            uri_path(uri),
            name,
            order.len() as int,
        ),
        None => Seq::empty(),
    }
}

fn refs_by_key(ws: &Workspace, key: &Option<(String, String)>) -> (r: Vec<CrossFileRef>)
    ensures
        exists|order: Seq<Seq<char>>| #[trigger]
            lists(order, ws.open_files().dom()) && cross_ref_views(r@) == key_refs(
                key_view(*key),
                ws.open_files(),
                order,
            ),
{
    match key {
        Some((uri, name)) => ws.cross_file_refs_of(uri, name),
        None => {
            let r: Vec<CrossFileRef> = Vec::new();
            let uris = ws.all_open_uris();
            let ghost order = texts(uris@);
            assert(lists(order, ws.open_files().dom()));
            assert(cross_ref_views(r@) =~= Seq::<CrossRefView>::empty());
            r
        },
    }
}

/// The references to the symbol at a position, in its file and across the open
/// files. None where there is none.
pub fn references(ws: &Workspace, uri: &str, pos: Position) -> (r: Option<Vec<Location>>)
    ensures
        !ws.open_files().dom().contains(uri@) ==> r is None,
        ws.open_files().dom().contains(uri@) ==> match file_references(
            ws.open_files()[uri@]@,
            pos,
        ) {
            None => r is None,
            Some((own, key)) => exists|order: Seq<Seq<char>>| #[trigger]
                lists(order, ws.open_files().dom()) && match r {
                    Some(v) => v@.len() > 0 && location_views(v@) == all_references(
                        own,
                        key,
                        ws.open_files(),
                        order,
                    ),
                    None => all_references(own, key, ws.open_files(), order).len() == 0,
                },
        },
        r matches Some(v) ==> ({
            let f = ws.open_files()[uri@]@;
            &&& symbol_at_position(f, pos) matches Some(sym)
            &&& places_every_use(f, sym, ws.open_files(), location_views(v@))
        }),
{
    let look = |f: &AnalyzedFile| -> (u: FileUses)
        ensures
            match u {
                Some((own, key)) => file_references(f@, pos) == Some(
                    (location_views(own@), key_view(key)),
                ),
                None => file_references(f@, pos) is None,
            },
    {
        references_in_file(f, pos)
    };
    let (own, key) = match ws.with_file(uri, look) {
        Some(Some(pair)) => pair,
        _ => {
            return None;
        },
    };
    let mut all: Vec<Location> = own;
    let ghost first = location_views(all@);
    let cross = refs_by_key(ws, &key);
    let ghost refs = cross_ref_views(cross@);
    assert(first =~= first + cross_locations(refs).take(0));
    let mut i: usize = 0;
    while i < cross.len()
        invariant
            i <= cross@.len(),
            refs == cross_ref_views(cross@),
            location_views(all@) == first + cross_locations(refs).take(i as int),
        decreases cross@.len() - i,
    {
        let x = &cross[i];
        assert(refs[i as int] == x@);
        let ghost before = location_views(all@);
        let l = Location { uri: x.uri.clone(), range: span_to_range(&x.text, &x.span) };
        all.push(l);
        assert(location_views(all@) =~= before.push(l@));
        i = i + 1;
        assert(location_views(all@) =~= first + cross_locations(refs).take(i as int));
    }
    assert(cross_locations(refs).take(refs.len() as int) =~= cross_locations(refs));
    let sorted = sort_locations(all);
    proof {
        let files = ws.open_files();
        let f = files[uri@]@;
        let sym = symbol_at_position(f, pos)->0;
        let order = choose|order: Seq<Seq<char>>| #[trigger]
            lists(order, files.dom()) && refs == key_refs(key_view(key), files, order);
        references_hold_every_use(f, sym, files, order);
    }
    if sorted.len() == 0 {
        None
    } else {
        Some(sorted)
    }
}

// ── Rename ──────────────────────────────────────────────────────────────────

/// A multisym whose part behind the first joint gives way to a new name.
pub open spec fn renamed_member(sym: Seq<char>, new_name: Seq<char>) -> Seq<char> {
    let e = part_end(sym, 0);
    if e < sym.len() {
        sym.take(e + 1) + new_name
    } else {
        new_name
    }
}

fn rename_member(sym: &str, new_name: &str) -> (r: String)
    ensures
        r@ == renamed_member(sym@, new_name@),
{
    let chars = chars_of(sym);
    let mut e: usize = 0;
    while e < chars.len() && !(chars[e] == '.' || chars[e] == ':')
        invariant
            e <= chars@.len(),
            part_end(chars@, e as int) == part_end(chars@, 0),
        decreases chars@.len() - e,
    {
        e = e + 1;
    }
    if e < chars.len() {
        let mut out = text_between(&chars, 0, e + 1);
        assert(out@ =~= sym@.take(e + 1));
        out.append(new_name);
        out
    } else {
        new_name.to_owned()
    }
}

pub open spec fn use_edits(f: FileView, uses: Seq<(Span, bool)>, new_name: Seq<char>) -> Seq<EditView> {
    Seq::new(
        uses.len(),
        |i: int| EditView { range: range_of(encode_utf8(f.text), uses[i].0), new_text: new_name },
    )
}

/// The edits of files, with one more.
pub open spec fn with_edit(
    s: Seq<(Seq<char>, Seq<EditView>)>,
    uri: Seq<char>,
    edit: EditView,
) -> Seq<(Seq<char>, Seq<EditView>)> {
    let i = index_of(s, uri);
    if i < s.len() {
        s.update(i, (uri, s[i].1.push(edit)))
    } else {
        s.push((uri, seq![edit]))
    }
}

/// The edits of files, with those of the first `k` references from other files.
pub open spec fn with_cross_edits(
    s: Seq<(Seq<char>, Seq<EditView>)>,
    refs: Seq<CrossRefView>,
    new_name: Seq<char>,
    k: int,
) -> Seq<(Seq<char>, Seq<EditView>)>
    decreases k,
{
    if 0 < k <= refs.len() {
        let x = refs[k - 1];
        with_edit(
            with_cross_edits(s, refs, new_name, k - 1),
            x.uri,
            EditView {
                range: range_of(encode_utf8(x.text), x.span),
                new_text: renamed_member(x.sym_name, new_name),
            },
        )
    } else {
        s
    }
}

fn add_edit(out: &mut Vec<FileEdits>, uri: &str, edit: TextEdit)
    ensures
        file_edit_views(final(out)@) == with_edit(file_edit_views(old(out)@), uri@, edit@),
{
    let ghost s = file_edit_views(out@);
    let mut i: usize = 0;
    while i < out.len() && !same(&out[i].uri, uri)
        invariant
            i <= out@.len(),
            out@ == old(out)@,
            s == file_edit_views(out@),
            forall|j: int| 0 <= j < i ==> (#[trigger] s[j]).0 != uri@,
        decreases out@.len() - i,
    {
        assert(s[i as int] == out@[i as int]@);
        i = i + 1;
    }
    proof {
        index_of_first(s, uri@);
    }
    if i < out.len() {
        assert(s[i as int] == out@[i as int]@);
        assert(index_of(s, uri@) == i);
        let mut entry = out.remove(i);
        let ghost before = edit_views(entry.edits@);
        entry.edits.push(edit);
        assert(edit_views(entry.edits@) =~= before.push(edit@));
        out.insert(i, entry);
        assert(out@ =~= old(out)@.update(i as int, entry));
        assert(file_edit_views(out@) =~= with_edit(s, uri@, edit@));
    } else {
        let edits = vec![edit];
        assert(edit_views(edits@) =~= seq![edit@]);
        out.push(FileEdits { uri: uri.to_owned(), edits });
        assert(file_edit_views(out@) =~= with_edit(s, uri@, edit@));
    }
}

pub type RenamePlan = Option<(FileEdits, Option<(String, String)>)>;

fn rename_in_file(file: &AnalyzedFile, pos: Position, new_name: &str) -> (r: RenamePlan)
    ensures
        match symbol_at_position(file@, pos) {
            None => r is None,
            Some(sym) => match r {
                Some((own, key)) => {
                    &&& own@ == (
                        file@.uri,
                        use_edits(file@, uses_in_file(file@, target_byte(sym)), new_name@),
                    )
                    &&& key_view(key) == cross_key(file@, sym)
                },
                None => false,
            },
        },
{
    let sym = match symbol_under(file, pos) {
        Some(s) => s,
        None => {
            return None;
        },
    };
    let uses = find_uses(file, target_of(sym));
    let ghost want = use_edits(file@, uses@, new_name@);
    let mut edits: Vec<TextEdit> = Vec::new();
    let mut i: usize = 0;
    while i < uses.len()
        invariant
            i <= uses@.len(),
            want == use_edits(file@, uses@, new_name@),
            edits@.len() == i,
            forall|j: int| 0 <= j < i ==> (#[trigger] edits@[j])@ == want[j],
        decreases uses@.len() - i,
    {
        edits.push(
            TextEdit {
                range: span_to_range(&file.text, &uses[i].0),
                new_text: new_name.to_owned(),
            },
        );
        i = i + 1;
    }
    assert(edit_views(edits@) =~= want);
    Some((FileEdits { uri: file.uri.clone(), edits }, key_of(file, sym)))
}

/// The edits that rename the symbol at a position, file by file: first its own
/// file, even without edits, then the open files that refer to it across files.
/// None where there is no symbol.
pub fn rename(ws: &Workspace, uri: &str, pos: Position, new_name: &str) -> (r: Option<Vec<FileEdits>>)
    ensures
        !ws.open_files().dom().contains(uri@) ==> r is None,
        ws.open_files().dom().contains(uri@) ==> ({
            let f = ws.open_files()[uri@]@;
            match symbol_at_position(f, pos) {
                None => r is None,
                Some(sym) => exists|order: Seq<Seq<char>>| #[trigger]
                    lists(order, ws.open_files().dom()) && ({
                        let refs = key_refs(cross_key(f, sym), ws.open_files(), order);
                        &&& r matches Some(v)
                        &&& file_edit_views(v@) == with_cross_edits(
                            seq![
                                (
                                    f.uri,
                                    use_edits(f, uses_in_file(f, target_byte(sym)), new_name@),
                                ),
                            ],
                            refs,
                            new_name@,
                            refs.len() as int,
                        )
                    }),
            }
        }),
        r matches Some(v) ==> ({
            let f = ws.open_files()[uri@]@;
            &&& symbol_at_position(f, pos) matches Some(sym)
            &&& renames_every_use(f, sym, new_name@, ws.open_files(), file_edit_views(v@))
        }),
{
    let look = |f: &AnalyzedFile| -> (u: RenamePlan)
        ensures
            match symbol_at_position(f@, pos) {
                None => u is None,
                Some(sym) => match u {
                    Some((own, key)) => {
                        &&& own@ == (
                            f@.uri,
                            use_edits(f@, uses_in_file(f@, target_byte(sym)), new_name@),
                        )
                        &&& key_view(key) == cross_key(f@, sym)
                    },
                    None => false,
                },
            },
    {
        rename_in_file(f, pos, new_name)
    };
    let (own, key) = match ws.with_file(uri, look) {
        Some(Some(pair)) => pair,
        _ => {
            return None;
        },
    };
    let mut all: Vec<FileEdits> = vec![own];
    let ghost first = file_edit_views(all@);
    assert(first =~= seq![own@]);
    let cross = refs_by_key(ws, &key);
    let ghost refs = cross_ref_views(cross@);
    let mut i: usize = 0;
    while i < cross.len()
        invariant
            i <= cross@.len(),
            refs == cross_ref_views(cross@),
            file_edit_views(all@) == with_cross_edits(first, refs, new_name@, i as int),
        decreases cross@.len() - i,
    {
        let x = &cross[i];
        assert(refs[i as int] == x@);
        let edit = TextEdit {
            range: span_to_range(&x.text, &x.span),
            new_text: rename_member(&x.sym_name, new_name),
        };
        add_edit(&mut all, &x.uri, edit);
        i = i + 1;
    }
    proof {
        let files = ws.open_files();
        let f = files[uri@]@;
        let sym = symbol_at_position(f, pos)->0;
        let order = choose|order: Seq<Seq<char>>| #[trigger]
            lists(order, files.dom()) && refs == key_refs(key_view(key), files, order);
        rename_reaches_every_use(f, sym, new_name@, files, order);
    }
    Some(all)
}

/// The range of the symbol at a position and the name to start a rename from:
/// its last part. None where the definition of the symbol is not known.
pub fn prepare_rename(file: &AnalyzedFile, pos: Position) -> (r: Option<(Range, String)>)
    ensures
        match symbol_at_position(file@, pos) {
            None => r is None,
            Some(sym) => match r {
                Some((range, name)) => {
                    &&& target_byte(sym) is Some
                    &&& range == range_of(encode_utf8(file@.text), sym.span)
                    &&& name@ == last_part(sym.name)
                },
                None => target_byte(sym) is None,
            },
        },
{
    let sym = match symbol_under(file, pos) {
        Some(s) => s,
        None => {
            return None;
        },
    };
    match target_of(sym) {
        Some(_) => Some((span_to_range(&file.text, &sym.span), behind_joints(&sym.name))),
        None => None,
    }
}

// ── Inline values ───────────────────────────────────────────────────────────

/// A variable whose value an editor may show.
#[derive(Debug)]
pub struct InlineValue {
    pub range: Range,
    pub variable_name: String,
}

impl View for InlineValue {
    type V = (Range, Seq<char>);

    open spec fn view(&self) -> (Range, Seq<char>) {
        (self.range, self.variable_name@)
    }
}

pub open spec fn inline_views(s: Seq<InlineValue>) -> Seq<(Range, Seq<char>)> {
    Seq::new(s.len(), |i: int| s[i]@)
}

/// The variables that can be seen at a position.
pub open spec fn inline_at(f: FileView, pos: Position) -> Seq<(Range, Seq<char>)> {
    match byte_of(f.text, pos) {
        Some(byte) => {
            let defs = visible_defs(f.analysis, byte);
            Seq::new(
                defs.len(),
                |i: int| (range_of(encode_utf8(f.text), defs[i].span), defs[i].name),
            )
        },
        None => Seq::empty(),
    }
}

pub fn inline_values(file: &AnalyzedFile, stopped: Position) -> (r: Vec<InlineValue>)
    requires
        scopes_nest(file@.analysis.scopes),
    ensures
        inline_views(r@) == inline_at(file@, stopped),
{
    let mut out: Vec<InlineValue> = Vec::new();
    let byte = match byte_at_position(&file.text, stopped) {
        Some(b) => b,
        None => {
            assert(inline_views(out@) =~= inline_at(file@, stopped));
            return out;
        },
    };
    let defs = file.analysis.defs_at(byte);
    let ghost d = def_ref_views(defs@);
    let mut i: usize = 0;
    while i < defs.len()
        invariant
            i <= defs@.len(),
            d == def_ref_views(defs@),
            out@.len() == i,
            forall|j: int|
                0 <= j < i ==> (#[trigger] out@[j])@ == (
                    range_of(encode_utf8(file@.text), d[j].span),
                    d[j].name,
                ),
        decreases defs@.len() - i,
    {
        let def = defs[i];
        assert(d[i as int] == def@);
        out.push(
            InlineValue {
                range: span_to_range(&file.text, &def.span),
                variable_name: def.name.clone(),
            },
        );
        i = i + 1;
    }
    assert(inline_views(out@) =~= inline_at(file@, stopped));
    out
}

// ── Laws ────────────────────────────────────────────────────────────────────

/// A rename keeps the module of a reference: the name before the first joint and the
/// joint stay, and behind them stands the new name. So what the reference names is the
/// new member of the module that it named a member of.
pub proof fn rename_keeps_the_module(f: FileView, sym: Seq<char>, e: int, new_name: Seq<char>)
    requires
        0 <= e < sym.len(),
        is_joint(sym[e]),
        forall|k: int| 0 <= k < e ==> !is_joint(#[trigger] sym[k]),
    ensures
        ({
            let now = renamed_member(sym, new_name);
            &&& now == sym.take(e + 1) + new_name
            &&& now[e] == sym[e]
            &&& names_member(now, sym.take(e), first_part(new_name))
            &&& value_of(f.modules, sym.take(e)) matches Some(ex) ==> (value_of(
                ex.defs,
                first_part(new_name),
            ) matches Some(d) ==> member_of(f, now) == Some((ex, d)))
        }),
{
    part_end_is(sym, 0, e);
    let now = renamed_member(sym, new_name);
    assert forall|k: int| 0 <= k < e implies !is_joint(#[trigger] now[k]) by {
        assert(now[k] == sym[k]);
    }
    part_end_is(now, 0, e);
    assert(now.take(e) =~= sym.take(e));
    assert(now.skip(e + 1) =~= new_name);
}

proof fn part_end_is(s: Seq<char>, i: int, e: int)
    requires
        0 <= i <= e <= s.len(),
        forall|k: int| i <= k < e ==> !is_joint(#[trigger] s[k]),
        e < s.len() ==> is_joint(s[e]),
    ensures
        part_end(s, i) == e,
    decreases e - i,
{
    if i < e {
        part_end_is(s, i + 1, e);
    }
}

/// The edit is among those of the file.
pub open spec fn has_edit(
    all: Seq<(Seq<char>, Seq<EditView>)>,
    uri: Seq<char>,
    edit: EditView,
) -> bool {
    exists|i: int| 0 <= i < all.len() && (#[trigger] all[i]).0 == uri && all[i].1.contains(edit)
}

/// The symbol of a file names, through a module that the file binds, the member with
/// the given name of another file.
pub open spec fn names_across(
    g: FileView,
    sym: SymbolView,
    binding: Seq<char>,
    key: Option<(Seq<char>, Seq<char>)>,
) -> bool {
    &&& key matches Some((home, member))
    &&& uri_path(g.uri) != uri_path(home)
    &&& !sym.is_def
    &&& names_member(sym.name, binding, member)
    &&& exists|q: int|
        0 <= q < g.modules.len() && (#[trigger] g.modules[q]).0 == binding && uri_path(
            g.modules[q].1.uri,
        ) == uri_path(home)
}

/// Every use of a symbol in its file is given the new name, and so is every member by
/// which another open file names it; there, the binding of the module stays.
pub open spec fn renames_every_use(
    f: FileView,
    sym: SymbolView,
    new_name: Seq<char>,
    files: Map<Seq<char>, AnalyzedFile>,
    all: Seq<(Seq<char>, Seq<EditView>)>,
) -> bool {
    &&& forall|t: int|
        {
            &&& 0 <= t < f.analysis.syms.len()
            &&& target_byte(sym) matches Some(d) && is_use(#[trigger] f.analysis.syms[t], d)
        } ==> has_edit(
            all,
            f.uri,
            EditView {
                range: range_of(encode_utf8(f.text), f.analysis.syms[t].span),
                new_text: new_name,
            },
        )
    &&& forall|uri: Seq<char>, t: int, binding: Seq<char>|
        {
            &&& files.dom().contains(uri)
            &&& 0 <= t < files[uri]@.analysis.syms.len()
            &&& #[trigger] names_across(
                files[uri]@,
                files[uri]@.analysis.syms[t],
                binding,
                cross_key(f, sym),
            )
        } ==> has_edit(
            all,
            files[uri]@.uri,
            EditView {
                range: range_of(
                    encode_utf8(files[uri]@.text),
                    files[uri]@.analysis.syms[t].span,
                ),
                new_text: files[uri]@.analysis.syms[t].name.take(binding.len() as int + 1)
                    + new_name,
            },
        )
}

proof fn edits_stay(
    s: Seq<(Seq<char>, Seq<EditView>)>,
    uri: Seq<char>,
    edit: EditView,
    other: Seq<char>,
    kept: EditView,
)
    ensures
        has_edit(with_edit(s, uri, edit), uri, edit),
        has_edit(s, other, kept) ==> has_edit(with_edit(s, uri, edit), other, kept),
{
    let t = with_edit(s, uri, edit);
    index_of_first(s, uri);
    let i = index_of(s, uri);
    if i < s.len() {
        assert(t[i].1 == s[i].1.push(edit));
        assert(t[i].1[s[i].1.len() as int] == edit);
        assert(t[i].1.contains(edit));
    } else {
        assert(t[i].1[0] == edit);
        assert(t[i].1.contains(edit));
    }
    if has_edit(s, other, kept) {
        let k = choose|k: int|
            0 <= k < s.len() && (#[trigger] s[k]).0 == other && s[k].1.contains(kept);
        let j = choose|j: int| 0 <= j < s[k].1.len() && s[k].1[j] == kept;
        assert(t[k].0 == other);
        assert(t[k].1[j] == kept);
        assert(t[k].1.contains(kept));
    }
}

proof fn cross_edits_stay(
    s: Seq<(Seq<char>, Seq<EditView>)>,
    refs: Seq<CrossRefView>,
    new_name: Seq<char>,
    k: int,
    other: Seq<char>,
    kept: EditView,
)
    requires
        0 <= k <= refs.len(),
        has_edit(s, other, kept),
    ensures
        has_edit(with_cross_edits(s, refs, new_name, k), other, kept),
    decreases k,
{
    if k > 0 {
        cross_edits_stay(s, refs, new_name, k - 1, other, kept);
        let x = refs[k - 1];
        edits_stay(
            with_cross_edits(s, refs, new_name, k - 1),
            x.uri,
            EditView {
                range: range_of(encode_utf8(x.text), x.span),
                new_text: renamed_member(x.sym_name, new_name),
            },
            other,
            kept,
        );
    }
}

proof fn cross_edit_is_made(
    s: Seq<(Seq<char>, Seq<EditView>)>,
    refs: Seq<CrossRefView>,
    new_name: Seq<char>,
    k: int,
    i: int,
)
    requires
        0 <= i < k <= refs.len(),
    ensures
        has_edit(
            with_cross_edits(s, refs, new_name, k),
            refs[i].uri,
            EditView {
                range: range_of(encode_utf8(refs[i].text), refs[i].span),
                new_text: renamed_member(refs[i].sym_name, new_name),
            },
        ),
    decreases k,
{
    let edit = EditView {
        range: range_of(encode_utf8(refs[i].text), refs[i].span),
        new_text: renamed_member(refs[i].sym_name, new_name),
    };
    let x = refs[k - 1];
    let last = EditView {
        range: range_of(encode_utf8(x.text), x.span),
        new_text: renamed_member(x.sym_name, new_name),
    };
    edits_stay(with_cross_edits(s, refs, new_name, k - 1), x.uri, last, refs[i].uri, edit);
    if i < k - 1 {
        cross_edit_is_made(s, refs, new_name, k - 1, i);
    }
}

proof fn member_ref_is_found(f: FileView, binding: Seq<char>, name: Seq<char>, k: int, t: int)
    requires
        0 <= t < k <= f.analysis.syms.len(),
        !f.analysis.syms[t].is_def,
        names_member(f.analysis.syms[t].name, binding, name),
    ensures
        member_refs(f, binding, name, k).contains(ref_at(f, t)),
    decreases k,
{
    let before = member_refs(f, binding, name, k - 1);
    let all = member_refs(f, binding, name, k);
    if t < k - 1 {
        member_ref_is_found(f, binding, name, k - 1, t);
        let j = choose|j: int| 0 <= j < before.len() && before[j] == ref_at(f, t);
        assert(all[j] == ref_at(f, t));
    } else {
        assert(all[before.len() as int] == ref_at(f, t));
    }
}

/// The reference of a file that a symbol is.
spec fn ref_at(f: FileView, t: int) -> CrossRefView {
    CrossRefView {
        uri: f.uri,
        text: f.text,
        span: f.analysis.syms[t].span,
        sym_name: f.analysis.syms[t].name,
    }
}

proof fn ref_through_is_found(
    f: FileView,
    path: Option<Seq<char>>,
    name: Seq<char>,
    k: int,
    q: int,
    t: int,
)
    requires
        0 <= q < k <= f.modules.len(),
        uri_path(f.modules[q].1.uri) == path,
        0 <= t < f.analysis.syms.len(),
        !f.analysis.syms[t].is_def,
        names_member(f.analysis.syms[t].name, f.modules[q].0, name),
    ensures
        refs_through(f, path, name, k).contains(ref_at(f, t)),
    decreases k,
{
    let before = refs_through(f, path, name, k - 1);
    let all = refs_through(f, path, name, k);
    let n = f.analysis.syms.len() as int;
    if q < k - 1 {
        ref_through_is_found(f, path, name, k - 1, q, t);
        let j = choose|j: int| 0 <= j < before.len() && before[j] == ref_at(f, t);
        assert(all[j] == ref_at(f, t));
    } else {
        member_ref_is_found(f, f.modules[q].0, name, n, t);
        let own = member_refs(f, f.modules[q].0, name, n);
        let j = choose|j: int| 0 <= j < own.len() && own[j] == ref_at(f, t);
        assert(all[before.len() + j] == ref_at(f, t));
    }
}

proof fn ref_from_files_is_found(
    files: Map<Seq<char>, AnalyzedFile>,
    order: Seq<Seq<char>>,
    path: Option<Seq<char>>,
    name: Seq<char>,
    k: int,
    m: int,
    q: int,
    t: int,
)
    requires
        0 <= m < k <= order.len(),
        ({
            let f = files[order[m]]@;
            &&& uri_path(f.uri) != path
            &&& 0 <= q < f.modules.len()
            &&& uri_path(f.modules[q].1.uri) == path
            &&& 0 <= t < f.analysis.syms.len()
            &&& !f.analysis.syms[t].is_def
            &&& names_member(f.analysis.syms[t].name, f.modules[q].0, name)
        }),
    ensures
        refs_from_files(files, order, path, name, k).contains(ref_at(files[order[m]]@, t)),
    decreases k,
{
    let f = files[order[m]]@;
    let before = refs_from_files(files, order, path, name, k - 1);
    let all = refs_from_files(files, order, path, name, k);
    if m < k - 1 {
        ref_from_files_is_found(files, order, path, name, k - 1, m, q, t);
        let j = choose|j: int| 0 <= j < before.len() && before[j] == ref_at(f, t);
        assert(all[j] == ref_at(f, t));
    } else {
        ref_through_is_found(f, path, name, f.modules.len() as int, q, t);
        let own = refs_from_file(f, path, name);
        let j = choose|j: int| 0 <= j < own.len() && own[j] == ref_at(f, t);
        assert(all[before.len() + j] == ref_at(f, t));
    }
}

proof fn use_is_found(syms: Seq<SymbolView>, target: u32, k: int, t: int)
    requires
        0 <= t < k <= syms.len(),
        is_use(syms[t], target),
    ensures
        uses_of(syms, target, k).contains((syms[t].span, syms[t].is_def)),
    decreases k,
{
    let before = uses_of(syms, target, k - 1);
    let all = uses_of(syms, target, k);
    if t < k - 1 {
        use_is_found(syms, target, k - 1, t);
        let j = choose|j: int|
            0 <= j < before.len() && before[j] == (syms[t].span, syms[t].is_def);
        assert(all[j] == before[j]);
    } else {
        assert(all[before.len() as int] == (syms[t].span, syms[t].is_def));
    }
}

/// The reference by which another file names a symbol is found.
proof fn cross_ref_is_found(
    key: Option<(Seq<char>, Seq<char>)>,
    files: Map<Seq<char>, AnalyzedFile>,
    order: Seq<Seq<char>>,
    uri: Seq<char>,
    t: int,
    binding: Seq<char>,
)
    requires
        lists(order, files.dom()),
        files.dom().contains(uri),
        0 <= t < files[uri]@.analysis.syms.len(),
        names_across(files[uri]@, files[uri]@.analysis.syms[t], binding, key),
    ensures
        key_refs(key, files, order).contains(ref_at(files[uri]@, t)),
{
    let (home, member) = key->0;
    let g = files[uri]@;
    let q = choose|q: int|
        0 <= q < g.modules.len() && (#[trigger] g.modules[q]).0 == binding && uri_path(
            g.modules[q].1.uri,
        ) == uri_path(home);
    assert(order.contains(uri));
    let m = choose|m: int| 0 <= m < order.len() && order[m] == uri;
    ref_from_files_is_found(
        files,
        order,
        uri_path(home),
        member,
        order.len() as int,
        m,
        q,
        t,
    );
}

proof fn first_joint_behind(name: Seq<char>, binding: Seq<char>, member: Seq<char>)
    requires
        names_member(name, binding, member),
    ensures
        part_end(name, 0) == binding.len(),
        binding.len() < name.len(),
{
    part_end_skips(name, 0);
    assert(name.take(part_end(name, 0)).len() == part_end(name, 0));
}

/// A rename reaches every use of a symbol, in its file and in the open files that
/// require it.
pub proof fn rename_reaches_every_use(
    f: FileView,
    sym: SymbolView,
    new_name: Seq<char>,
    files: Map<Seq<char>, AnalyzedFile>,
    order: Seq<Seq<char>>,
)
    requires
        lists(order, files.dom()),
    ensures
        ({
            let refs = key_refs(cross_key(f, sym), files, order);
            renames_every_use(
                f,
                sym,
                new_name,
                files,
                with_cross_edits(
                    seq![(f.uri, use_edits(f, uses_in_file(f, target_byte(sym)), new_name))],
                    refs,
                    new_name,
                    refs.len() as int,
                ),
            )
        }),
{
    let refs = key_refs(cross_key(f, sym), files, order);
    let uses = uses_in_file(f, target_byte(sym));
    let own = use_edits(f, uses, new_name);
    let first = seq![(f.uri, own)];
    let all = with_cross_edits(first, refs, new_name, refs.len() as int);
    assert forall|t: int|
        {
            &&& 0 <= t < f.analysis.syms.len()
            &&& target_byte(sym) matches Some(d) && is_use(#[trigger] f.analysis.syms[t], d)
        } implies has_edit(
        all,
        f.uri,
        EditView {
            range: range_of(encode_utf8(f.text), f.analysis.syms[t].span),
            new_text: new_name,
        },
    ) by {
        let syms = f.analysis.syms;
        use_is_found(syms, target_byte(sym)->0, syms.len() as int, t);
        let j = choose|j: int| 0 <= j < uses.len() && uses[j] == (syms[t].span, syms[t].is_def);
        let edit = own[j];
        assert(own.contains(edit));
        assert(first[0].0 == f.uri && first[0].1.contains(edit));
        assert(has_edit(first, f.uri, edit));
        cross_edits_stay(first, refs, new_name, refs.len() as int, f.uri, edit);
    }
    assert forall|uri: Seq<char>, t: int, binding: Seq<char>|
        {
            &&& files.dom().contains(uri)
            &&& 0 <= t < files[uri]@.analysis.syms.len()
            &&& #[trigger] names_across(
                files[uri]@,
                files[uri]@.analysis.syms[t],
                binding,
                cross_key(f, sym),
            )
        } implies has_edit(
        all,
        files[uri]@.uri,
        EditView {
            range: range_of(encode_utf8(files[uri]@.text), files[uri]@.analysis.syms[t].span),
            new_text: files[uri]@.analysis.syms[t].name.take(binding.len() as int + 1) + new_name,
        },
    ) by {
        let g = files[uri]@;
        cross_ref_is_found(cross_key(f, sym), files, order, uri, t, binding);
        let i = choose|i: int| 0 <= i < refs.len() && refs[i] == ref_at(g, t);
        cross_edit_is_made(first, refs, new_name, refs.len() as int, i);
        first_joint_behind(g.analysis.syms[t].name, binding, (cross_key(f, sym)->0).1);
    }
}

/// Every use of a symbol in its file is among the places, and so is every member by
/// which another open file names it.
pub open spec fn places_every_use(
    f: FileView,
    sym: SymbolView,
    files: Map<Seq<char>, AnalyzedFile>,
    all: Seq<LocationView>,
) -> bool {
    &&& forall|t: int|
        {
            &&& 0 <= t < f.analysis.syms.len()
            &&& target_byte(sym) matches Some(d) && is_use(#[trigger] f.analysis.syms[t], d)
        } ==> all.contains(
            LocationView {
                uri: f.uri,
                range: range_of(encode_utf8(f.text), f.analysis.syms[t].span),
            },
        )
    &&& forall|uri: Seq<char>, t: int, binding: Seq<char>|
        {
            &&& files.dom().contains(uri)
            &&& 0 <= t < files[uri]@.analysis.syms.len()
            &&& #[trigger] names_across(
                files[uri]@,
                files[uri]@.analysis.syms[t],
                binding,
                cross_key(f, sym),
            )
        } ==> all.contains(
            LocationView {
                uri: files[uri]@.uri,
                range: range_of(
                    encode_utf8(files[uri]@.text),
                    files[uri]@.analysis.syms[t].span,
                ),
            },
        )
}

proof fn inserting_keeps_places(s: Seq<LocationView>, x: LocationView)
    ensures
        insert_location(s, x).contains(x),
        forall|y: LocationView| s.contains(y) ==> #[trigger] insert_location(s, x).contains(y),
    decreases s.len(),
{
    let r = insert_location(s, x);
    if s.len() > 0 && stands_before(x, s.last()) {
        let t = s.drop_last();
        inserting_keeps_places(t, x);
        let u = insert_location(t, x);
        let i = choose|i: int| 0 <= i < u.len() && u[i] == x;
        assert(r[i] == x);
        assert forall|y: LocationView| s.contains(y) implies #[trigger] r.contains(y) by {
            let j = choose|j: int| 0 <= j < s.len() && s[j] == y;
            if j < t.len() {
                assert(t[j] == y);
                assert(t.contains(y));
                assert(u.contains(y));
                let k = choose|k: int| 0 <= k < u.len() && u[k] == y;
                assert(r[k] == y);
            } else {
                assert(r[u.len() as int] == y);
            }
        }
    } else {
        assert(r[s.len() as int] == x);
        assert forall|y: LocationView| s.contains(y) implies #[trigger] r.contains(y) by {
            let j = choose|j: int| 0 <= j < s.len() && s[j] == y;
            assert(r[j] == y);
        }
    }
}

proof fn sorting_keeps_places(s: Seq<LocationView>, x: LocationView)
    requires
        s.contains(x),
    ensures
        sorted_locations(s).contains(x),
    decreases s.len(),
{
    let t = s.drop_last();
    inserting_keeps_places(sorted_locations(t), s.last());
    let i = choose|i: int| 0 <= i < s.len() && s[i] == x;
    if i < t.len() {
        assert(t[i] == x);
        assert(t.contains(x));
        sorting_keeps_places(t, x);
    }
}

/// The references to a symbol hold every use of it, in its file and in the open files
/// that require it.
pub proof fn references_hold_every_use(
    f: FileView,
    sym: SymbolView,
    files: Map<Seq<char>, AnalyzedFile>,
    order: Seq<Seq<char>>,
)
    requires
        lists(order, files.dom()),
    ensures
        places_every_use(
            f,
            sym,
            files,
            all_references(
                use_locations(f, uses_in_file(f, target_byte(sym))),
                cross_key(f, sym),
                files,
                order,
            ),
        ),
{
    let key = cross_key(f, sym);
    let refs = key_refs(key, files, order);
    let uses = uses_in_file(f, target_byte(sym));
    let own = use_locations(f, uses);
    let cross = cross_locations(refs);
    let all = own + cross;
    assert forall|t: int|
        {
            &&& 0 <= t < f.analysis.syms.len()
            &&& target_byte(sym) matches Some(d) && is_use(#[trigger] f.analysis.syms[t], d)
        } implies sorted_locations(all).contains(
        LocationView { uri: f.uri, range: range_of(encode_utf8(f.text), f.analysis.syms[t].span) },
    ) by {
        let syms = f.analysis.syms;
        use_is_found(syms, target_byte(sym)->0, syms.len() as int, t);
        let j = choose|j: int| 0 <= j < uses.len() && uses[j] == (syms[t].span, syms[t].is_def);
        assert(all[j] == own[j]);
        assert(all.contains(own[j]));
        sorting_keeps_places(all, own[j]);
    }
    assert forall|uri: Seq<char>, t: int, binding: Seq<char>|
        {
            &&& files.dom().contains(uri)
            &&& 0 <= t < files[uri]@.analysis.syms.len()
            &&& #[trigger] names_across(
                files[uri]@,
                files[uri]@.analysis.syms[t],
                binding,
                key,
            )
        } implies sorted_locations(all).contains(
        LocationView {
            uri: files[uri]@.uri,
            range: range_of(encode_utf8(files[uri]@.text), files[uri]@.analysis.syms[t].span),
        },
    ) by {
        let g = files[uri]@;
        cross_ref_is_found(key, files, order, uri, t, binding);
        let i = choose|i: int| 0 <= i < refs.len() && refs[i] == ref_at(g, t);
        assert(all[own.len() + i] == cross[i]);
        assert(all.contains(cross[i]));
        sorting_keeps_places(all, cross[i]);
    }
}

} // verus!
