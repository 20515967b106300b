//! Completion.
use vstd::prelude::*;
use vstd::string::*;
use vstd::utf8::*;

use crate::analyzer::{
    covers, def_ref_views, offer_views, opt_text, scopes_nest, visible_defs, DefKind,
    DefinitionInfo, DefinitionView,
};
use crate::calls::{byte_at_position, byte_of};
use crate::docs::{BuiltinKind, BuiltinSet, BuiltinView};
use crate::lexer::Span;
use crate::names::NameMap;
use crate::navigation::{GlobalDoc, GlobalDocView};
use crate::outline::{definition_detail, detail_of};
use crate::strings::{
    before_joint, begins, chars_of, comes_before, concat, first_part, is_joint, order_is_strict,
    part_end_skips, same, slice, starts_with, text_before, text_between, texts,
};
use crate::text::{char_start, floor_to_char, Position};
use crate::workspace::{dup_opt_text, AnalyzedFile, ExportsView, FileView, ModuleExports};

verus! {

#[derive(Debug, Clone, Copy, PartialEq, Eq, Structural)]
pub enum CompletionItemKind {
    Function,
    Variable,
    Keyword,
    Module,
    Field,
}

/// A name that may be typed here.
#[derive(Debug)]
pub struct CompletionItem {
    pub label: String,
    /// What to insert, where it is not the label.
    pub insert_text: Option<String>,
    pub kind: CompletionItemKind,
    pub detail: Option<String>,
    pub documentation: Option<String>,
}

#[verifier::ext_equal]
pub ghost struct CompletionView {
    pub label: Seq<char>,
    pub insert_text: Option<Seq<char>>,
    pub kind: CompletionItemKind,
    pub detail: Option<Seq<char>>,
    pub documentation: Option<Seq<char>>,
}

impl View for CompletionItem {
    type V = CompletionView;

    open spec fn view(&self) -> CompletionView {
        CompletionView {
            label: self.label@,
            insert_text: opt_text(self.insert_text),
            kind: self.kind,
            detail: opt_text(self.detail),
            documentation: opt_text(self.documentation),
        }
    }
}

pub open spec fn item_views(s: Seq<CompletionItem>) -> Seq<CompletionView> {
    Seq::new(s.len(), |i: int| s[i]@)
}

// ── The prefix before the cursor ────────────────────────────────────────────

/// The characters that a multisym may hold before the cursor.
pub open spec fn is_name_char(c: char) -> bool {
    ||| 'a' <= c <= 'z' || 'A' <= c <= 'Z' || '0' <= c <= '9'
    ||| c == '-' || c == '_' || c == '?' || c == '!' || c == '.' || c == ':'
}

/// Where the run of name characters at the end of a text starts.
pub open spec fn name_start(s: Seq<char>) -> int
    decreases s.len(),
{
    if s.len() > 0 && is_name_char(s.last()) {
        name_start(s.drop_last())
    } else {
        s.len() as int
    }
}

/// The index behind the last joint of a text; 0 where it has none.
pub open spec fn behind_last_joint(s: Seq<char>) -> int
    decreases s.len(),
{
    if s.len() == 0 {
        0
    } else if is_joint(s.last()) {
        s.len() as int
    } else {
        behind_last_joint(s.drop_last())
    }
}

/// The namespace that the text before the cursor ends in: the run of name
/// characters at its end, up to its last joint.
pub open spec fn namespace_before(s: Seq<char>) -> Option<Seq<char>> {
    let token = s.skip(name_start(s));
    let e = behind_last_joint(token);
    if e > 0 {
        Some(token.take(e))
    } else {
        None
    }
}

/// The text before a byte.
pub open spec fn before_byte(text: Seq<char>, byte: int) -> Seq<char> {
    let b = encode_utf8(text);
    crate::text::text_before(b, char_start(b, byte))
}

fn name_char(c: char) -> (r: bool)
    ensures
        r == is_name_char(c),
{
    (c >= 'a' && c <= 'z') || (c >= 'A' && c <= 'Z') || (c >= '0' && c <= '9') || c == '-' || c
        == '_' || c == '?' || c == '!' || c == '.' || c == ':'
}

/// Extract a multisym namespace prefix from the text immediately before `byte`.
/// e.g. if text before cursor is `Lib.module.` → returns `Some("Lib.module.")`
pub fn multisym_prefix_at(text: &str, byte: usize) -> (r: Option<String>)
    ensures
        opt_text(r) == namespace_before(before_byte(text@, byte as int)),
{
    let at = floor_to_char(text, byte);
    proof {
        encode_utf8_valid_utf8(text@);
        is_char_boundary_start_end_of_seq(text.spec_bytes());
    }
    let chars = chars_of(slice(text, 0, at));
    let ghost s = before_byte(text@, byte as int);
    let n = chars.len();
    let mut i: usize = n;
    assert(s.take(n as int) =~= s);
    while i > 0 && name_char(chars[i - 1])
        invariant
            i <= n,
            n == chars@.len(),
            chars@ == s,
            name_start(s.take(i as int)) == name_start(s),
        decreases i,
    {
        assert(s.take(i as int).drop_last() =~= s.take(i - 1));
        i = i - 1;
    }
    let ghost token = s.skip(i as int);
    let mut e: usize = n;
    assert(token.take(n - i) =~= token);
    while e > i && !(chars[e - 1] == '.' || chars[e - 1] == ':')
        invariant
            i <= e <= n,
            n == chars@.len(),
            chars@ == s,
            token == s.skip(i as int),
            behind_last_joint(token.take(e - i)) == behind_last_joint(token),
        decreases e,
    {
        assert(token.take(e - i).drop_last() =~= token.take(e - 1 - i));
        e = e - 1;
    }
    if e > i {
        let r = text_between(&chars, i, e);
        assert(r@ =~= token.take(e - i));
        Some(r)
    } else {
        None
    }
}

// ── Items ───────────────────────────────────────────────────────────────────

pub open spec fn has_label(s: Seq<CompletionView>, label: Seq<char>) -> bool {
    exists|i: int| 0 <= i < s.len() && (#[trigger] s[i]).label == label
}

/// The items with one more; an item whose label is there already is left out.
pub open spec fn with_item(s: Seq<CompletionView>, x: CompletionView) -> Seq<CompletionView> {
    if has_label(s, x.label) {
        s
    } else {
        s.push(x)
    }
}

fn add_item(out: &mut Vec<CompletionItem>, x: CompletionItem)
    ensures
        item_views(final(out)@) == with_item(item_views(old(out)@), x@),
{
    let ghost s = item_views(out@);
    let mut i: usize = 0;
    while i < out.len()
        invariant
            i <= out@.len(),
            out@ == old(out)@,
            s == item_views(out@),
            forall|j: int| 0 <= j < i ==> (#[trigger] s[j]).label != x@.label,
        decreases out@.len() - i,
    {
        assert(s[i as int] == out@[i as int]@);
        if same(&out[i].label, &x.label) {
            assert(s[i as int].label == x@.label);
            return ;
        }
        i = i + 1;
    }
    out.push(x);
    assert(item_views(out@) =~= s.push(x@));
}

pub open spec fn callable(kind: DefKind) -> CompletionItemKind {
    if kind == DefKind::Fn || kind == DefKind::Macro {
        CompletionItemKind::Function
    } else {
        CompletionItemKind::Variable
    }
}

fn item_kind(kind: DefKind) -> (r: CompletionItemKind)
    ensures
        r == callable(kind),
{
    if kind == DefKind::Fn || kind == DefKind::Macro {
        CompletionItemKind::Function
    } else {
        CompletionItemKind::Variable
    }
}

/// The item of a definition that can be seen.
pub open spec fn local_item(d: DefinitionView) -> CompletionView {
    CompletionView {
        label: d.name,
        insert_text: None,
        kind: callable(d.kind),
        detail: detail_of(d),
        documentation: d.doc,
    }
}

pub open spec fn with_locals(s: Seq<CompletionView>, defs: Seq<DefinitionView>, k: int) -> Seq<
    CompletionView,
>
    decreases k,
{
    if 0 < k <= defs.len() {
        with_item(with_locals(s, defs, k - 1), local_item(defs[k - 1]))
    } else {
        s
    }
}

pub open spec fn builtin_item(name: Seq<char>, d: BuiltinView) -> CompletionView {
    CompletionView {
        label: name,
        insert_text: None,
        kind: match d.kind {
            BuiltinKind::Function => CompletionItemKind::Function,
            BuiltinKind::Macro => CompletionItemKind::Keyword,
            BuiltinKind::SpecialForm => CompletionItemKind::Keyword,
            BuiltinKind::Value => CompletionItemKind::Module,
        },
        detail: Some(d.signature),
        documentation: Some(d.doc),
    }
}

pub open spec fn with_builtins(
    s: Seq<CompletionView>,
    builtins: Seq<(Seq<char>, BuiltinView)>,
    k: int,
) -> Seq<CompletionView>
    decreases k,
{
    if 0 < k <= builtins.len() {
        with_item(
            with_builtins(s, builtins, k - 1),
            builtin_item(builtins[k - 1].0, builtins[k - 1].1),
        )
    } else {
        s
    }
}

/// The item of a documented global. Behind a namespace, only what is missing of
/// the name is inserted.
pub open spec fn global_item(name: Seq<char>, d: GlobalDocView, prefix: Option<Seq<char>>) -> CompletionView {
    CompletionView {
        label: name,
        insert_text: match prefix {
            Some(p) => Some(name.skip(p.len() as int)),
            None => None,
        },
        kind: CompletionItemKind::Function,
        detail: Some(d.signature),
        documentation: d.doc,
    }
}

/// Documented globals; behind a namespace, only those inside it.
pub open spec fn with_globals(
    s: Seq<CompletionView>,
    docs: Seq<(Seq<char>, GlobalDocView)>,
    prefix: Option<Seq<char>>,
    k: int,
) -> Seq<CompletionView>
    decreases k,
{
    if 0 < k <= docs.len() {
        let before = with_globals(s, docs, prefix, k - 1);
        let (name, d) = docs[k - 1];
        if prefix is Some && !begins(name, prefix->0) {
            before
        } else {
            with_item(before, global_item(name, d, prefix))
        }
    } else {
        s
    }
}

pub open spec fn export_item(binding: Seq<char>, name: Seq<char>, d: DefinitionView) -> CompletionView {
    CompletionView {
        label: binding + "."@ + name,
        insert_text: Some(name),
        kind: callable(d.kind),
        detail: detail_of(d),
        documentation: d.doc,
    }
}

/// The first `k` exports of a module, behind the name it is bound to.
pub open spec fn with_exports(
    s: Seq<CompletionView>,
    binding: Seq<char>,
    defs: Seq<(Seq<char>, DefinitionView)>,
    k: int,
) -> Seq<CompletionView>
    decreases k,
{
    if 0 < k <= defs.len() {
        with_item(
            with_exports(s, binding, defs, k - 1),
            export_item(binding, defs[k - 1].0, defs[k - 1].1),
        )
    } else {
        s
    }
}

/// The exports of those of the first `k` modules whose names open the namespace.
pub open spec fn with_modules(
    s: Seq<CompletionView>,
    modules: Seq<(Seq<char>, ExportsView)>,
    prefix: Seq<char>,
    k: int,
) -> Seq<CompletionView>
    decreases k,
{
    if 0 < k <= modules.len() {
        let before = with_modules(s, modules, prefix, k - 1);
        let (binding, ex) = modules[k - 1];
        if begins(prefix, binding + "."@) {
            with_exports(before, binding, ex.defs, ex.defs.len() as int)
        } else {
            before
        }
    } else {
        s
    }
}

pub open spec fn field_item(table: Seq<char>, field: Seq<char>) -> CompletionView {
    CompletionView {
        label: table + "."@ + field,
        insert_text: Some(field),
        kind: CompletionItemKind::Field,
        detail: None,
        documentation: None,
    }
}

pub open spec fn with_fields(
    s: Seq<CompletionView>,
    table: Seq<char>,
    fields: Seq<Seq<char>>,
    k: int,
) -> Seq<CompletionView>
    decreases k,
{
    if 0 < k <= fields.len() {
        with_item(with_fields(s, table, fields, k - 1), field_item(table, fields[k - 1]))
    } else {
        s
    }
}

/// The first definition with a name, from index `i` on.
pub open spec fn first_named(defs: Seq<DefinitionView>, name: Seq<char>, i: int) -> Option<
    DefinitionView,
>
    decreases defs.len() - i,
{
    if !(0 <= i < defs.len()) {
        None
    } else if defs[i].name == name {
        Some(defs[i])
    } else {
        first_named(defs, name, i + 1)
    }
}

/// The fields of the table that the root of the namespace names.
pub open spec fn with_table_fields(
    s: Seq<CompletionView>,
    defs: Seq<DefinitionView>,
    prefix: Seq<char>,
) -> Seq<CompletionView> {
    let table = first_part(prefix);
    if table.len() == 0 {
        s
    } else {
        match first_named(defs, table, 0) {
            Some(d) => match d.table_fields {
                Some(fields) => with_fields(s, table, fields, fields.len() as int),
                None => s,
            },
            None => s,
        }
    }
}

pub open spec fn offered_item(text: Seq<char>) -> CompletionView {
    CompletionView {
        label: text,
        insert_text: None,
        kind: CompletionItemKind::Keyword,
        detail: None,
        documentation: None,
    }
}

/// The items with those that the first `k` offers of hooks add around a byte.
pub open spec fn with_offers(
    s: Seq<CompletionView>,
    offers: Seq<(Span, Seq<char>)>,
    byte: u32,
    k: int,
) -> Seq<CompletionView>
    decreases k,
{
    if 0 < k <= offers.len() {
        let before = with_offers(s, offers, byte, k - 1);
        if covers(offers[k - 1].0, byte) {
            with_item(before, offered_item(offers[k - 1].1))
        } else {
            before
        }
    } else {
        s
    }
}

/// Puts an item behind all those that it does not come before.
pub open spec fn insert_item(s: Seq<CompletionView>, x: CompletionView) -> Seq<CompletionView>
    decreases s.len(),
{
    if s.len() > 0 && text_before(x.label, s.last().label) {
        insert_item(s.drop_last(), x).push(s.last())
    } else {
        s.push(x)
    }
}

/// The items by their labels.
pub open spec fn by_label(s: Seq<CompletionView>) -> Seq<CompletionView>
    decreases s.len(),
{
    if s.len() == 0 {
        s
    } else {
        insert_item(by_label(s.drop_last()), s.last())
    }
}

/// The byte that completion is asked for; a position that is out of bounds counts
/// as the start of the text.
pub open spec fn completion_byte(f: FileView, pos: Position) -> u32 {
    match byte_of(f.text, pos) {
        Some(byte) => byte,
        None => 0,
    }
}

/// All completions at a position: what can be seen, what hooks offer, builtins,
/// documented globals, and behind a namespace the exports of modules and the fields
/// of tables; each label once, by label.
pub open spec fn completions_at(
    f: FileView,
    builtins: Seq<(Seq<char>, BuiltinView)>,
    docs: Seq<(Seq<char>, GlobalDocView)>,
    pos: Position,
) -> Seq<CompletionView> {
    let byte = completion_byte(f, pos);
    let prefix = namespace_before(before_byte(f.text, byte as int));
    let defs = visible_defs(f.analysis, byte);
    let offers = f.analysis.offers;
    let l = with_locals(Seq::empty(), defs, defs.len() as int);
    let a = with_offers(l, offers, byte, offers.len() as int);
    let b = with_builtins(a, builtins, builtins.len() as int);
    let c = with_globals(b, docs, prefix, docs.len() as int);
    by_label(
        match prefix {
            Some(p) => with_table_fields(
                with_modules(c, f.modules, p, f.modules.len() as int),
                defs,
                p,
            ),
            None => c,
        },
    )
}

fn push_locals(out: &mut Vec<CompletionItem>, defs: &Vec<&DefinitionInfo>)
    ensures
        item_views(final(out)@) == with_locals(
            item_views(old(out)@),
            def_ref_views(defs@),
            defs@.len() as int,
        ),
{
    let ghost s = item_views(out@);
    let ghost d = def_ref_views(defs@);
    let mut k: usize = 0;
    while k < defs.len()
        invariant
            k <= defs@.len(),
            d == def_ref_views(defs@),
            item_views(out@) == with_locals(s, d, k as int),
        decreases defs@.len() - k,
    {
        let def = defs[k];
        assert(d[k as int] == def@);
        let x = CompletionItem {
            label: def.name.clone(),
            insert_text: None,
            kind: item_kind(def.kind),
            detail: definition_detail(def),
            documentation: dup_opt_text(&def.doc),
        };
        assert(x@ == local_item(def@));
        add_item(out, x);
        k = k + 1;
    }
}

fn push_offers(out: &mut Vec<CompletionItem>, offers: &Vec<(Span, String)>, byte: u32)
    ensures
        item_views(final(out)@) == with_offers(
            item_views(old(out)@),
            offer_views(offers@),
            byte,
            offers@.len() as int,
        ),
{
    let ghost s = item_views(out@);
    let ghost o = offer_views(offers@);
    let mut k: usize = 0;
    while k < offers.len()
        invariant
            k <= offers@.len(),
            o == offer_views(offers@),
            item_views(out@) == with_offers(s, o, byte, k as int),
        decreases offers@.len() - k,
    {
        let offer = &offers[k];
        assert(o[k as int] == (offer.0, offer.1@));
        if offer.0.start <= byte && byte <= offer.0.end {
            let x = CompletionItem {
                label: offer.1.clone(),
                insert_text: None,
                kind: CompletionItemKind::Keyword,
                detail: None,
                documentation: None,
            };
            assert(x@ == offered_item(o[k as int].1));
            add_item(out, x);
        }
        k = k + 1;
    }
}

fn push_builtins(out: &mut Vec<CompletionItem>, builtins: &BuiltinSet)
    ensures
        item_views(final(out)@) == with_builtins(
            item_views(old(out)@),
            builtins@,
            builtins@.len() as int,
        ),
{
    let ghost s = item_views(out@);
    let all = builtins.iter();
    let mut k: usize = 0;
    while k < all.len()
        invariant
            k <= all@.len(),
            all@.len() == builtins@.len(),
            forall|i: int|
                0 <= i < all@.len() ==> (#[trigger] all@[i]).0@ == builtins@[i].0 && all@[i].1@
                    == builtins@[i].1,
            item_views(out@) == with_builtins(s, builtins@, k as int),
        decreases all@.len() - k,
    {
        let (name, doc) = all[k];
        assert(all@[k as int].0@ == builtins@[k as int].0);
        let x = CompletionItem {
            label: name.to_owned(),
            insert_text: None,
            kind: match doc.kind {
                BuiltinKind::Function => CompletionItemKind::Function,
                BuiltinKind::Macro => CompletionItemKind::Keyword,
                BuiltinKind::SpecialForm => CompletionItemKind::Keyword,
                BuiltinKind::Value => CompletionItemKind::Module,
            },
            detail: Some(doc.signature.clone()),
            documentation: Some(doc.doc.clone()),
        };
        assert(x@ == builtin_item(name@, doc@));
        add_item(out, x);
        k = k + 1;
    }
}

fn push_globals(out: &mut Vec<CompletionItem>, docs: &NameMap<GlobalDoc>, prefix: &Option<String>)
    ensures
        item_views(final(out)@) == with_globals(
            item_views(old(out)@),
            docs@,
            opt_text(*prefix),
            docs@.len() as int,
        ),
{
    let ghost s = item_views(out@);
    let ghost p = opt_text(*prefix);
    let mut k: usize = 0;
    while k < docs.len()
        invariant
            k <= docs@.len(),
            p == opt_text(*prefix),
            item_views(out@) == with_globals(s, docs@, p, k as int),
        decreases docs@.len() - k,
    {
        let name = docs.name_at(k);
        let doc = docs.value_at(k);
        let inside = match prefix {
            Some(pfx) => starts_with(name, pfx),
            None => true,
        };
        if inside {
            let insert_text = match prefix {
                Some(pfx) => {
                    let chars = chars_of(name);
                    let skip = chars_of(pfx).len();
                    let t = text_between(&chars, skip, chars.len());
                    assert(t@ =~= name@.skip(pfx@.len() as int));
                    Some(t)
                },
                None => None,
            };
            let x = CompletionItem {
                label: name.to_owned(),
                insert_text,
                kind: CompletionItemKind::Function,
                detail: Some(doc.signature.clone()),
                documentation: dup_opt_text(&doc.doc),
            };
            assert(x@ == global_item(name@, doc@, p));
            add_item(out, x);
        }
        k = k + 1;
    }
}

/// `outer.inner`
fn dotted(outer: &str, inner: &str) -> (r: String)
    ensures
        r@ == outer@ + "."@ + inner@,
{
    let mut out = outer.to_owned();
    out.append(".");
    out.append(inner);
    out
}

fn push_exports(out: &mut Vec<CompletionItem>, binding: &str, exports: &ModuleExports)
    ensures
        item_views(final(out)@) == with_exports(
            item_views(old(out)@),
            binding@,
            exports@.defs,
            exports@.defs.len() as int,
        ),
{
    let ghost s = item_views(out@);
    let ghost defs = exports@.defs;
    let mut k: usize = 0;
    while k < exports.defs.len()
        invariant
            k <= defs.len(),
            defs == exports@.defs,
            item_views(out@) == with_exports(s, binding@, defs, k as int),
        decreases defs.len() - k,
    {
        let name = exports.defs.name_at(k);
        let def = exports.defs.value_at(k);
        let x = CompletionItem {
            label: dotted(binding, name),
            insert_text: Some(name.to_owned()),
            kind: item_kind(def.kind),
            detail: definition_detail(def),
            documentation: dup_opt_text(&def.doc),
        };
        assert(x@ == export_item(binding@, name@, def@));
        add_item(out, x);
        k = k + 1;
    }
}

fn push_modules(out: &mut Vec<CompletionItem>, file: &AnalyzedFile, prefix: &str)
    ensures
        item_views(final(out)@) == with_modules(
            item_views(old(out)@),
            file@.modules,
            prefix@,
            file@.modules.len() as int,
        ),
{
    let ghost s = item_views(out@);
    let ghost modules = file@.modules;
    let mut k: usize = 0;
    while k < file.modules.len()
        invariant
            k <= modules.len(),
            modules == file@.modules,
            item_views(out@) == with_modules(s, modules, prefix@, k as int),
        decreases modules.len() - k,
    {
        let binding = file.modules.name_at(k);
        let exports = file.modules.value_at(k);
        if starts_with(prefix, &concat(binding, ".")) {
            push_exports(out, binding, exports);
        }
        k = k + 1;
    }
}

fn push_fields(out: &mut Vec<CompletionItem>, defs: &Vec<&DefinitionInfo>, prefix: &str)
    ensures
        item_views(final(out)@) == with_table_fields(
            item_views(old(out)@),
            def_ref_views(defs@),
            prefix@,
        ),
{
    let ghost s = item_views(out@);
    let ghost d = def_ref_views(defs@);
    let table = before_joint(prefix);
    if chars_of(&table).len() == 0 {
        return ;
    }
    let mut i: usize = 0;
    while i < defs.len()
        invariant
            i <= defs@.len(),
            d == def_ref_views(defs@),
            table@ == first_part(prefix@),
            table@.len() > 0,
            s == item_views(old(out)@),
            out@ == old(out)@,
            first_named(d, table@, i as int) == first_named(d, table@, 0),
        decreases defs@.len() - i,
    {
        let def = defs[i];
        assert(d[i as int] == def@);
        if same(&def.name, &table) {
            if let Some(fields) = &def.table_fields {
                let ghost f = texts(fields@);
                let mut k: usize = 0;
                while k < fields.len()
                    invariant
                        k <= fields@.len(),
                        f == texts(fields@),
                        item_views(out@) == with_fields(s, table@, f, k as int),
                    decreases fields@.len() - k,
                {
                    assert(f[k as int] == fields@[k as int]@);
                    let x = CompletionItem {
                        label: dotted(&table, &fields[k]),
                        insert_text: Some(fields[k].clone()),
                        kind: CompletionItemKind::Field,
                        detail: None,
                        documentation: None,
                    };
                    assert(x@ == field_item(table@, f[k as int]));
                    add_item(out, x);
                    k = k + 1;
                }
            }
            return ;
        }
        i = i + 1;
    }
}

proof fn insert_item_at(s: Seq<CompletionView>, x: CompletionView, k: int)
    requires
        0 <= k <= s.len(),
        forall|i: int| k <= i < s.len() ==> text_before(x.label, (#[trigger] s[i]).label),
        k > 0 ==> !text_before(x.label, s[k - 1].label),
    ensures
        insert_item(s, x) == s.insert(k, x),
    decreases s.len(),
{
    if k < s.len() {
        let t = s.drop_last();
        assert(text_before(x.label, s[s.len() - 1].label));
        insert_item_at(t, x, k);
        assert(t.insert(k, x).push(s.last()) =~= s.insert(k, x));
    } else {
        assert(s.push(x) =~= s.insert(k, x));
    }
}

fn sort_items(items: Vec<CompletionItem>) -> (r: Vec<CompletionItem>)
    ensures
        item_views(r@) == by_label(item_views(items@)),
{
    let ghost all = item_views(items@);
    let n = items.len();
    let mut rest = items;
    let mut out: Vec<CompletionItem> = Vec::new();
    let mut i: usize = 0;
    assert(item_views(out@) =~= by_label(all.take(0))) by {
        assert(all.take(0) =~= Seq::<CompletionView>::empty());
    }
    assert(item_views(rest@) =~= all.skip(0));
    while i < n
        invariant
            i <= n,
            n == all.len(),
            item_views(rest@) == all.skip(i as int),
            item_views(out@) == by_label(all.take(i as int)),
        decreases n - i,
    {
        let ghost r0 = item_views(rest@);
        assert(rest@.len() == r0.len());
        let ghost rest0 = rest@;
        let x = rest.remove(0);
        assert(x@ == r0[0]);
        assert(rest@ =~= rest0.skip(1));
        assert(item_views(rest@) =~= r0.skip(1));
        assert(r0.skip(1) =~= all.skip(i + 1));
        let ghost s = item_views(out@);
        let mut k: usize = out.len();
        while k > 0 && comes_before(&x.label, &out[k - 1].label)
            invariant
                k <= out@.len(),
                s == item_views(out@),
                forall|j: int|
                    k <= j < s.len() ==> text_before(x@.label, (#[trigger] s[j]).label),
            decreases k,
        {
            assert(s[k - 1] == out@[k - 1]@);
            k = k - 1;
        }
        proof {
            if k > 0 {
                assert(s[k - 1] == out@[k - 1]@);
            }
            insert_item_at(s, x@, k as int);
            let t = all.take(i + 1);
            assert(t.drop_last() =~= all.take(i as int));
            assert(t.last() == x@);
        }
        out.insert(k, x);
        assert(item_views(out@) =~= s.insert(k as int, x@));
        i = i + 1;
    }
    assert(all.take(all.len() as int) =~= all);
    out
}

/// The completions at a position.
pub fn completion(
    file: &AnalyzedFile,
    builtins: &BuiltinSet,
    docs: &NameMap<GlobalDoc>,
    pos: Position,
) -> (r: Vec<CompletionItem>)
    requires
        scopes_nest(file@.analysis.scopes),
    ensures
        item_views(r@) == completions_at(file@, builtins@, docs@, pos),
{
    let byte: u32 = match byte_at_position(&file.text, pos) {
        Some(b) => b,
        None => 0,
    };
    let prefix = multisym_prefix_at(&file.text, byte as usize);
    let defs = file.analysis.defs_at(byte);
    assert(def_ref_views(defs@).len() == defs@.len());
    let mut items: Vec<CompletionItem> = Vec::new();
    assert(item_views(items@) =~= Seq::<CompletionView>::empty());
    push_locals(&mut items, &defs);
    push_offers(&mut items, &file.analysis.offers, byte);
    push_builtins(&mut items, builtins);
    push_globals(&mut items, docs, &prefix);
    if let Some(p) = &prefix {
        push_modules(&mut items, file, p);
        push_fields(&mut items, &defs, p);
    }
    sort_items(items)
}

// ── Laws ────────────────────────────────────────────────────────────────────

/// No label comes twice.
pub open spec fn labels_once(s: Seq<CompletionView>) -> bool {
    forall|i: int, j: int|
        0 <= i < j < s.len() ==> (#[trigger] s[i]).label != (#[trigger] s[j]).label
}

proof fn adding_keeps_labels_once(s: Seq<CompletionView>, x: CompletionView)
    requires
        labels_once(s),
    ensures
        labels_once(with_item(s, x)),
{
}

proof fn locals_once(s: Seq<CompletionView>, defs: Seq<DefinitionView>, k: int)
    requires
        labels_once(s),
    ensures
        labels_once(with_locals(s, defs, k)),
    decreases k,
{
    if 0 < k <= defs.len() {
        locals_once(s, defs, k - 1);
        adding_keeps_labels_once(with_locals(s, defs, k - 1), local_item(defs[k - 1]));
    }
}

proof fn offers_once(
    s: Seq<CompletionView>,
    offers: Seq<(Span, Seq<char>)>,
    byte: u32,
    k: int,
)
    requires
        labels_once(s),
    ensures
        labels_once(with_offers(s, offers, byte, k)),
    decreases k,
{
    if 0 < k <= offers.len() {
        offers_once(s, offers, byte, k - 1);
        adding_keeps_labels_once(
            with_offers(s, offers, byte, k - 1),
            offered_item(offers[k - 1].1),
        );
    }
}

proof fn builtins_once(s: Seq<CompletionView>, b: Seq<(Seq<char>, BuiltinView)>, k: int)
    requires
        labels_once(s),
    ensures
        labels_once(with_builtins(s, b, k)),
    decreases k,
{
    if 0 < k <= b.len() {
        builtins_once(s, b, k - 1);
        adding_keeps_labels_once(with_builtins(s, b, k - 1), builtin_item(b[k - 1].0, b[k - 1].1));
    }
}

proof fn globals_once(
    s: Seq<CompletionView>,
    docs: Seq<(Seq<char>, GlobalDocView)>,
    prefix: Option<Seq<char>>,
    k: int,
)
    requires
        labels_once(s),
    ensures
        labels_once(with_globals(s, docs, prefix, k)),
    decreases k,
{
    if 0 < k <= docs.len() {
        globals_once(s, docs, prefix, k - 1);
        adding_keeps_labels_once(
            with_globals(s, docs, prefix, k - 1),
            global_item(docs[k - 1].0, docs[k - 1].1, prefix),
        );
    }
}

proof fn exports_once(
    s: Seq<CompletionView>,
    binding: Seq<char>,
    defs: Seq<(Seq<char>, DefinitionView)>,
    k: int,
)
    requires
        labels_once(s),
    ensures
        labels_once(with_exports(s, binding, defs, k)),
    decreases k,
{
    if 0 < k <= defs.len() {
        exports_once(s, binding, defs, k - 1);
        adding_keeps_labels_once(
            with_exports(s, binding, defs, k - 1),
            export_item(binding, defs[k - 1].0, defs[k - 1].1),
        );
    }
}

proof fn modules_once(
    s: Seq<CompletionView>,
    modules: Seq<(Seq<char>, ExportsView)>,
    prefix: Seq<char>,
    k: int,
)
    requires
        labels_once(s),
    ensures
        labels_once(with_modules(s, modules, prefix, k)),
    decreases k,
{
    if 0 < k <= modules.len() {
        modules_once(s, modules, prefix, k - 1);
        let (binding, ex) = modules[k - 1];
        exports_once(
            with_modules(s, modules, prefix, k - 1),
            binding,
            ex.defs,
            ex.defs.len() as int,
        );
    }
}

proof fn fields_once(s: Seq<CompletionView>, table: Seq<char>, fields: Seq<Seq<char>>, k: int)
    requires
        labels_once(s),
    ensures
        labels_once(with_fields(s, table, fields, k)),
    decreases k,
{
    if 0 < k <= fields.len() {
        fields_once(s, table, fields, k - 1);
        adding_keeps_labels_once(
            with_fields(s, table, fields, k - 1),
            field_item(table, fields[k - 1]),
        );
    }
}

proof fn insert_keeps_labels(s: Seq<CompletionView>, x: CompletionView)
    requires
        labels_once(s),
        !has_label(s, x.label),
    ensures
        labels_once(insert_item(s, x)),
        forall|l: Seq<char>| #[trigger]
            has_label(insert_item(s, x), l) <==> has_label(s, l) || l == x.label,
    decreases s.len(),
{
    let r = insert_item(s, x);
    if s.len() > 0 && text_before(x.label, s.last().label) {
        let t = s.drop_last();
        assert(forall|i: int| 0 <= i < t.len() ==> t[i] == s[i]);
        assert(!has_label(t, x.label)) by {
            if has_label(t, x.label) {
                let i = choose|i: int| 0 <= i < t.len() && (#[trigger] t[i]).label == x.label;
                assert(s[i].label == x.label);
            }
        }
        insert_keeps_labels(t, x);
        let u = insert_item(t, x);
        assert(r =~= u.push(s.last()));
        assert(!has_label(t, s.last().label));
        assert(s[s.len() - 1].label != x.label);
        assert(!has_label(u, s.last().label));
        assert forall|i: int, j: int| 0 <= i < j < r.len() implies (#[trigger] r[i]).label != (
        #[trigger] r[j]).label by {
            if j == r.len() - 1 {
                assert(u[i].label == r[i].label);
            } else {
                assert(u[i] == r[i] && u[j] == r[j]);
            }
        }
        assert forall|l: Seq<char>| has_label(r, l) implies #[trigger] has_label(s, l) || l
            == x.label by {
            let i = choose|i: int| 0 <= i < r.len() && (#[trigger] r[i]).label == l;
            if i < u.len() {
                assert(u[i].label == l);
                assert(has_label(u, l));
                if has_label(t, l) {
                    let j = choose|j: int| 0 <= j < t.len() && (#[trigger] t[j]).label == l;
                    assert(s[j].label == l);
                }
            } else {
                assert(s[s.len() - 1].label == l);
            }
        }
        assert forall|l: Seq<char>| has_label(s, l) || l == x.label implies #[trigger] has_label(
            r,
            l,
        ) by {
            if has_label(s, l) {
                let j = choose|j: int| 0 <= j < s.len() && (#[trigger] s[j]).label == l;
                if j < t.len() {
                    assert(t[j].label == l);
                    assert(has_label(t, l));
                } else {
                    assert(r[r.len() - 1].label == l);
                }
            }
            if has_label(u, l) {
                let i = choose|i: int| 0 <= i < u.len() && (#[trigger] u[i]).label == l;
                assert(r[i].label == l);
            }
        }
    } else {
        assert(r == s.push(x));
        assert forall|l: Seq<char>| #[trigger]
            has_label(r, l) <==> has_label(s, l) || l == x.label by {
            if has_label(r, l) {
                let i = choose|i: int| 0 <= i < r.len() && (#[trigger] r[i]).label == l;
                if i < s.len() {
                    assert(s[i].label == l);
                }
            }
            if has_label(s, l) {
                let j = choose|j: int| 0 <= j < s.len() && (#[trigger] s[j]).label == l;
                assert(r[j].label == l);
            }
            if l == x.label {
                assert(r[r.len() - 1].label == l);
            }
        }
    }
}

proof fn sorting_keeps_labels(s: Seq<CompletionView>)
    requires
        labels_once(s),
    ensures
        labels_once(by_label(s)),
        forall|l: Seq<char>| #[trigger] has_label(by_label(s), l) <==> has_label(s, l),
    decreases s.len(),
{
    if s.len() > 0 {
        let t = s.drop_last();
        let x = s.last();
        assert(forall|i: int| 0 <= i < t.len() ==> t[i] == s[i]);
        sorting_keeps_labels(t);
        assert(!has_label(t, x.label)) by {
            if has_label(t, x.label) {
                let i = choose|i: int| 0 <= i < t.len() && (#[trigger] t[i]).label == x.label;
                assert(s[i].label == s[s.len() - 1].label);
            }
        }
        insert_keeps_labels(by_label(t), x);
        assert forall|l: Seq<char>| #[trigger] has_label(by_label(s), l) <==> has_label(s, l) by {
            if has_label(s, l) {
                let j = choose|j: int| 0 <= j < s.len() && (#[trigger] s[j]).label == l;
                if j < t.len() {
                    assert(t[j].label == l);
                }
            }
            if has_label(t, l) {
                let j = choose|j: int| 0 <= j < t.len() && (#[trigger] t[j]).label == l;
                assert(s[j].label == l);
            }
            if l == x.label {
                assert(s[s.len() - 1].label == l);
            }
        }
    }
}

/// A completion list holds each label once.
pub proof fn completion_labels_are_unique(
    f: FileView,
    builtins: Seq<(Seq<char>, BuiltinView)>,
    docs: Seq<(Seq<char>, GlobalDocView)>,
    pos: Position,
)
    ensures
        labels_once(completions_at(f, builtins, docs, pos)),
{
    let byte = completion_byte(f, pos);
    let prefix = namespace_before(before_byte(f.text, byte as int));
    let defs = visible_defs(f.analysis, byte);
    let offers = f.analysis.offers;
    let l = with_locals(Seq::empty(), defs, defs.len() as int);
    locals_once(Seq::empty(), defs, defs.len() as int);
    let a = with_offers(l, offers, byte, offers.len() as int);
    offers_once(l, offers, byte, offers.len() as int);
    let b = with_builtins(a, builtins, builtins.len() as int);
    builtins_once(a, builtins, builtins.len() as int);
    let c = with_globals(b, docs, prefix, docs.len() as int);
    globals_once(b, docs, prefix, docs.len() as int);
    match prefix {
        Some(p) => {
            let m = with_modules(c, f.modules, p, f.modules.len() as int);
            modules_once(c, f.modules, p, f.modules.len() as int);
            let table = first_part(p);
            if let Some(d) = first_named(defs, table, 0) {
                if let Some(fields) = d.table_fields {
                    fields_once(m, table, fields, fields.len() as int);
                }
            }
            sorting_keeps_labels(with_table_fields(m, defs, p));
        },
        None => {
            sorting_keeps_labels(c);
        },
    }
}

/// No label comes before the one in front of it.
pub open spec fn in_label_order(s: Seq<CompletionView>) -> bool {
    forall|i: int| 0 < i < s.len() ==> !text_before((#[trigger] s[i]).label, s[i - 1].label)
}

proof fn insert_item_in_order(s: Seq<CompletionView>, x: CompletionView)
    requires
        in_label_order(s),
    ensures
        in_label_order(insert_item(s, x)),
        insert_item(s, x).len() == s.len() + 1,
        insert_item(s, x).last() == x || s.len() > 0 && insert_item(s, x).last() == s.last(),
    decreases s.len(),
{
    if s.len() > 0 && text_before(x.label, s.last().label) {
        let t = s.drop_last();
        assert(forall|i: int| 0 <= i < t.len() ==> t[i] == s[i]);
        insert_item_in_order(t, x);
        order_is_strict(x.label, s.last().label);
        let u = insert_item(t, x);
        let r = insert_item(s, x);
        assert(forall|i: int| 0 <= i < u.len() ==> r[i] == u[i]);
        if t.len() > 0 {
            assert(!text_before(s[s.len() - 1].label, s[s.len() - 2].label));
        }
    } else {
        let r = insert_item(s, x);
        assert(forall|i: int| 0 <= i < s.len() ==> r[i] == s[i]);
    }
}

proof fn by_label_in_order(s: Seq<CompletionView>)
    ensures
        in_label_order(by_label(s)),
    decreases s.len(),
{
    if s.len() > 0 {
        by_label_in_order(s.drop_last());
        insert_item_in_order(by_label(s.drop_last()), s.last());
    }
}

/// A completion list comes in the order of its labels.
pub proof fn completions_are_in_order(
    f: FileView,
    builtins: Seq<(Seq<char>, BuiltinView)>,
    docs: Seq<(Seq<char>, GlobalDocView)>,
    pos: Position,
)
    ensures
        in_label_order(completions_at(f, builtins, docs, pos)),
{
    let byte = completion_byte(f, pos);
    let prefix = namespace_before(before_byte(f.text, byte as int));
    let defs = visible_defs(f.analysis, byte);
    let offers = f.analysis.offers;
    let l = with_locals(Seq::empty(), defs, defs.len() as int);
    let a = with_offers(l, offers, byte, offers.len() as int);
    let b = with_builtins(a, builtins, builtins.len() as int);
    let c = with_globals(b, docs, prefix, docs.len() as int);
    match prefix {
        Some(p) => {
            let m = with_modules(c, f.modules, p, f.modules.len() as int);
            by_label_in_order(with_table_fields(m, defs, p));
        },
        None => {
            by_label_in_order(c);
        },
    }
}

/// Behind the namespace that was typed, what an item inserts completes it to the label
/// of the item.
pub open spec fn inserts_complete(s: Seq<CompletionView>, typed: Seq<char>) -> bool {
    forall|i: int|
        0 <= i < s.len() ==> ((#[trigger] s[i]).insert_text matches Some(t) ==> typed + t
            == s[i].label)
}

proof fn adding_completes(s: Seq<CompletionView>, x: CompletionView, typed: Seq<char>)
    requires
        inserts_complete(s, typed),
        x.insert_text matches Some(t) ==> typed + t == x.label,
    ensures
        inserts_complete(with_item(s, x), typed),
{
}

proof fn locals_complete(s: Seq<CompletionView>, defs: Seq<DefinitionView>, k: int, typed: Seq<char>)
    requires
        inserts_complete(s, typed),
    ensures
        inserts_complete(with_locals(s, defs, k), typed),
    decreases k,
{
    if 0 < k <= defs.len() {
        locals_complete(s, defs, k - 1, typed);
        adding_completes(with_locals(s, defs, k - 1), local_item(defs[k - 1]), typed);
    }
}

proof fn offers_complete(
    s: Seq<CompletionView>,
    offers: Seq<(Span, Seq<char>)>,
    byte: u32,
    k: int,
    typed: Seq<char>,
)
    requires
        inserts_complete(s, typed),
    ensures
        inserts_complete(with_offers(s, offers, byte, k), typed),
    decreases k,
{
    if 0 < k <= offers.len() {
        offers_complete(s, offers, byte, k - 1, typed);
        adding_completes(
            with_offers(s, offers, byte, k - 1),
            offered_item(offers[k - 1].1),
            typed,
        );
    }
}

proof fn builtins_complete(
    s: Seq<CompletionView>,
    b: Seq<(Seq<char>, BuiltinView)>,
    k: int,
    typed: Seq<char>,
)
    requires
        inserts_complete(s, typed),
    ensures
        inserts_complete(with_builtins(s, b, k), typed),
    decreases k,
{
    if 0 < k <= b.len() {
        builtins_complete(s, b, k - 1, typed);
        adding_completes(
            with_builtins(s, b, k - 1),
            builtin_item(b[k - 1].0, b[k - 1].1),
            typed,
        );
    }
}

proof fn globals_complete(
    s: Seq<CompletionView>,
    docs: Seq<(Seq<char>, GlobalDocView)>,
    k: int,
    typed: Seq<char>,
)
    requires
        inserts_complete(s, typed),
    ensures
        inserts_complete(with_globals(s, docs, Some(typed), k), typed),
    decreases k,
{
    if 0 < k <= docs.len() {
        globals_complete(s, docs, k - 1, typed);
        let (name, d) = docs[k - 1];
        if begins(name, typed) {
            assert(typed + name.skip(typed.len() as int) =~= name);
            adding_completes(
                with_globals(s, docs, Some(typed), k - 1),
                global_item(name, d, Some(typed)),
                typed,
            );
        }
    }
}

proof fn exports_complete(
    s: Seq<CompletionView>,
    binding: Seq<char>,
    defs: Seq<(Seq<char>, DefinitionView)>,
    k: int,
)
    requires
        inserts_complete(s, binding + "."@),
    ensures
        inserts_complete(with_exports(s, binding, defs, k), binding + "."@),
    decreases k,
{
    if 0 < k <= defs.len() {
        exports_complete(s, binding, defs, k - 1);
        adding_completes(
            with_exports(s, binding, defs, k - 1),
            export_item(binding, defs[k - 1].0, defs[k - 1].1),
            binding + "."@,
        );
    }
}

/// A name that opens a namespace of one name is that name.
proof fn only_name_opens(name: Seq<char>, other: Seq<char>)
    requires
        first_part(name) == name,
        begins(name + "."@, other + "."@),
    ensures
        other == name,
{
    reveal_strlit(".");
    part_end_skips(name, 0);
    let n = other.len() as int;
    let t = (name + "."@).take(n + 1);
    assert(t == other + "."@);
    assert(t[n] == '.');
    if n < name.len() {
        assert(name[n] == '.');
        assert(name.take(crate::strings::part_end(name, 0)).len() == name.len());
        assert(!is_joint(name[n]));
    }
    assert(other =~= (other + "."@).take(n));
    assert(name =~= (name + "."@).take(n));
}

proof fn modules_complete(
    s: Seq<CompletionView>,
    modules: Seq<(Seq<char>, ExportsView)>,
    name: Seq<char>,
    k: int,
)
    requires
        inserts_complete(s, name + "."@),
        first_part(name) == name,
    ensures
        inserts_complete(with_modules(s, modules, name + "."@, k), name + "."@),
    decreases k,
{
    if 0 < k <= modules.len() {
        modules_complete(s, modules, name, k - 1);
        let (binding, ex) = modules[k - 1];
        if begins(name + "."@, binding + "."@) {
            only_name_opens(name, binding);
            exports_complete(
                with_modules(s, modules, name + "."@, k - 1),
                binding,
                ex.defs,
                ex.defs.len() as int,
            );
        }
    }
}

proof fn fields_complete(s: Seq<CompletionView>, table: Seq<char>, fields: Seq<Seq<char>>, k: int)
    requires
        inserts_complete(s, table + "."@),
    ensures
        inserts_complete(with_fields(s, table, fields, k), table + "."@),
    decreases k,
{
    if 0 < k <= fields.len() {
        fields_complete(s, table, fields, k - 1);
        adding_completes(
            with_fields(s, table, fields, k - 1),
            field_item(table, fields[k - 1]),
            table + "."@,
        );
    }
}

proof fn root_of_namespace(name: Seq<char>)
    requires
        first_part(name) == name,
    ensures
        first_part(name + "."@) == name,
{
    reveal_strlit(".");
    part_end_skips(name, 0);
    let p = name + "."@;
    part_end_skips(p, 0);
    let e = crate::strings::part_end(p, 0);
    assert(name.take(crate::strings::part_end(name, 0)).len() == name.len());
    if e < name.len() {
        assert(is_joint(p[e]) && p[e] == name[e]);
        assert(!is_joint(name[e]));
    }
    if e > name.len() {
        assert(!is_joint(p[name.len() as int]));
    }
    assert(p.take(name.len() as int) =~= name);
}

proof fn sorting_completes(s: Seq<CompletionView>, typed: Seq<char>)
    requires
        inserts_complete(s, typed),
    ensures
        inserts_complete(by_label(s), typed),
    decreases s.len(),
{
    if s.len() > 0 {
        let t = s.drop_last();
        assert(forall|i: int| 0 <= i < t.len() ==> t[i] == s[i]);
        sorting_completes(t, typed);
        assert(s[s.len() - 1] == s.last());
        inserting_completes(by_label(t), s.last(), typed);
    }
}

proof fn inserting_completes(s: Seq<CompletionView>, x: CompletionView, typed: Seq<char>)
    requires
        inserts_complete(s, typed),
        x.insert_text matches Some(t) ==> typed + t == x.label,
    ensures
        inserts_complete(insert_item(s, x), typed),
    decreases s.len(),
{
    if s.len() > 0 && text_before(x.label, s.last().label) {
        let t = s.drop_last();
        assert(forall|i: int| 0 <= i < t.len() ==> t[i] == s[i]);
        assert(s[s.len() - 1] == s.last());
        inserting_completes(t, x, typed);
    }
}

/// Accepting an item gives its label: behind a namespace `name.`, what was typed and
/// what the item inserts are together the label of the item.
pub proof fn accepting_gives_the_label(
    f: FileView,
    builtins: Seq<(Seq<char>, BuiltinView)>,
    docs: Seq<(Seq<char>, GlobalDocView)>,
    pos: Position,
    name: Seq<char>,
)
    requires
        namespace_before(before_byte(f.text, completion_byte(f, pos) as int)) == Some(name + "."@),
        first_part(name) == name,
    ensures
        inserts_complete(completions_at(f, builtins, docs, pos), name + "."@),
{
    let p = name + "."@;
    let byte = completion_byte(f, pos);
    let defs = visible_defs(f.analysis, byte);
    let offers = f.analysis.offers;
    let none = Seq::<CompletionView>::empty();
    let l = with_locals(none, defs, defs.len() as int);
    locals_complete(none, defs, defs.len() as int, p);
    let a = with_offers(l, offers, byte, offers.len() as int);
    offers_complete(l, offers, byte, offers.len() as int, p);
    let b = with_builtins(a, builtins, builtins.len() as int);
    builtins_complete(a, builtins, builtins.len() as int, p);
    let c = with_globals(b, docs, Some(p), docs.len() as int);
    globals_complete(b, docs, docs.len() as int, p);
    let m = with_modules(c, f.modules, p, f.modules.len() as int);
    modules_complete(c, f.modules, name, f.modules.len() as int);
    root_of_namespace(name);
    if let Some(d) = first_named(defs, name, 0) {
        if let Some(fields) = d.table_fields {
            fields_complete(m, name, fields, fields.len() as int);
        }
    }
    sorting_completes(with_table_fields(m, defs, p), p);
}

// What is offered.

/// All the labels of one list are labels of another.
spec fn keeps_labels(s: Seq<CompletionView>, t: Seq<CompletionView>) -> bool {
    forall|l: Seq<char>| #[trigger] has_label(s, l) ==> has_label(t, l)
}

proof fn adding_offers(s: Seq<CompletionView>, x: CompletionView)
    ensures
        keeps_labels(s, with_item(s, x)),
        has_label(with_item(s, x), x.label),
{
    let t = with_item(s, x);
    assert forall|l: Seq<char>| #[trigger] has_label(s, l) implies has_label(t, l) by {
        let i = choose|i: int| 0 <= i < s.len() && (#[trigger] s[i]).label == l;
        assert(t[i].label == l);
    }
    if !has_label(s, x.label) {
        assert(t[s.len() as int].label == x.label);
    }
}

proof fn locals_are_offered(s: Seq<CompletionView>, defs: Seq<DefinitionView>, k: int)
    requires
        0 <= k <= defs.len(),
    ensures
        keeps_labels(s, with_locals(s, defs, k)),
        forall|i: int|
            0 <= i < k ==> has_label(with_locals(s, defs, k), (#[trigger] defs[i]).name),
    decreases k,
{
    if 0 < k {
        locals_are_offered(s, defs, k - 1);
        adding_offers(with_locals(s, defs, k - 1), local_item(defs[k - 1]));
    }
}

proof fn offers_are_offered(
    s: Seq<CompletionView>,
    offers: Seq<(Span, Seq<char>)>,
    byte: u32,
    k: int,
)
    requires
        0 <= k <= offers.len(),
    ensures
        keeps_labels(s, with_offers(s, offers, byte, k)),
        forall|i: int|
            0 <= i < k && covers((#[trigger] offers[i]).0, byte) ==> has_label(
                with_offers(s, offers, byte, k),
                offers[i].1,
            ),
    decreases k,
{
    if 0 < k {
        offers_are_offered(s, offers, byte, k - 1);
        adding_offers(with_offers(s, offers, byte, k - 1), offered_item(offers[k - 1].1));
    }
}

proof fn builtins_are_offered(
    s: Seq<CompletionView>,
    b: Seq<(Seq<char>, BuiltinView)>,
    k: int,
)
    requires
        0 <= k <= b.len(),
    ensures
        keeps_labels(s, with_builtins(s, b, k)),
        forall|i: int| 0 <= i < k ==> has_label(with_builtins(s, b, k), (#[trigger] b[i]).0),
    decreases k,
{
    if 0 < k {
        builtins_are_offered(s, b, k - 1);
        adding_offers(with_builtins(s, b, k - 1), builtin_item(b[k - 1].0, b[k - 1].1));
    }
}

proof fn globals_are_offered(
    s: Seq<CompletionView>,
    docs: Seq<(Seq<char>, GlobalDocView)>,
    prefix: Option<Seq<char>>,
    k: int,
)
    requires
        0 <= k <= docs.len(),
    ensures
        keeps_labels(s, with_globals(s, docs, prefix, k)),
        forall|i: int|
            0 <= i < k && (prefix matches Some(p) ==> begins(docs[i].0, p)) ==> has_label(
                with_globals(s, docs, prefix, k),
                (#[trigger] docs[i]).0,
            ),
    decreases k,
{
    if 0 < k {
        globals_are_offered(s, docs, prefix, k - 1);
        adding_offers(
            with_globals(s, docs, prefix, k - 1),
            global_item(docs[k - 1].0, docs[k - 1].1, prefix),
        );
    }
}

proof fn exports_are_offered(
    s: Seq<CompletionView>,
    binding: Seq<char>,
    defs: Seq<(Seq<char>, DefinitionView)>,
    k: int,
)
    requires
        0 <= k <= defs.len(),
    ensures
        keeps_labels(s, with_exports(s, binding, defs, k)),
        forall|i: int|
            0 <= i < k ==> has_label(
                with_exports(s, binding, defs, k),
                binding + "."@ + (#[trigger] defs[i]).0,
            ),
    decreases k,
{
    if 0 < k {
        exports_are_offered(s, binding, defs, k - 1);
        adding_offers(
            with_exports(s, binding, defs, k - 1),
            export_item(binding, defs[k - 1].0, defs[k - 1].1),
        );
    }
}

/// The exports of a module are offered behind the name it is bound to.
pub open spec fn exports_offered(
    s: Seq<CompletionView>,
    binding: Seq<char>,
    ex: ExportsView,
) -> bool {
    forall|j: int|
        0 <= j < ex.defs.len() ==> has_label(s, binding + "."@ + (#[trigger] ex.defs[j]).0)
}

proof fn modules_are_offered(
    s: Seq<CompletionView>,
    modules: Seq<(Seq<char>, ExportsView)>,
    prefix: Seq<char>,
    k: int,
)
    requires
        0 <= k <= modules.len(),
    ensures
        keeps_labels(s, with_modules(s, modules, prefix, k)),
        forall|i: int|
            0 <= i < k && begins(prefix, (#[trigger] modules[i]).0 + "."@) ==> exports_offered(
                with_modules(s, modules, prefix, k),
                modules[i].0,
                modules[i].1,
            ),
    decreases k,
{
    if 0 < k {
        modules_are_offered(s, modules, prefix, k - 1);
        let (binding, ex) = modules[k - 1];
        exports_are_offered(
            with_modules(s, modules, prefix, k - 1),
            binding,
            ex.defs,
            ex.defs.len() as int,
        );
    }
}

proof fn fields_are_offered(
    s: Seq<CompletionView>,
    table: Seq<char>,
    fields: Seq<Seq<char>>,
    k: int,
)
    requires
        0 <= k <= fields.len(),
    ensures
        keeps_labels(s, with_fields(s, table, fields, k)),
        forall|i: int|
            0 <= i < k ==> has_label(
                with_fields(s, table, fields, k),
                table + "."@ + (#[trigger] fields[i]),
            ),
    decreases k,
{
    if 0 < k {
        fields_are_offered(s, table, fields, k - 1);
        adding_offers(
            with_fields(s, table, fields, k - 1),
            field_item(table, fields[k - 1]),
        );
    }
}

/// Nothing that may be typed is missing: the names that can be seen, what hooks offer
/// here, the builtins and the documented globals inside the namespace are all offered,
/// and behind a namespace the exports of the modules whose names open it.
pub proof fn what_may_be_typed_is_offered(
    f: FileView,
    builtins: Seq<(Seq<char>, BuiltinView)>,
    docs: Seq<(Seq<char>, GlobalDocView)>,
    pos: Position,
)
    ensures
        ({
            let byte = completion_byte(f, pos);
            let prefix = namespace_before(before_byte(f.text, byte as int));
            let defs = visible_defs(f.analysis, byte);
            let items = completions_at(f, builtins, docs, pos);
            &&& forall|i: int| 0 <= i < defs.len() ==> has_label(items, (#[trigger] defs[i]).name)
            &&& forall|i: int|
                0 <= i < f.analysis.offers.len() && covers(
                    (#[trigger] f.analysis.offers[i]).0,
                    byte,
                ) ==> has_label(items, f.analysis.offers[i].1)
            &&& forall|i: int|
                0 <= i < builtins.len() ==> has_label(items, (#[trigger] builtins[i]).0)
            &&& forall|i: int|
                0 <= i < docs.len() && (prefix matches Some(p) ==> begins(docs[i].0, p))
                    ==> has_label(items, (#[trigger] docs[i]).0)
            &&& prefix matches Some(p) ==> {
                &&& forall|i: int|
                    0 <= i < f.modules.len() && begins(p, (#[trigger] f.modules[i]).0 + "."@)
                        ==> exports_offered(items, f.modules[i].0, f.modules[i].1)
                &&& fields_offered(items, defs, first_part(p))
            }
        }),
{
    let byte = completion_byte(f, pos);
    let prefix = namespace_before(before_byte(f.text, byte as int));
    let defs = visible_defs(f.analysis, byte);
    let offers = f.analysis.offers;
    let none = Seq::<CompletionView>::empty();
    let l = with_locals(none, defs, defs.len() as int);
    locals_are_offered(none, defs, defs.len() as int);
    let a = with_offers(l, offers, byte, offers.len() as int);
    offers_are_offered(l, offers, byte, offers.len() as int);
    let b = with_builtins(a, builtins, builtins.len() as int);
    builtins_are_offered(a, builtins, builtins.len() as int);
    let c = with_globals(b, docs, prefix, docs.len() as int);
    globals_are_offered(b, docs, prefix, docs.len() as int);
    locals_once(none, defs, defs.len() as int);
    offers_once(l, offers, byte, offers.len() as int);
    builtins_once(a, builtins, builtins.len() as int);
    globals_once(b, docs, prefix, docs.len() as int);
    match prefix {
        Some(p) => {
            let m = with_modules(c, f.modules, p, f.modules.len() as int);
            modules_are_offered(c, f.modules, p, f.modules.len() as int);
            modules_once(c, f.modules, p, f.modules.len() as int);
            let table = first_part(p);
            if let Some(d) = first_named(defs, table, 0) {
                if let Some(fields) = d.table_fields {
                    fields_are_offered(m, table, fields, fields.len() as int);
                    fields_once(m, table, fields, fields.len() as int);
                }
            }
            let all = with_table_fields(m, defs, p);
            assert(keeps_labels(m, all));
            sorting_keeps_labels(all);
            first_named_is_first(defs, table, 0);
        },
        None => {
            sorting_keeps_labels(c);
        },
    }
}

/// The static fields of the first visible table with the name are offered behind it.
pub open spec fn fields_offered(
    s: Seq<CompletionView>,
    defs: Seq<DefinitionView>,
    table: Seq<char>,
) -> bool {
    forall|i: int, j: int|
        {
            &&& table.len() > 0
            &&& 0 <= i < defs.len() && #[trigger] is_first_named(defs, table, i)
            &&& defs[i].table_fields matches Some(fields) && 0 <= j < fields.len()
        } ==> has_label(s, table + "."@ + #[trigger] defs[i].table_fields->0[j])
}

/// The definition is the first with the name.
pub open spec fn is_first_named(defs: Seq<DefinitionView>, name: Seq<char>, i: int) -> bool {
    defs[i].name == name && forall|k: int| 0 <= k < i ==> (#[trigger] defs[k]).name != name
}

proof fn first_named_is_first(defs: Seq<DefinitionView>, name: Seq<char>, i: int)
    requires
        0 <= i <= defs.len(),
        forall|k: int| 0 <= k < i ==> (#[trigger] defs[k]).name != name,
    ensures
        forall|j: int|
            0 <= j < defs.len() && #[trigger] is_first_named(defs, name, j) ==> first_named(
                defs,
                name,
                i,
            ) == Some(defs[j]),
    decreases defs.len() - i,
{
    if i < defs.len() && defs[i].name != name {
        first_named_is_first(defs, name, i + 1);
    }
}

} // verus!
