//! Reference counts above functions, and the symbols of a whole workspace.
use std::collections::HashMap;

use vstd::prelude::*;
use vstd::string::*;
use vstd::utf8::*;

use crate::analyzer::{in_order_holds, sorted_keys, DefKind};
use crate::lsp::{Location, LocationView};
use crate::outline::{def_kind_to_symbol_kind, symbol_kind, SymbolKind};
use crate::scoping::in_order;
use crate::strings::{decimal, push_decimal};
use crate::text::{range_of, span_to_range, Range};
use crate::workspace::{
    hit_views, hits_in_files, hits_in_modules, lists, lower_case, refs_from_files, uri_path,
    AnalyzedFile, FileView, HitView, Workspace,
};

verus! {

// ── Code lenses ─────────────────────────────────────────────────────────────

/// How many of the first `k` references point to a definition.
pub open spec fn count_refs(refs: Map<u32, u32>, at: Seq<u32>, byte: u32, k: int) -> nat
    decreases k,
{
    if 0 < k <= at.len() {
        count_refs(refs, at, byte, k - 1) + (if refs[at[k - 1]] == byte {
            1nat
        } else {
            0nat
        })
    } else {
        0
    }
}

/// How many references of a file point to a definition.
pub open spec fn refs_to(refs: Map<u32, u32>, byte: u32) -> nat {
    let at = in_order(refs.dom());
    count_refs(refs, at, byte, at.len() as int)
}

/// A function of a file and how often the file refers to it.
#[derive(Debug)]
pub struct FnUse {
    pub name: String,
    pub range: Range,
    pub refs: usize,
}

#[verifier::ext_equal]
pub ghost struct FnUseView {
    pub name: Seq<char>,
    pub range: Range,
    pub refs: nat,
}

impl View for FnUse {
    type V = FnUseView;

    open spec fn view(&self) -> FnUseView {
        FnUseView { name: self.name@, range: self.range, refs: self.refs as nat }
    }
}

pub open spec fn use_views(s: Seq<FnUse>) -> Seq<FnUseView> {
    Seq::new(s.len(), |i: int| s[i]@)
}

/// The functions among the definitions at the first `k` of some bytes.
pub open spec fn fn_uses_at(f: FileView, bytes: Seq<u32>, k: int) -> Seq<FnUseView>
    decreases k,
{
    if 0 < k <= bytes.len() {
        let before = fn_uses_at(f, bytes, k - 1);
        let d = f.analysis.defs[bytes[k - 1]];
        if d.kind == DefKind::Fn {
            before.push(
                FnUseView {
                    name: d.name,
                    range: range_of(encode_utf8(f.text), d.span),
                    refs: refs_to(f.analysis.refs, bytes[k - 1]),
                },
            )
        } else {
            before
        }
    } else {
        Seq::empty()
    }
}

/// The functions of a file, in the order of the text.
pub open spec fn fn_uses_of(f: FileView) -> Seq<FnUseView> {
    let bytes = in_order(f.analysis.defs.dom());
    fn_uses_at(f, bytes, bytes.len() as int)
}

fn count_refs_to(refs: &HashMap<u32, u32>, byte: u32) -> (r: usize)
    ensures
        r == refs_to(refs@, byte),
{
    let keys = sorted_keys(refs);
    let ghost at = in_order(refs@.dom());
    proof {
        in_order_holds(refs@.dom());
    }
    let mut n: usize = 0;
    let mut i: usize = 0;
    while i < keys.len()
        invariant
            n <= i <= keys@.len(),
            keys@ == at,
            forall|j: int| 0 <= j < keys@.len() ==> refs@.dom().contains(#[trigger] keys@[j]),
            n == count_refs(refs@, at, byte, i as int),
        decreases keys@.len() - i,
    {
        let key: u32 = keys[i];
        assert(refs@.dom().contains(keys@[i as int]));
        if let Some(b) = refs.get(&key) {
            if *b == byte {
                n = n + 1;
            }
        }
        i = i + 1;
    }
    n
}

pub type FnUses = Vec<FnUse>;

/// The functions of a file and how often the file refers to each.
pub fn fn_uses(f: &AnalyzedFile) -> (r: FnUses)
    ensures
        use_views(r@) == fn_uses_of(f@),
{
    let keys = sorted_keys(&f.analysis.defs);
    let ghost bytes = in_order(f@.analysis.defs.dom());
    assert(f@.analysis.defs.dom() =~= f.analysis.defs@.dom());
    proof {
        in_order_holds(f@.analysis.defs.dom());
    }
    let mut out: FnUses = Vec::new();
    assert(use_views(out@) =~= fn_uses_at(f@, bytes, 0));
    let mut i: usize = 0;
    while i < keys.len()
        invariant
            i <= keys@.len(),
            keys@ == bytes,
            forall|j: int|
                0 <= j < keys@.len() ==> f.analysis.defs@.dom().contains(#[trigger] keys@[j]),
            use_views(out@) == fn_uses_at(f@, bytes, i as int),
        decreases keys@.len() - i,
    {
        let byte: u32 = keys[i];
        assert(f.analysis.defs@.dom().contains(keys@[i as int]));
        if let Some(d) = f.analysis.defs.get(&byte) {
            assert(f@.analysis.defs[byte] == d@);
            let is_fn = match d.kind {
                DefKind::Fn => true,
                _ => false,
            };
            if is_fn {
                let ghost before = use_views(out@);
                let x = FnUse {
                    name: d.name.clone(),
                    range: span_to_range(&f.text, &d.span),
                    refs: count_refs_to(&f.analysis.refs, byte),
                };
                out.push(x);
                assert(use_views(out@) =~= before.push(x@));
            }
        }
        i = i + 1;
    }
    out
}

/// `1 reference`, `2 references`
pub open spec fn lens_title(count: nat) -> Seq<char> {
    decimal(count) + " reference"@ + (if count == 1 {
        ""@
    } else {
        "s"@
    })
}

/// A line above a function.
#[derive(Debug)]
pub struct CodeLens {
    pub range: Range,
    pub title: String,
}

/// The lens says how often its own file and, by some order of the open files,
/// other files refer to a function.
pub open spec fn lens_shows(ws: Workspace, uri: Seq<char>, u: FnUseView, lens: CodeLens) -> bool {
    &&& lens.range == u.range
    &&& exists|order: Seq<Seq<char>>| #[trigger]
        lists(order, ws.open_files().dom()) && lens.title@ == lens_title(
            u.refs + refs_from_files(
                ws.open_files(),
                order,
                uri_path(uri),
                u.name,
                order.len() as int,
            ).len(),
        )
}

/// The lenses of a file: one for each function, with the number of references to
/// it. None where the file is not open.
pub fn code_lens(ws: &Workspace, uri: &str) -> (r: Option<Vec<CodeLens>>)
    ensures
        match r {
            None => !ws.open_files().dom().contains(uri@),
            Some(v) => {
                &&& ws.open_files().dom().contains(uri@)
                &&& v@.len() == fn_uses_of(ws.open_files()[uri@]@).len()
                &&& forall|i: int|
                    0 <= i < v@.len() ==> lens_shows(
                        *ws,
                        uri@,
                        fn_uses_of(ws.open_files()[uri@]@)[i],
                        #[trigger] v@[i],
                    )
            },
        },
{
    let look = |f: &AnalyzedFile| -> (v: FnUses)
        ensures
            use_views(v@) == fn_uses_of(f@),
    {
        fn_uses(f)
    };
    let uses = match ws.with_file(uri, look) {
        Some(v) => v,
        None => {
            return None;
        },
    };
    let ghost want = fn_uses_of(ws.open_files()[uri@]@);
    let mut out: Vec<CodeLens> = Vec::new();
    let mut i: usize = 0;
    while i < uses.len()
        invariant
            i <= uses@.len(),
            use_views(uses@) == want,
            out@.len() == i,
            forall|j: int| 0 <= j < i ==> lens_shows(*ws, uri@, want[j], #[trigger] out@[j]),
        decreases uses@.len() - i,
    {
        let u = &uses[i];
        assert(want[i as int] == u@);
        let cross = ws.cross_file_refs_of(uri, &u.name);
        let count: u128 = u.refs as u128 + cross.len() as u128;
        let mut title = String::new();
        push_decimal(&mut title, count);
        title.append(" reference");
        title.append(
            if count == 1 {
                ""
            } else {
                "s"
            },
        );
        assert(title@ =~= lens_title(count as nat));
        let lens = CodeLens { range: u.range, title };
        proof {
            let order = choose|order: Seq<Seq<char>>| #[trigger]
                lists(order, ws.open_files().dom()) && crate::workspace::cross_ref_views(cross@)
                    == refs_from_files(
                    ws.open_files(),
                    order,
                    uri_path(uri@),
                    u.name@,
                    order.len() as int,
                );
            assert(crate::workspace::cross_ref_views(cross@).len() == cross@.len());
            assert(lists(order, ws.open_files().dom()));
            assert(lens_shows(*ws, uri@, want[i as int], lens));
        }
        out.push(lens);
        i = i + 1;
    }
    Some(out)
}

// ── Workspace symbols ───────────────────────────────────────────────────────

/// A definition somewhere in the workspace.
#[derive(Debug)]
pub struct SymbolInformation {
    pub name: String,
    pub kind: SymbolKind,
    pub location: Location,
}

#[verifier::ext_equal]
pub ghost struct SymbolInfoView {
    pub name: Seq<char>,
    pub kind: SymbolKind,
    pub location: LocationView,
}

impl View for SymbolInformation {
    type V = SymbolInfoView;

    open spec fn view(&self) -> SymbolInfoView {
        SymbolInfoView { name: self.name@, kind: self.kind, location: self.location@ }
    }
}

pub open spec fn info_views(s: Seq<SymbolInformation>) -> Seq<SymbolInfoView> {
    Seq::new(s.len(), |i: int| s[i]@)
}

/// What the editor is told of definitions.
pub open spec fn infos(hits: Seq<HitView>) -> Seq<SymbolInfoView> {
    Seq::new(
        hits.len(),
        |i: int|
            SymbolInfoView {
                name: hits[i].2.name,
                kind: symbol_kind(hits[i].2.kind),
                location: LocationView {
                    uri: hits[i].0,
                    range: range_of(encode_utf8(hits[i].1), hits[i].2.span),
                },
            },
    )
}

/// The definitions of the workspace whose names hold the query, those of open
/// files first. None where there is no such definition.
pub fn symbol(ws: &Workspace, query: &str) -> (r: Option<Vec<SymbolInformation>>)
    ensures
        exists|files: Seq<Seq<char>>, modules: Seq<Seq<char>>|
            #![trigger lists(files, ws.open_files().dom()), lists(modules, ws.cached().dom())]
            lists(files, ws.open_files().dom()) && lists(modules, ws.cached().dom()) && ({
                let hits = hits_in_files(
                    ws.open_files(),
                    files,
                    lower_case(query@),
                    files.len() as int,
                ) + hits_in_modules(
                    ws.cached(),
                    modules,
                    lower_case(query@),
                    modules.len() as int,
                );
                match r {
                    Some(v) => v@.len() > 0 && info_views(v@) == infos(hits),
                    None => hits.len() == 0,
                }
            }),
{
    let defs = ws.all_defs(query);
    let ghost hits = hit_views(defs@);
    assert(hits.len() == defs@.len());
    if defs.len() == 0 {
        return None;
    }
    let mut out: Vec<SymbolInformation> = Vec::new();
    let mut i: usize = 0;
    while i < defs.len()
        invariant
            i <= defs@.len(),
            hits == hit_views(defs@),
            out@.len() == i,
            forall|j: int| 0 <= j < i ==> (#[trigger] out@[j])@ == infos(hits)[j],
        decreases defs@.len() - i,
    {
        let (uri, text, def) = &defs[i];
        assert(hits[i as int] == (uri@, text@, def@));
        out.push(
            SymbolInformation {
                name: def.name.clone(),
                kind: def_kind_to_symbol_kind(&def.kind),
                location: Location { uri: uri.clone(), range: span_to_range(text, &def.span) },
            },
        );
        i = i + 1;
    }
    assert(info_views(out@) =~= infos(hits));
    Some(out)
}

} // verus!
