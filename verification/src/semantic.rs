//! Semantic tokens: what kind of thing each symbol of a file stands for.
use dashmap::DashMap;
use vstd::prelude::*;
use vstd::string::*;
use vstd::utf8::*;

use crate::analyzer::{
    in_text_order, AnalysisResult, AnalysisView, DefKind, DefinitionInfo, DefinitionView,
    SymbolView,
};
use crate::strings::{chars_of, decimal, push_decimal};
use crate::text::{
    byte_to_position, not_behind, position_of, positions_in_order, units, utf16_units, Position,
};

verus! {

/// A token, placed relative to the token before it.
#[derive(Debug, Clone, Copy, PartialEq, Eq, Structural)]
pub struct SemanticToken {
    pub delta_line: u32,
    pub delta_start: u32,
    pub length: u32,
    pub token_type: u32,
    pub token_modifiers_bitset: u32,
}

// ── Tokens of a file ────────────────────────────────────────────────────────

/// The definition that a symbol makes or stands for.
pub open spec fn meaning(a: AnalysisView, sym: SymbolView) -> Option<DefinitionView> {
    let byte = if sym.is_def {
        Some(sym.span.start)
    } else {
        sym.def_byte
    };
    match byte {
        Some(d) => if a.defs.dom().contains(d) {
            Some(a.defs[d])
        } else {
            None
        },
        None => None,
    }
}

/// The names of the token types, by their numbers.
pub const TOKEN_TYPES: [&'static str; 4] = ["function", "parameter", "variable", "macro"];

/// The names of the token modifiers, by their bits.
pub const TOKEN_MODIFIERS: [&'static str; 2] = ["definition", "readonly"];

/// The name of the token type of a definition.
pub open spec fn token_type_name(kind: DefKind) -> Seq<char> {
    match kind {
        DefKind::Fn => "function"@,
        DefKind::Param => "parameter"@,
        DefKind::Macro => "macro"@,
        _ => "variable"@,
    }
}

/// The number of a definition's token type is the place of its name.
pub proof fn token_types_have_their_names(kind: DefKind)
    ensures
        token_type(kind) < TOKEN_TYPES@.len(),
        TOKEN_TYPES@[token_type(kind) as int]@ == token_type_name(kind),
{
}

/// The bits of a token are those of its modifiers: the first says that it is a
/// definition, the second that it cannot be set.
pub proof fn token_modifiers_have_their_names(is_def: bool, kind: DefKind)
    ensures
        TOKEN_MODIFIERS@.len() == 2,
        TOKEN_MODIFIERS@[0]@ == "definition"@,
        TOKEN_MODIFIERS@[1]@ == "readonly"@,
        token_modifiers(is_def, kind) % 2 == 1 <==> is_def,
        token_modifiers(is_def, kind) / 2 == 1 <==> (kind == DefKind::Local || kind == DefKind::Fn
            || kind == DefKind::Param || kind == DefKind::Macro),
        token_modifiers(is_def, kind) < 4,
{
}

/// 0 = function, 1 = parameter, 2 = variable, 3 = macro
pub open spec fn token_type(kind: DefKind) -> u32 {
    match kind {
        DefKind::Fn => 0,
        DefKind::Param => 1,
        DefKind::Macro => 3,
        _ => 2,
    }
}

/// Bit 0 = definition, bit 1 = readonly
pub open spec fn token_modifiers(is_def: bool, kind: DefKind) -> u32 {
    let readonly = kind == DefKind::Local || kind == DefKind::Fn || kind == DefKind::Param || kind
        == DefKind::Macro;
    if is_def && readonly {
        3
    } else if readonly {
        2
    } else if is_def {
        1
    } else {
        0
    }
}

/// The first `k` symbols, as far as they have a meaning, with that meaning.
pub open spec fn meant(a: AnalysisView, k: int) -> Seq<(SymbolView, DefinitionView)>
    decreases k,
{
    if 0 < k <= a.syms.len() {
        let before = meant(a, k - 1);
        match meaning(a, a.syms[k - 1]) {
            Some(d) => before.push((a.syms[k - 1], d)),
            None => before,
        }
    } else {
        Seq::empty()
    }
}

/// The place of the `i`-th of some symbols; the start of the file before the first.
pub open spec fn place_of(b: Seq<u8>, s: Seq<(SymbolView, DefinitionView)>, i: int) -> Position {
    if 0 <= i < s.len() {
        position_of(b, s[i].0.span.start as int)
    } else {
        Position { line: 0, character: 0 }
    }
}

/// The token of the `i`-th of some symbols.
pub open spec fn token_of(b: Seq<u8>, s: Seq<(SymbolView, DefinitionView)>, i: int) -> SemanticToken {
    let here = place_of(b, s, i);
    let before = place_of(b, s, i - 1);
    SemanticToken {
        delta_line: (here.line - before.line) as u32,
        delta_start: if here.line == before.line {
            (here.character - before.character) as u32
        } else {
            here.character
        },
        length: utf16_units(s[i].0.name) as u32,
        token_type: token_type(s[i].1.kind),
        token_modifiers_bitset: token_modifiers(s[i].0.is_def, s[i].1.kind),
    }
}

pub open spec fn tokens_for(b: Seq<u8>, s: Seq<(SymbolView, DefinitionView)>) -> Seq<SemanticToken> {
    Seq::new(s.len(), |i: int| token_of(b, s, i))
}

/// The tokens of a file, in the order of its symbols.
pub open spec fn file_tokens(a: AnalysisView, b: Seq<u8>) -> Seq<SemanticToken> {
    tokens_for(b, meant(a, a.syms.len() as int))
}

fn utf16_count(name: &str) -> (r: u128)
    ensures
        r == utf16_units(name@),
{
    let chars = chars_of(name);
    let mut total: u128 = 0;
    let mut i: usize = 0;
    assert(chars@.take(0) =~= Seq::<char>::empty());
    while i < chars.len()
        invariant
            i <= chars@.len(),
            total == utf16_units(chars@.take(i as int)),
            total <= 2 * i,
        decreases chars@.len() - i,
    {
        assert(chars@.take(i + 1).drop_last() =~= chars@.take(i as int));
        total = total + (if chars[i] as u32 >= 0x10000 {
            2
        } else {
            1
        });
        i = i + 1;
    }
    assert(chars@.take(chars@.len() as int) =~= chars@);
    total
}

/// The symbols with a meaning come in the order of the text.
proof fn meant_in_order(a: AnalysisView, k: int)
    requires
        in_text_order(a.syms),
        0 <= k <= a.syms.len(),
    ensures
        forall|i: int, j: int|
            0 <= i <= j < meant(a, k).len() ==> (#[trigger] meant(a, k)[i]).0.span.start <= (
            #[trigger] meant(a, k)[j]).0.span.start,
        forall|i: int, m: int|
            0 <= i < meant(a, k).len() && k <= m < a.syms.len() ==> (#[trigger] meant(
                a,
                k,
            )[i]).0.span.start <= (#[trigger] a.syms[m]).span.start,
    decreases k,
{
    if k > 0 {
        meant_in_order(a, k - 1);
    }
}

/// Build the delta-encoded semantic token data from an analysis result.
/// Token types (index into legend):
///   0 = function, 1 = parameter, 2 = variable, 3 = macro
/// Token modifier bits:
///   0 = definition, 1 = readonly
///
/// Positions and lengths are in UTF-16 code units as required by the LSP spec.
pub fn build_semantic_tokens(analysis: &AnalysisResult, text: &str) -> (r: Vec<SemanticToken>)
    requires
        in_text_order(analysis@.syms),
        text.spec_bytes().len() <= u32::MAX,
    ensures
        r@ == file_tokens(analysis@, text.spec_bytes()),
{
    let ghost a = analysis@;
    let ghost b = text.spec_bytes();
    let mut data: Vec<SemanticToken> = Vec::new();
    let mut before = Position { line: 0, character: 0 };
    let mut k: usize = 0;
    proof {
        encode_utf8_valid_utf8(text@);
    }
    assert(data@ =~= tokens_for(b, meant(a, 0)));
    while k < analysis.syms.len()
        invariant
            k <= analysis.syms@.len(),
            a == analysis@,
            b == text.spec_bytes(),
            b.len() <= u32::MAX,
            valid_utf8(b),
            in_text_order(a.syms),
            data@ == tokens_for(b, meant(a, k as int)),
            before == place_of(b, meant(a, k as int), meant(a, k as int).len() - 1),
        decreases analysis.syms@.len() - k,
    {
        let sym = &analysis.syms[k];
        assert(a.syms[k as int] == sym@);
        if let Some(def) = definition_of(analysis, k) {
            let here = byte_to_position(text, sym.span.start as usize);
            let ghost s0 = meant(a, k as int);
            let ghost s1 = meant(a, k + 1);
            proof {
                meant_in_order(a, k as int);
                if s0.len() > 0 {
                    positions_in_order(b, s0.last().0.span.start as int, sym.span.start as int);
                }
                assert(not_behind(before, here));
            }
            let delta_line: u32 = here.line - before.line;
            let delta_start: u32 = if delta_line == 0 {
                here.character - before.character
            } else {
                here.character
            };
            let token = SemanticToken {
                delta_line,
                delta_start,
                length: utf16_count(&sym.name) as u32,
                token_type: kind_number(def.kind),
                token_modifiers_bitset: modifier_bits(sym.is_def, def.kind),
            };
            data.push(token);
            proof {
                assert(s1 == s0.push((sym@, def@)));
                assert(token == token_of(b, s1, s0.len() as int));
                assert forall|i: int| 0 <= i < s0.len() implies #[trigger] token_of(b, s1, i)
                    == token_of(b, s0, i) by {
                    assert(place_of(b, s1, i) == place_of(b, s0, i));
                    assert(place_of(b, s1, i - 1) == place_of(b, s0, i - 1));
                }
                assert(data@ =~= tokens_for(b, s1));
            }
            before = here;
        }
        k = k + 1;
    }
    data
}

fn definition_of(analysis: &AnalysisResult, k: usize) -> (r: Option<&DefinitionInfo>)
    requires
        k < analysis.syms@.len(),
    ensures
        match r {
            Some(d) => meaning(analysis@, analysis@.syms[k as int]) == Some(d@),
            None => meaning(analysis@, analysis@.syms[k as int]) is None,
        },
{
    let sym = &analysis.syms[k];
    let byte: Option<u32> = if sym.is_def {
        Some(sym.span.start)
    } else {
        sym.def_byte
    };
    match byte {
        Some(d) => analysis.defs.get(&d),
        None => None,
    }
}

fn kind_number(kind: DefKind) -> (r: u32)
    ensures
        r == token_type(kind),
{
    match kind {
        DefKind::Fn => 0,
        DefKind::Param => 1,
        DefKind::Macro => 3,
        _ => 2,
    }
}

fn modifier_bits(is_def: bool, kind: DefKind) -> (r: u32)
    ensures
        r == token_modifiers(is_def, kind),
{
    let readonly = kind == DefKind::Local || kind == DefKind::Fn || kind == DefKind::Param || kind
        == DefKind::Macro;
    if is_def && readonly {
        3
    } else if readonly {
        2
    } else if is_def {
        1
    } else {
        0
    }
}

// ── Tokens in a range of lines ──────────────────────────────────────────────

/// The line of the `k`-th token (from 1): the sum of the steps up to it.
pub open spec fn line_at(tokens: Seq<SemanticToken>, k: int) -> nat
    decreases k,
{
    if 0 < k <= tokens.len() {
        line_at(tokens, k - 1) + tokens[k - 1].delta_line as nat
    } else {
        0
    }
}

/// Those of the first `k` tokens that stand on the given lines.
pub open spec fn on_lines(tokens: Seq<SemanticToken>, first: u32, last: u32, k: int) -> Seq<
    SemanticToken,
>
    decreases k,
{
    if 0 < k <= tokens.len() {
        let before = on_lines(tokens, first, last, k - 1);
        if first <= line_at(tokens, k) <= last {
            before.push(tokens[k - 1])
        } else {
            before
        }
    } else {
        Seq::empty()
    }
}

proof fn line_at_grows(tokens: Seq<SemanticToken>, i: int, k: int)
    requires
        0 <= i <= k <= tokens.len(),
    ensures
        line_at(tokens, i) <= line_at(tokens, k),
    decreases k - i,
{
    if i < k {
        line_at_grows(tokens, i, k - 1);
    }
}

/// The tokens whose lines lie in a range, both ends counted. They stay as they
/// are: a token that is kept is placed relative to the token before it, kept or not.
pub fn tokens_on_lines(tokens: &Vec<SemanticToken>, first: u32, last: u32) -> (r: Vec<
    SemanticToken,
>)
    requires
        line_at(tokens@, tokens@.len() as int) <= u32::MAX,
    ensures
        r@ == on_lines(tokens@, first, last, tokens@.len() as int),
{
    let mut out: Vec<SemanticToken> = Vec::new();
    let mut line: u32 = 0;
    let mut k: usize = 0;
    while k < tokens.len()
        invariant
            k <= tokens@.len(),
            line_at(tokens@, tokens@.len() as int) <= u32::MAX,
            line == line_at(tokens@, k as int),
            out@ == on_lines(tokens@, first, last, k as int),
        decreases tokens@.len() - k,
    {
        proof {
            line_at_grows(tokens@, k + 1, tokens@.len() as int);
        }
        line = line + tokens[k].delta_line;
        if line >= first && line <= last {
            out.push(tokens[k]);
        }
        k = k + 1;
    }
    out
}

/// The steps of the tokens of a file lead to the lines of their symbols.
pub proof fn file_token_lines(a: AnalysisView, b: Seq<u8>, k: int)
    requires
        in_text_order(a.syms),
        valid_utf8(b),
        b.len() <= u32::MAX,
        0 <= k <= meant(a, a.syms.len() as int).len(),
    ensures
        line_at(file_tokens(a, b), k) == place_of(b, meant(a, a.syms.len() as int), k - 1).line,
    decreases k,
{
    if k > 0 {
        let s = meant(a, a.syms.len() as int);
        file_token_lines(a, b, k - 1);
        meant_in_order(a, a.syms.len() as int);
        if k > 1 {
            positions_in_order(b, s[k - 2].0.span.start as int, s[k - 1].0.span.start as int);
        }
        assert(file_tokens(a, b)[k - 1] == token_of(b, s, k - 1));
    }
}

/// The semantic tokens of a file whose lines lie in a range.
pub fn semantic_tokens_range(analysis: &AnalysisResult, text: &str, first: u32, last: u32) -> (r:
    Vec<SemanticToken>)
    requires
        in_text_order(analysis@.syms),
        text.spec_bytes().len() <= u32::MAX,
    ensures
        r@ == on_lines(
            file_tokens(analysis@, text.spec_bytes()),
            first,
            last,
            file_tokens(analysis@, text.spec_bytes()).len() as int,
        ),
{
    let all = build_semantic_tokens(analysis, text);
    proof {
        encode_utf8_valid_utf8(text@);
        file_token_lines(analysis@, text.spec_bytes(), all@.len() as int);
    }
    tokens_on_lines(&all, first, last)
}

// ── Flat form ───────────────────────────────────────────────────────────────

/// One of the five numbers of a token.
pub open spec fn token_part(t: SemanticToken, j: int) -> u32 {
    if j == 0 {
        t.delta_line
    } else if j == 1 {
        t.delta_start
    } else if j == 2 {
        t.length
    } else if j == 3 {
        t.token_type
    } else {
        t.token_modifiers_bitset
    }
}

/// The numbers of some tokens, five for each.
pub open spec fn flattened(tokens: Seq<SemanticToken>) -> Seq<u32> {
    Seq::new(tokens.len() * 5, |i: int| token_part(tokens[i / 5], i % 5))
}

/// The tokens that numbers make, five for each; what is left over makes none.
pub open spec fn grouped(flat: Seq<u32>) -> Seq<SemanticToken> {
    Seq::new(
        flat.len() / 5,
        |i: int|
            SemanticToken {
                delta_line: flat[5 * i],
                delta_start: flat[5 * i + 1],
                length: flat[5 * i + 2],
                token_type: flat[5 * i + 3],
                token_modifiers_bitset: flat[5 * i + 4],
            },
    )
}

/// Grouping undoes flattening.
pub proof fn grouped_flattened(tokens: Seq<SemanticToken>)
    ensures
        grouped(flattened(tokens)) == tokens,
{
    let flat = flattened(tokens);
    assert forall|i: int| 0 <= i < tokens.len() implies grouped(flat)[i] == tokens[i] by {
        assert((5 * i) / 5 == i && (5 * i) % 5 == 0);
        assert((5 * i + 1) / 5 == i && (5 * i + 1) % 5 == 1);
        assert((5 * i + 2) / 5 == i && (5 * i + 2) % 5 == 2);
        assert((5 * i + 3) / 5 == i && (5 * i + 3) % 5 == 3);
        assert((5 * i + 4) / 5 == i && (5 * i + 4) % 5 == 4);
    }
    assert(grouped(flat) =~= tokens);
}

/// Flattening undoes grouping, where nothing is left over.
pub proof fn flattened_grouped(flat: Seq<u32>)
    requires
        flat.len() % 5 == 0,
    ensures
        flattened(grouped(flat)) == flat,
{
    let back = flattened(grouped(flat));
    assert forall|i: int| 0 <= i < flat.len() implies back[i] == flat[i] by {
        let q = i / 5;
        let m = i % 5;
        assert(i == 5 * q + m);
        assert(0 <= q < flat.len() / 5);
    }
    assert(back =~= flat);
}

/// Convert a slice of `SemanticToken` to a flat `Vec<u32>` (5 u32s per token).
pub fn tokens_to_flat(tokens: &[SemanticToken]) -> (r: Vec<u32>)
    ensures
        r@ == flattened(tokens@),
{
    let mut out: Vec<u32> = Vec::new();
    let mut i: usize = 0;
    while i < tokens.len()
        invariant
            i <= tokens@.len(),
            out@ == flattened(tokens@.take(i as int)),
        decreases tokens@.len() - i,
    {
        let t = tokens[i];
        let ghost before = out@;
        out.push(t.delta_line);
        out.push(t.delta_start);
        out.push(t.length);
        out.push(t.token_type);
        out.push(t.token_modifiers_bitset);
        proof {
            let next = tokens@.take(i + 1);
            assert forall|j: int| 0 <= j < next.len() * 5 implies out@[j] == token_part(
                next[j / 5],
                j % 5,
            ) by {
                if j < i * 5 {
                    assert(j / 5 < i);
                    assert(before[j] == token_part(tokens@.take(i as int)[j / 5], j % 5));
                } else {
                    assert(j / 5 == i && j % 5 == j - 5 * i);
                }
            }
            assert(out@ =~= flattened(next));
        }
        i = i + 1;
    }
    assert(tokens@.take(tokens@.len() as int) =~= tokens@);
    out
}

/// Reconstruct `SemanticToken`s from a flat u32 slice (inverse of `tokens_to_flat`).
pub fn flat_to_tokens(flat: &[u32]) -> (r: Vec<SemanticToken>)
    ensures
        r@ == grouped(flat@),
{
    let n = flat.len() / 5;
    let mut out: Vec<SemanticToken> = Vec::new();
    let mut i: usize = 0;
    while i < n
        invariant
            i <= n,
            n == flat@.len() / 5,
            n == flat.len() / 5,
            out@.len() == i,
            forall|j: int| 0 <= j < i ==> #[trigger] out@[j] == grouped(flat@)[j],
        decreases n - i,
    {
        let at: usize = 5 * i;
        out.push(
            SemanticToken {
                delta_line: flat[at],
                delta_start: flat[at + 1],
                length: flat[at + 2],
                token_type: flat[at + 3],
                token_modifiers_bitset: flat[at + 4],
            },
        );
        i = i + 1;
    }
    assert(out@ =~= grouped(flat@));
    out
}

// ── Deltas ──────────────────────────────────────────────────────────────────

/// How many numbers two runs share at their starts, from index `i` on.
pub open spec fn shared_start(a: Seq<u32>, b: Seq<u32>, i: int) -> int
    decreases a.len() - i,
{
    if 0 <= i < a.len() && i < b.len() && a[i] == b[i] {
        shared_start(a, b, i + 1)
    } else {
        i
    }
}

/// How many numbers two runs share at their ends, from the `i`-th last on, not
/// counting their first `p`.
pub open spec fn shared_end(a: Seq<u32>, b: Seq<u32>, p: int, i: int) -> int
    decreases a.len() - p - i,
{
    if 0 <= i < a.len() - p && i < b.len() - p && a[a.len() - 1 - i] == b[b.len() - 1 - i] {
        shared_end(a, b, p, i + 1)
    } else {
        i
    }
}

/// An edit of flat token data: from `start` on, `delete_count` numbers give way
/// to those of `data`.
#[derive(Debug)]
pub struct TokensEdit {
    pub start: u32,
    pub delete_count: u32,
    pub data: Option<Vec<SemanticToken>>,
}

/// The numbers of as many whole tokens as `n` numbers make.
pub open spec fn whole_tokens(n: int) -> int {
    n - n % 5
}

/// What is left of the old and of the new data between the whole tokens that
/// they share at their starts and at their ends: where it starts, what it was,
/// and what it is now.
pub open spec fn changed_part(a: Seq<u32>, b: Seq<u32>) -> (int, Seq<u32>, Seq<u32>) {
    let p = whole_tokens(shared_start(a, b, 0));
    let e = whole_tokens(shared_end(a, b, p, 0));
    (p, a.subrange(p, a.len() - e), b.subrange(p, b.len() - e))
}

/// The edit that leads from the old to the new data; none where they are the same.
pub open spec fn is_delta(edit: Option<TokensEdit>, a: Seq<u32>, b: Seq<u32>) -> bool {
    let (p, gone, fresh) = changed_part(a, b);
    match edit {
        None => a == b,
        Some(edit) => {
            &&& a != b
            &&& edit.start == p as u32
            &&& edit.delete_count == gone.len() as u32
            &&& match edit.data {
                Some(data) => data@.len() > 0 && data@ == grouped(fresh),
                None => grouped(fresh).len() == 0,
            }
        },
    }
}

/// Token data after an edit.
pub open spec fn edited(a: Seq<u32>, edit: TokensEdit) -> Seq<u32> {
    let data = match edit.data {
        Some(data) => flattened(data@),
        None => Seq::empty(),
    };
    a.take(edit.start as int) + data + a.skip(edit.start + edit.delete_count)
}

proof fn shared_bounds(a: Seq<u32>, b: Seq<u32>, p: int, i: int)
    ensures
        0 <= i ==> i <= shared_start(a, b, i),
        0 <= i <= a.len() && i <= b.len() ==> shared_start(a, b, i) <= a.len() && shared_start(
            a,
            b,
            i,
        ) <= b.len(),
        0 <= i <= a.len() && i <= b.len() ==> a.subrange(i, shared_start(a, b, i)) =~= b.subrange(
            i,
            shared_start(a, b, i),
        ),
    decreases a.len() - i,
{
    if 0 <= i < a.len() && i < b.len() && a[i] == b[i] {
        shared_bounds(a, b, p, i + 1);
        let e = shared_start(a, b, i);
        assert(a.subrange(i, e) =~= seq![a[i]] + a.subrange(i + 1, e));
        assert(b.subrange(i, e) =~= seq![b[i]] + b.subrange(i + 1, e));
    }
}

proof fn shared_end_bounds(a: Seq<u32>, b: Seq<u32>, p: int, i: int)
    requires
        0 <= p <= a.len(),
        p <= b.len(),
        0 <= i <= a.len() - p,
        i <= b.len() - p,
        a.skip(a.len() - i) == b.skip(b.len() - i),
    ensures
        i <= shared_end(a, b, p, i) <= a.len() - p,
        shared_end(a, b, p, i) <= b.len() - p,
        a.skip(a.len() - shared_end(a, b, p, i)) == b.skip(b.len() - shared_end(a, b, p, i)),
    decreases a.len() - p - i,
{
    if i < a.len() - p && i < b.len() - p && a[a.len() - 1 - i] == b[b.len() - 1 - i] {
        assert(a.skip(a.len() - (i + 1)) =~= seq![a[a.len() - 1 - i]] + a.skip(a.len() - i));
        assert(b.skip(b.len() - (i + 1)) =~= seq![b[b.len() - 1 - i]] + b.skip(b.len() - i));
        shared_end_bounds(a, b, p, i + 1);
    }
}

proof fn changed_part_bounds(a: Seq<u32>, b: Seq<u32>)
    ensures
        ({
            let p = whole_tokens(shared_start(a, b, 0));
            let e = whole_tokens(shared_end(a, b, p, 0));
            &&& 0 <= p
            &&& 0 <= e
            &&& p + e <= a.len()
            &&& p + e <= b.len()
            &&& a.subrange(0, p) == b.subrange(0, p)
            &&& a.skip(a.len() - e) == b.skip(b.len() - e)
        }),
{
    let q = shared_start(a, b, 0);
    let p = whole_tokens(q);
    shared_bounds(a, b, 0, 0);
    assert(a.subrange(0, p) =~= a.subrange(0, q).take(p));
    assert(b.subrange(0, p) =~= b.subrange(0, q).take(p));
    assert(a.skip(a.len() - 0) =~= b.skip(b.len() - 0));
    shared_end_bounds(a, b, p, 0);
    let f = shared_end(a, b, p, 0);
    let e = whole_tokens(f);
    assert(a.skip(a.len() - e) =~= a.skip(a.len() - f).skip(f - e));
    assert(b.skip(b.len() - e) =~= b.skip(b.len() - f).skip(f - e));
}

/// Carrying out the edit on the old data gives the new data, whatever changed.
pub proof fn edit_gives_new_data(
    old_flat: Seq<u32>,
    tokens: Seq<SemanticToken>,
    edit: TokensEdit,
)
    requires
        is_delta(Some(edit), old_flat, flattened(tokens)),
        old_flat.len() <= u32::MAX,
    ensures
        edited(old_flat, edit) == flattened(tokens),
{
    let new_flat = flattened(tokens);
    let p = whole_tokens(shared_start(old_flat, new_flat, 0));
    changed_part_bounds(old_flat, new_flat);
    let e = whole_tokens(shared_end(old_flat, new_flat, p, 0));
    let fresh = new_flat.subrange(p, new_flat.len() - e);
    assert(fresh.len() % 5 == 0);
    flattened_grouped(fresh);
    assert(edit.data is None ==> fresh =~= Seq::<u32>::empty());
    reassembled(old_flat, new_flat, p, e);
}

proof fn reassembled(a: Seq<u32>, b: Seq<u32>, p: int, e: int)
    requires
        0 <= p,
        0 <= e,
        p + e <= a.len(),
        p + e <= b.len(),
        a.subrange(0, p) == b.subrange(0, p),
        a.skip(a.len() - e) == b.skip(b.len() - e),
    ensures
        a.take(p) + b.subrange(p, b.len() - e) + a.skip(p + a.subrange(p, a.len() - e).len()) == b,
{
    assert(a.take(p) =~= b.subrange(0, p));
    assert(a.skip(p + a.subrange(p, a.len() - e).len()) == b.skip(b.len() - e));
    assert(b.subrange(0, p) + b.subrange(p, b.len() - e) + b.skip(b.len() - e) =~= b);
}

/// A minimal single-edit delta: the changed region between two states of flat
/// token data, in whole tokens. None where they are the same.
pub fn tokens_delta(old_flat: &Vec<u32>, new_flat: &Vec<u32>) -> (r: Option<TokensEdit>)
    ensures
        is_delta(r, old_flat@, new_flat@),
{
    let ghost a = old_flat@;
    let ghost b = new_flat@;
    let mut p: usize = 0;
    while p < old_flat.len() && p < new_flat.len() && old_flat[p] == new_flat[p]
        invariant
            p <= old_flat@.len(),
            p <= new_flat@.len(),
            a == old_flat@,
            b == new_flat@,
            shared_start(a, b, p as int) == shared_start(a, b, 0),
        decreases old_flat@.len() - p,
    {
        p = p + 1;
    }
    proof {
        shared_bounds(a, b, 0, 0);
        changed_part_bounds(a, b);
    }
    if p == old_flat.len() && p == new_flat.len() {
        assert(a =~= a.subrange(0, p as int));
        assert(b =~= b.subrange(0, p as int));
        return None;
    }
    p = p - p % 5;
    let mut e: usize = 0;
    while e < old_flat.len() - p && e < new_flat.len() - p && old_flat[old_flat.len() - 1 - e]
        == new_flat[new_flat.len() - 1 - e]
        invariant
            p <= old_flat@.len(),
            p <= new_flat@.len(),
            e <= old_flat@.len() - p,
            e <= new_flat@.len() - p,
            a == old_flat@,
            b == new_flat@,
            shared_end(a, b, p as int, e as int) == shared_end(a, b, p as int, 0),
        decreases old_flat@.len() - p - e,
    {
        e = e + 1;
    }
    e = e - e % 5;
    let gone: usize = old_flat.len() - p - e;
    let part = vstd::slice::slice_subrange(new_flat.as_slice(), p, new_flat.len() - e);
    assert(part@ =~= changed_part(a, b).2);
    let tokens = flat_to_tokens(part);
    Some(
        TokensEdit {
            start: p as u32,
            delete_count: gone as u32,
            data: if tokens.len() == 0 {
                None
            } else {
                Some(tokens)
            },
        },
    )
}

// ── Remembered tokens ───────────────────────────────────────────────────────

/// The flat token data that a map holds, by URI.
pub uninterp spec fn token_map(m: DashMap<String, Vec<u32>>) -> Map<Seq<char>, Seq<u32>>;

/// Wraps `DashMap::new`: a map without entries.
#[verifier::external_body]
fn no_tokens() -> (r: DashMap<String, Vec<u32>>)
    ensures
        token_map(r).dom() == Set::<Seq<char>>::empty(),
{
    DashMap::new()
}

/// Wraps `DashMap::insert`: the key has the value, other keys keep theirs.
#[verifier::external_body]
fn insert_tokens(m: &mut DashMap<String, Vec<u32>>, key: String, flat: Vec<u32>)
    ensures
        token_map(*final(m)) == token_map(*old(m)).insert(key@, flat@),
{
    m.insert(key, flat);
}

/// Wraps `DashMap::remove`: the key is gone, and its value is handed out.
#[verifier::external_body]
fn remove_tokens(m: &mut DashMap<String, Vec<u32>>, key: &str) -> (r: Option<Vec<u32>>)
    ensures
        token_map(*final(m)) == token_map(*old(m)).remove(key@),
        match r {
            Some(flat) => token_map(*old(m)).dom().contains(key@) && flat@ == token_map(
                *old(m),
            )[key@],
            None => !token_map(*old(m)).dom().contains(key@),
        },
{
    m.remove(key).map(|entry| entry.1)
}

/// The last full semantic token data of each file, and the number of the next answer.
pub struct TokenCache {
    last: DashMap<String, Vec<u32>>,
    next_id: u64,
}

/// The data remembered of a file; none is as good as empty.
pub open spec fn remembered(m: Map<Seq<char>, Seq<u32>>, uri: Seq<char>) -> Seq<u32> {
    if m.dom().contains(uri) {
        m[uri]
    } else {
        Seq::empty()
    }
}

impl TokenCache {
    pub closed spec fn data(&self) -> Map<Seq<char>, Seq<u32>> {
        token_map(self.last)
    }

    pub closed spec fn number(&self) -> u64 {
        self.next_id
    }

    pub fn new() -> (r: Self)
        ensures
            r.data() == Map::<Seq<char>, Seq<u32>>::empty(),
            r.number() == 1,
    {
        let r = TokenCache { last: no_tokens(), next_id: 1 };
        assert(r.data() =~= Map::<Seq<char>, Seq<u32>>::empty());
        r
    }

    fn next(&mut self) -> (r: String)
        ensures
            r@ == decimal(old(self).number() as nat),
            final(self).number() == old(self).number().wrapping_add(1),
            final(self).data() == old(self).data(),
    {
        let mut id = String::new();
        push_decimal(&mut id, self.next_id as u128);
        self.next_id = self.next_id.wrapping_add(1);
        assert(id@ =~= decimal(old(self).number() as nat));
        id
    }

    /// Remembers the tokens of a file; the result is the id of this answer.
    pub fn full(&mut self, uri: &str, tokens: &[SemanticToken]) -> (r: String)
        ensures
            r@ == decimal(old(self).number() as nat),
            final(self).number() == old(self).number().wrapping_add(1),
            final(self).data() == old(self).data().insert(uri@, flattened(tokens@)),
    {
        let id = self.next();
        insert_tokens(&mut self.last, uri.to_owned(), tokens_to_flat(tokens));
        id
    }

    /// Remembers the tokens of a file; the result is the id of this answer, and
    /// what changed since the last one.
    pub fn full_delta(&mut self, uri: &str, tokens: &[SemanticToken]) -> (r: (
        String,
        Option<TokensEdit>,
    ))
        ensures
            r.0@ == decimal(old(self).number() as nat),
            final(self).number() == old(self).number().wrapping_add(1),
            final(self).data() == old(self).data().insert(uri@, flattened(tokens@)),
            is_delta(r.1, remembered(old(self).data(), uri@), flattened(tokens@)),
    {
        let new_flat = tokens_to_flat(tokens);
        let id = self.next();
        let ghost before = self.data();
        let old_flat: Vec<u32> = match remove_tokens(&mut self.last, uri) {
            Some(flat) => flat,
            None => Vec::new(),
        };
        assert(old_flat@ =~= remembered(before, uri@));
        let edit = tokens_delta(&old_flat, &new_flat);
        insert_tokens(&mut self.last, uri.to_owned(), new_flat);
        assert(self.data() =~= before.insert(uri@, flattened(tokens@)));
        (id, edit)
    }

    /// Forgets a file.
    pub fn forget(&mut self, uri: &str)
        ensures
            final(self).data() == old(self).data().remove(uri@),
            final(self).number() == old(self).number(),
    {
        let _ = remove_tokens(&mut self.last, uri);
    }

    /// A file has a new URI: what is remembered moves with it.
    pub fn moved(&mut self, from: &str, to: &str)
        ensures
            final(self).number() == old(self).number(),
            final(self).data() == (if old(self).data().dom().contains(from@) {
                old(self).data().remove(from@).insert(to@, old(self).data()[from@])
            } else {
                old(self).data()
            }),
    {
        let ghost before = self.data();
        if let Some(flat) = remove_tokens(&mut self.last, from) {
            insert_tokens(&mut self.last, to.to_owned(), flat);
        } else {
            assert(self.data() =~= before);
        }
    }
}

} // verus!
