//! Which symbols of a file the analysis has to list, by where they stand in its forms.
use vstd::prelude::*;

use crate::analyzer::{analysis, sorted_symbols_facts, DefKind, DefinitionView, SymbolView};
use crate::hooks::Instruction;
use crate::lexer::Span;
use crate::parser::{head_name, AstNode, Form};
use crate::scoping::{
    accumulate_form, analyze, analyze_list, analyze_quasi, analyze_range, as_arrow_form, behind,
    bind_field, bind_fields, bind_items, bind_match, bind_params, bind_pattern, binding, body_index,
    call_form, called_macro, check_arity, collect_form, define, define_dollars, described,
    dollar_span, each_form, faccumulate_form, fcollect_form, file_span, fn_form, for_form,
    import_fields, import_macro, import_macros_form, is_discard, items_of_sequence, iterated,
    let_form, let_pairs, loop_vars, macro_pairs, match_arms, match_fields, match_items,
    match_sequence, modifier_at, modifiers, note_require, note_rest, note_set, nothing_known,
    offers_at, open_pairs, outer_shadow, pair_names, pair_values, params_of, pop_scope, push_scope,
    quasi_range, read_file, reference, required_module, run_hook, second, set_form,
    set_table_fields, signed_field, symbol_of, text_of_key, try_arms, update_def, Hooks, State,
};
use crate::strings::{decimal, texts};

verus! {

// ── Listed symbols ──────────────────────────────────────────────────────────

/// A symbol of the text: where it stands, its name, and whether it is defined there.
pub type Entry = (Span, Seq<char>, bool);

/// The symbols that a list of symbols holds.
pub open spec fn listed(syms: Seq<SymbolView>) -> Set<Entry> {
    Set::new(
        |e: Entry|
            exists|k: int|
                0 <= k < syms.len() && (#[trigger] syms[k]).span == e.0 && syms[k].name == e.1
                    && syms[k].is_def == e.2,
    )
}

/// The symbol `n` is listed as a use of its name.
pub open spec fn used(n: AstNode, all: Set<Entry>) -> bool {
    symbol_of(n) matches Some(name) ==> all.contains((n.span, name, false))
}

/// The symbol `n` is listed as a definition of its name.
pub open spec fn named(n: AstNode, all: Set<Entry>) -> bool {
    symbol_of(n) matches Some(name) ==> all.contains((n.span, name, true))
}

// ── Shapes of lists ─────────────────────────────────────────────────────────

/// What kind of form a list is.
pub enum Shape {
    Binding,
    Assignment,
    Function,
    Let,
    Block,
    Each,
    For,
    Macro,
    Macros,
    ImportMacros,
    Match,
    Try,
    Collect,
    Fcollect,
    Accumulate,
    Faccumulate,
    WithOpen,
    Threaded,
    Call,
}

/// The kind of a list, by the name at its head.
pub open spec fn shape(forms: Seq<AstNode>) -> Shape {
    match head_name(forms) {
        None => Shape::Call,
        Some(name) => if name == "local"@ || name == "var"@ || name == "global"@ {
            Shape::Binding
        } else if name == "set"@ {
            Shape::Assignment
        } else if name == "fn"@ || name == "lambda"@ || name == "λ"@ {
            Shape::Function
        } else if name == "let"@ {
            Shape::Let
        } else if name == "do"@ || name == "if"@ || name == "when"@ || name == "unless"@ || name
            == "while"@ {
            Shape::Block
        } else if name == "each"@ {
            Shape::Each
        } else if name == "for"@ {
            Shape::For
        } else if name == "macro"@ {
            Shape::Macro
        } else if name == "macros"@ {
            Shape::Macros
        } else if name == "import-macros"@ {
            Shape::ImportMacros
        } else if name == "match"@ || name == "case"@ {
            Shape::Match
        } else if name == "case-try"@ || name == "match-try"@ {
            Shape::Try
        } else if name == "collect"@ || name == "icollect"@ {
            Shape::Collect
        } else if name == "fcollect"@ {
            Shape::Fcollect
        } else if name == "accumulate"@ {
            Shape::Accumulate
        } else if name == "faccumulate"@ {
            Shape::Faccumulate
        } else if name == "with-open"@ {
            Shape::WithOpen
        } else if name == "as->"@ {
            Shape::Threaded
        } else {
            Shape::Call
        },
    }
}

/// The forms inside a list, a table or a sequence.
pub open spec fn items(n: AstNode) -> Seq<AstNode> {
    match n.node {
        Form::List(v) => v@,
        Form::Table(v) => v@,
        Form::Sequence(v) => v@,
        _ => Seq::empty(),
    }
}

pub open spec fn has_item(s: Seq<AstNode>, i: int) -> bool {
    0 <= i < s.len()
}

/// The form is the symbol `name`.
pub open spec fn is_symbol(n: AstNode, name: Seq<char>) -> bool {
    symbol_of(n) == Some(name)
}

/// None of the first `k` forms is one of two symbols.
pub open spec fn free_of(s: Seq<AstNode>, k: int, a: Seq<char>, b: Seq<char>) -> bool {
    forall|m: int|
        0 <= m < k && m < s.len() ==> !is_symbol(#[trigger] s[m], a) && !is_symbol(s[m], b)
}

/// The iterator of a loop stands last, before any modifier.
pub open spec fn is_iterator(s: Seq<AstNode>, j: int, a: Seq<char>, b: Seq<char>) -> bool {
    &&& 0 <= j < s.len()
    &&& free_of(s, j + 1, a, b)
    &&& j + 1 < s.len() ==> is_symbol(s[j + 1], a) || is_symbol(s[j + 1], b)
}

/// The variables of a loop stand before its iterator.
pub open spec fn is_loop_var(s: Seq<AstNode>, j: int, a: Seq<char>, b: Seq<char>) -> bool {
    0 <= j && j + 1 < s.len() && free_of(s, j + 2, a, b)
}

/// What stands behind the first modifier `a`.
pub open spec fn is_behind(s: Seq<AstNode>, j: int, a: Seq<char>) -> bool {
    1 <= j < s.len() && is_symbol(s[j - 1], a) && free_of(s, j - 1, a, a)
}

/// What stands behind a modifier `a` or `b`, unless that stands behind one itself.
pub open spec fn is_modified(s: Seq<AstNode>, j: int, a: Seq<char>, b: Seq<char>) -> bool {
    &&& 1 <= j < s.len()
    &&& is_symbol(s[j - 1], a) || is_symbol(s[j - 1], b)
    &&& j >= 2 ==> !is_symbol(s[j - 2], a) && !is_symbol(s[j - 2], b)
}

/// The parameter list of a function: behind its name, if it has one.
pub open spec fn is_parameters(forms: Seq<AstNode>, i: int) -> bool {
    &&& 1 <= i < forms.len()
    &&& forms[i].node is Sequence
    &&& i == 1 || (i == 2 && symbol_of(forms[1]) is Some)
}

/// The bindings of a `let`: behind its name, if it has one.
pub open spec fn is_bindings(forms: Seq<AstNode>, i: int) -> bool {
    is_parameters(forms, i)
}

/// `catch` and `(catch ...)` end the arms of a `case-try`.
pub open spec fn is_catch(n: AstNode) -> bool {
    is_symbol(n, "catch"@) || (n.node is List && head_name(items(n)) == Some("catch"@))
}

/// None of the patterns before index `k` is a `catch`.
pub open spec fn before_catch(forms: Seq<AstNode>, k: int) -> bool {
    forall|m: int|
        2 <= m < k && m < forms.len() && m % 2 == 0 ==> !is_catch(#[trigger] forms[m])
}

/// The symbol `catch` that ends the arms of a `case-try`.
pub open spec fn catches(forms: Seq<AstNode>, c: int) -> bool {
    2 <= c < forms.len() && c % 2 == 0 && is_symbol(forms[c], "catch"@) && before_catch(forms, c)
}

/// The list `(catch ...)` that ends the arms of a `case-try`.
pub open spec fn catch_list(forms: Seq<AstNode>, c: int) -> bool {
    &&& 2 <= c < forms.len()
    &&& c % 2 == 0
    &&& forms[c].node is List
    &&& head_name(items(forms[c])) == Some("catch"@)
    &&& before_catch(forms, c)
}

/// Index `i` stands behind the symbol `catch`, at an even distance if `even` holds.
pub open spec fn behind_catch(forms: Seq<AstNode>, i: int, even: bool) -> bool {
    exists|c: int| #[trigger] catches(forms, c) && c < i && even == ((i - c) % 2 == 0)
}

// ── Positions ───────────────────────────────────────────────────────────────

/// The `i`-th form of a list is code.
pub open spec fn is_code(forms: Seq<AstNode>, i: int) -> bool {
    &&& 0 <= i < forms.len()
    &&& match shape(forms) {
        Shape::Binding => i == 2,
        Shape::Assignment => i == 2 || (i == 1 && forms.len() >= 3 && symbol_of(forms[1]) is Some),
        Shape::Function => i >= 1 && !is_name(forms, i) && !is_parameters(forms, i),
        Shape::Macro => i >= 1 && forms.len() >= 3 && !is_name(forms, i) && !is_parameters(
            forms,
            i,
        ),
        Shape::Let => i >= 2 && !is_bindings(forms, i),
        Shape::Block => i >= 1,
        Shape::Each => i >= 2,
        Shape::For => i >= 2,
        Shape::Collect => i >= 2,
        Shape::Fcollect => i >= 2,
        Shape::Accumulate => i >= 2,
        Shape::Faccumulate => i >= 2,
        Shape::WithOpen => i >= 2,
        Shape::Match => i == 1 || (i >= 3 && i % 2 == 1),
        Shape::Try => i == 1 || (i >= 3 && i % 2 == 1 && before_catch(forms, i)) || behind_catch(
            forms,
            i,
            true,
        ),
        Shape::Threaded => forms.len() >= 3 && i != 0 && i != 2,
        Shape::Macros => false,
        Shape::ImportMacros => false,
        Shape::Call => true,
    }
}

/// The `j`-th form inside the `i`-th form of a list is code.
pub open spec fn is_inner_code(forms: Seq<AstNode>, i: int, j: int) -> bool {
    &&& 0 <= i < forms.len()
    &&& 0 <= j < items(forms[i]).len()
    &&& match shape(forms) {
        Shape::Let => is_bindings(forms, i) && j % 2 == 1,
        Shape::Try => catch_list(forms, i) && j >= 2 && j % 2 == 0,
        _ => i == 1 && forms[1].node is Sequence && is_bound_code(forms, items(forms[1]), j),
    }
}

/// The `j`-th of the bindings `s` of a loop is code.
pub open spec fn is_bound_code(forms: Seq<AstNode>, s: Seq<AstNode>, j: int) -> bool {
    match shape(forms) {
        Shape::WithOpen => j % 2 == 1,
        Shape::For => forms.len() >= 3 && s.len() >= 3 && j >= 1,
        Shape::Each => is_iterator(s, j, "&until"@, "&until"@) || is_behind(s, j, "&until"@),
        Shape::Collect => is_iterator(s, j, "&into"@, "&until"@) || is_modified(
            s,
            j,
            "&into"@,
            "&until"@,
        ),
        Shape::Fcollect => (j >= 1 && free_of(s, j + 1, "&into"@, "&until"@)) || is_behind(
            s,
            j,
            "&until"@,
        ) || is_behind(s, j, "&into"@),
        Shape::Accumulate => s.len() >= 2 && (j == 1 || (j >= 2 && is_iterator(
            s,
            j,
            "&until"@,
            "&until"@,
        )) || is_behind(s, j, "&until"@)),
        Shape::Faccumulate => s.len() >= 5 && (j == 1 || (j >= 3 && free_of(
            s,
            j + 1,
            "&until"@,
            "&until"@,
        )) || is_behind(s, j, "&until"@)),
        _ => false,
    }
}

/// The `i`-th form of a list is a name that the list defines.
pub open spec fn is_name(forms: Seq<AstNode>, i: int) -> bool {
    &&& 0 <= i < forms.len()
    &&& symbol_of(forms[i]) is Some
    &&& match shape(forms) {
        Shape::Function => i == 1,
        Shape::Macro => i == 1 && forms.len() >= 3,
        Shape::Let => i == 1 && is_bindings(forms, 2),
        Shape::Threaded => i == 2,
        _ => false,
    }
}

/// The `j`-th form inside the `i`-th form of a list is a name that the list defines.
pub open spec fn is_inner_name(forms: Seq<AstNode>, i: int, j: int) -> bool {
    &&& 0 <= i < forms.len()
    &&& 0 <= j < items(forms[i]).len()
    &&& match shape(forms) {
        Shape::Function => is_parameters(forms, i) && !is_symbol(items(forms[i])[j], "&"@)
            && !is_symbol(items(forms[i])[j], "..."@),
        Shape::Macro => forms.len() >= 3 && is_parameters(forms, i) && !is_symbol(
            items(forms[i])[j],
            "&"@,
        ) && !is_symbol(items(forms[i])[j], "..."@),
        Shape::Macros => i == 1 && forms[1].node is Table && j % 2 == 0 && j + 1 < items(
            forms[1],
        ).len(),
        Shape::ImportMacros => i == 1 && forms[1].node is Table && (j % 2 == 1 || j + 1 == items(
            forms[1],
        ).len()),
        _ => false,
    }
}

/// The `i`-th form of a list is a pattern whose names the list binds.
pub open spec fn is_pattern(forms: Seq<AstNode>, i: int) -> bool {
    shape(forms) is Binding && i == 1 && forms.len() >= 3
}

/// The `j`-th form inside the `i`-th form of a list is a pattern whose names the list
/// binds.
pub open spec fn is_inner_pattern(forms: Seq<AstNode>, i: int, j: int) -> bool {
    &&& 0 <= i < forms.len()
    &&& 0 <= j < items(forms[i]).len()
    &&& match shape(forms) {
        Shape::Function => is_parameters(forms, i) && (items(forms[i])[j].node is Sequence
            || items(forms[i])[j].node is Table),
        Shape::Macro => forms.len() >= 3 && is_parameters(forms, i) && (items(forms[i])[j].node
            is Sequence || items(forms[i])[j].node is Table),
        Shape::Let => is_bindings(forms, i) && j % 2 == 0 && j + 1 < items(forms[i]).len(),
        _ => i == 1 && forms[1].node is Sequence && is_bound_pattern(forms, items(forms[1]), j),
    }
}

/// The `j`-th of the bindings `s` of a loop is a pattern.
pub open spec fn is_bound_pattern(forms: Seq<AstNode>, s: Seq<AstNode>, j: int) -> bool {
    match shape(forms) {
        Shape::WithOpen => j % 2 == 0 && j + 1 < s.len(),
        Shape::For => forms.len() >= 3 && s.len() >= 3 && j == 0,
        Shape::Each => is_loop_var(s, j, "&until"@, "&until"@),
        Shape::Collect => is_loop_var(s, j, "&into"@, "&until"@),
        Shape::Fcollect => j == 0,
        Shape::Accumulate => s.len() >= 2 && (j == 0 || (j >= 2 && is_loop_var(
            s,
            j,
            "&until"@,
            "&until"@,
        ))),
        Shape::Faccumulate => s.len() >= 5 && (j == 0 || j == 2),
        _ => false,
    }
}

/// The `i`-th form of a list is the pattern of an arm.
pub open spec fn is_arm(forms: Seq<AstNode>, i: int) -> bool {
    &&& 2 <= i
    &&& i + 1 < forms.len()
    &&& match shape(forms) {
        Shape::Match => i % 2 == 0,
        Shape::Try => (i % 2 == 0 && before_catch(forms, i + 1)) || behind_catch(forms, i, false),
        _ => false,
    }
}

/// The `j`-th form inside the `(catch ...)` of a `case-try` is the pattern of an arm.
pub open spec fn is_inner_arm(forms: Seq<AstNode>, i: int, j: int) -> bool {
    &&& shape(forms) is Try
    &&& catch_list(forms, i)
    &&& 1 <= j
    &&& j + 1 < items(forms[i]).len()
    &&& j % 2 == 1
}

/// The `i`-th form inside the pattern of an arm is a pattern too.
pub open spec fn is_subpattern(n: AstNode, i: int) -> bool {
    &&& 0 <= i < items(n).len()
    &&& match n.node {
        Form::List(_) => if head_name(items(n)) == Some("where"@) {
            i == 1
        } else {
            head_name(items(n)) == Some("or"@) ==> i >= 1
        },
        Form::Sequence(_) => {
            &&& !is_symbol(items(n)[i], "&until"@)
            &&& i >= 1 ==> !is_symbol(items(n)[i - 1], "&until"@) && !is_symbol(
                items(n)[i - 1],
                "&into"@,
            )
        },
        _ => i % 2 == 1,
    }
}

/// The `i`-th form inside the pattern of an arm is a guard.
pub open spec fn is_guard(n: AstNode, i: int) -> bool {
    &&& n.node is List
    &&& head_name(items(n)) == Some("where"@)
    &&& 2 <= i < items(n).len()
}

// ── Coverage ────────────────────────────────────────────────────────────────

/// Every symbol in the code `n` is listed as a use of its name, and every name that it
/// defines as a definition. A macro call that a hook describes is left aside.
pub open spec fn covered(hooked: Set<u32>, n: AstNode, all: Set<Entry>) -> bool
    decreases n, 0int,
{
    match n.node {
        Form::Symbol(_) => used(n, all),
        Form::List(v) => (shape(v@) is Call && hooked.contains(n.span.start) && v@.len() > 0
            && covered(hooked, v@[0], all)) || covered_list(hooked, v@, all),
        Form::Table(v) => forall|i: int| #[trigger]
            has_item(v@, i) ==> covered(hooked, v@[i], all),
        Form::Sequence(v) => forall|i: int| #[trigger]
            has_item(v@, i) ==> covered(hooked, v@[i], all),
        Form::HashFn(body) => covered(hooked, *body, all),
        Form::Quasiquote(inner) => covered_template(hooked, *inner, all),
        _ => true,
    }
}

/// Everything in the forms of a file is covered.
pub open spec fn covered_file(hooked: Set<u32>, ast: Seq<AstNode>, all: Set<Entry>) -> bool {
    forall|i: int| 0 <= i < ast.len() ==> covered(hooked, #[trigger] ast[i], all)
}

/// In a quasiquoted form, what is unquoted is covered.
pub open spec fn covered_template(hooked: Set<u32>, n: AstNode, all: Set<Entry>) -> bool
    decreases n, 0int,
{
    match n.node {
        Form::Unquote(inner) => covered(hooked, *inner, all),
        Form::UnquoteSplice(inner) => covered(hooked, *inner, all),
        Form::List(v) => forall|i: int| #[trigger]
            has_item(v@, i) ==> covered_template(hooked, v@[i], all),
        Form::Table(v) => forall|i: int| #[trigger]
            has_item(v@, i) ==> covered_template(hooked, v@[i], all),
        Form::Sequence(v) => forall|i: int| #[trigger]
            has_item(v@, i) ==> covered_template(hooked, v@[i], all),
        _ => true,
    }
}

/// Everything in a list is covered, by the place where it stands.
pub open spec fn covered_list(hooked: Set<u32>, forms: Seq<AstNode>, all: Set<Entry>) -> bool
    decreases forms, 1int,
{
    &&& forall|i: int| #[trigger] is_code(forms, i) ==> covered(hooked, forms[i], all)
    &&& forall|i: int, j: int| #[trigger]
        is_inner_code(forms, i, j) ==> covered(hooked, items(forms[i])[j], all)
    &&& forall|i: int| #[trigger] is_name(forms, i) ==> named(forms[i], all)
    &&& forall|i: int, j: int| #[trigger]
        is_inner_name(forms, i, j) ==> named(items(forms[i])[j], all)
    &&& forall|i: int| #[trigger] is_pattern(forms, i) ==> bound(forms[i], all)
    &&& forall|i: int, j: int| #[trigger]
        is_inner_pattern(forms, i, j) ==> bound(items(forms[i])[j], all)
    &&& forall|i: int| #[trigger] is_arm(forms, i) ==> covered_arm(hooked, forms[i], all)
    &&& forall|i: int, j: int| #[trigger]
        is_inner_arm(forms, i, j) ==> covered_arm(hooked, items(forms[i])[j], all)
}

/// The pattern of an arm: its names are defined, and its guards are covered.
pub open spec fn covered_arm(hooked: Set<u32>, n: AstNode, all: Set<Entry>) -> bool
    decreases n, 0int,
{
    &&& symbol_of(n) matches Some(name) ==> !is_discard(name) ==> named(n, all)
    &&& forall|i: int| #[trigger]
        is_subpattern(n, i) ==> covered_arm(hooked, items(n)[i], all)
    &&& forall|i: int| #[trigger] is_guard(n, i) ==> covered(hooked, items(n)[i], all)
}

/// Every name of a pattern is defined.
pub open spec fn bound(n: AstNode, all: Set<Entry>) -> bool
    decreases n,
{
    match n.node {
        Form::Symbol(_) => is_symbol(n, "&"@) || is_symbol(n, "_"@) || named(n, all),
        Form::Sequence(v) => forall|i: int| #[trigger] has_item(v@, i) ==> bound(v@[i], all),
        Form::List(v) => forall|i: int| #[trigger] has_item(v@, i) ==> bound(v@[i], all),
        Form::Table(v) => forall|i: int| #[trigger]
            has_item(v@, i) && i % 2 == 0 && i + 1 < v@.len() ==> {
                let key = v@[i];
                let value = v@[i + 1];
                &&& is_symbol(key, ":"@) || is_symbol(key, "&as"@) || key.node is Keyword
                    || key.node is Str ==> named(value, all)
                &&& key.node is Keyword && (value.node is Table || value.node is Sequence)
                    ==> bound(value, all)
                &&& key.node is Symbol && value.node is Keyword ==> named(key, all)
            },
        _ => true,
    }
}

// ── What reading adds ───────────────────────────────────────────────────────

/// All the symbols are among `all`.
#[verifier::opaque]
spec fn within(syms: Seq<SymbolView>, all: Set<Entry>) -> bool {
    listed(syms).subset_of(all)
}

proof fn one_more_within(syms: Seq<SymbolView>, x: SymbolView, all: Set<Entry>)
    requires
        within(syms.push(x), all),
    ensures
        within(syms, all),
        all.contains((x.span, x.name, x.is_def)),
{
    reveal(within);
    let now = syms.push(x);
    assert(now[syms.len() as int] == x);
    assert(listed(now).contains((x.span, x.name, x.is_def)));
    assert forall|e: Entry| listed(syms).contains(e) implies all.contains(e) by {
        let k = choose|k: int|
            0 <= k < syms.len() && (#[trigger] syms[k]).span == e.0 && syms[k].name == e.1
                && syms[k].is_def == e.2;
        assert(now[k] == syms[k]);
        assert(listed(now).contains(e));
    }
}

proof fn define_covers(st: State, name: Seq<char>, span: Span, kind: DefKind, all: Set<Entry>)
    requires
        within(define(st, name, span, kind).syms, all),
    ensures
        within(st.syms, all),
        all.contains((span, name, true)),
{
    let x = SymbolView {
        span,
        name,
        def_byte: Some(span.start),
        is_def: true,
        in_macro: st.in_macro,
    };
    one_more_within(st.syms, x, all);
}

proof fn reference_covers(st: State, name: Seq<char>, span: Span, all: Set<Entry>)
    requires
        within(reference(st, name, span).syms, all),
    ensures
        within(st.syms, all),
        all.contains((span, name, false)),
{
    one_more_within(st.syms, reference(st, name, span).syms.last(), all);
}

// ── Patterns ────────────────────────────────────────────────────────────────

proof fn pattern_covers(st: State, n: AstNode, kind: DefKind, all: Set<Entry>)
    requires
        within(bind_pattern(st, n, kind).syms, all),
    ensures
        within(st.syms, all),
        bound(n, all),
    decreases n, 1int, 0int,
{
    match n.node {
        Form::Symbol(s) => {
            if s@ != "&"@ && s@ != "_"@ {
                define_covers(st, s@, n.span, kind, all);
            }
        },
        Form::Sequence(v) => items_cover(st, v@, 0, all),
        Form::List(v) => items_cover(st, v@, 0, all),
        Form::Table(v) => fields_cover(st, v@, 0, all),
        _ => {},
    }
}

proof fn items_cover(st: State, s: Seq<AstNode>, i: int, all: Set<Entry>)
    requires
        0 <= i,
        within(bind_items(st, s, i).syms, all),
    ensures
        within(st.syms, all),
        forall|k: int| #[trigger] has_item(s, k) && k >= i ==> bound(s[k], all),
    decreases s, 0int, s.len() - i,
{
    if i < s.len() {
        items_cover(bind_pattern(st, s[i], DefKind::Destructured), s, i + 1, all);
        pattern_covers(st, s[i], DefKind::Destructured, all);
    }
}

/// One pair of a table pattern.
spec fn bound_pair(key: AstNode, value: AstNode, all: Set<Entry>) -> bool {
    &&& is_symbol(key, ":"@) || is_symbol(key, "&as"@) || key.node is Keyword || key.node is Str
        ==> named(value, all)
    &&& key.node is Keyword && (value.node is Table || value.node is Sequence) ==> bound(value, all)
    &&& key.node is Symbol && value.node is Keyword ==> named(key, all)
}

proof fn field_covers(st: State, s: Seq<AstNode>, i: int, all: Set<Entry>)
    requires
        0 <= i,
        i + 1 < s.len(),
        within(bind_field(st, s, i).syms, all),
    ensures
        within(st.syms, all),
        bound_pair(s[i], s[i + 1], all),
    decreases s, 0int, 0int,
{
    let kind = DefKind::Destructured;
    if signed_field(s, i) {
        define_covers(st, symbol_of(s[i + 1])->0, s[i + 1].span, kind, all);
    } else {
        match (s[i].node, s[i + 1].node) {
            (Form::Keyword(_), Form::Symbol(name)) => {
                define_covers(st, name@, s[i + 1].span, kind, all)
            },
            (Form::Keyword(_), Form::Table(_)) => pattern_covers(st, s[i + 1], kind, all),
            (Form::Keyword(_), Form::Sequence(_)) => pattern_covers(st, s[i + 1], kind, all),
            (Form::Str(_), Form::Symbol(name)) => {
                define_covers(st, name@, s[i + 1].span, kind, all)
            },
            (Form::Symbol(name), Form::Keyword(_)) => {
                define_covers(st, name@, s[i].span, kind, all)
            },
            _ => {},
        }
    }
}

proof fn fields_cover(st: State, s: Seq<AstNode>, i: int, all: Set<Entry>)
    requires
        0 <= i,
        i % 2 == 0,
        within(bind_fields(st, s, i).syms, all),
    ensures
        within(st.syms, all),
        forall|k: int| #[trigger]
            has_item(s, k) && k % 2 == 0 && k >= i && k + 1 < s.len() ==> bound_pair(
                s[k],
                s[k + 1],
                all,
            ),
    decreases s, 1int, s.len() - i,
{
    if i + 1 < s.len() {
        fields_cover(bind_field(st, s, i), s, i + 2, all);
        field_covers(st, s, i, all);
    }
}

proof fn params_cover(st: State, s: Seq<AstNode>, i: int, all: Set<Entry>)
    requires
        0 <= i,
        within(bind_params(st, s, i).syms, all),
    ensures
        within(st.syms, all),
        forall|k: int| #[trigger]
            has_item(s, k) && k >= i ==> {
                &&& is_symbol(s[k], "&"@) || is_symbol(s[k], "..."@) || named(s[k], all)
                &&& s[k].node is Sequence || s[k].node is Table ==> bound(s[k], all)
            },
    decreases s.len() - i,
{
    if i < s.len() {
        let next = match s[i].node {
            Form::Symbol(name) => if name@ != "&"@ && name@ != "..."@ {
                define(st, name@, s[i].span, DefKind::Param)
            } else {
                st
            },
            Form::Sequence(_) => bind_pattern(st, s[i], DefKind::Param),
            Form::Table(_) => bind_pattern(st, s[i], DefKind::Param),
            _ => st,
        };
        params_cover(next, s, i + 1, all);
        match s[i].node {
            Form::Symbol(name) => if name@ != "&"@ && name@ != "..."@ {
                define_covers(st, name@, s[i].span, DefKind::Param, all);
            },
            Form::Sequence(_) => pattern_covers(st, s[i], DefKind::Param, all),
            Form::Table(_) => pattern_covers(st, s[i], DefKind::Param, all),
            _ => {},
        }
    }
}

proof fn dollars_cover(st: State, span: Span, k: nat, all: Set<Entry>)
    requires
        within(define_dollars(st, span, k).syms, all),
    ensures
        within(st.syms, all),
    decreases k,
{
    if k == 0 {
        define_covers(st, "$"@, span, DefKind::Param, all);
    } else {
        let before = define_dollars(st, span, (k - 1) as nat);
        define_covers(before, seq!['$'] + decimal(k), span, DefKind::Param, all);
        dollars_cover(st, span, (k - 1) as nat, all);
    }
}

proof fn loop_vars_cover(st: State, s: Seq<AstNode>, i: int, j: int, all: Set<Entry>)
    requires
        0 <= i,
        within(loop_vars(st, s, i, j).syms, all),
    ensures
        within(st.syms, all),
        forall|k: int| #[trigger] has_item(s, k) && i <= k < j <= s.len() ==> bound(s[k], all),
    decreases j - i,
{
    if i < j <= s.len() {
        loop_vars_cover(bind_pattern(st, s[i], DefKind::LoopVar), s, i + 1, j, all);
        pattern_covers(st, s[i], DefKind::LoopVar, all);
    }
}

proof fn pair_names_cover(st: State, s: Seq<AstNode>, i: int, all: Set<Entry>)
    requires
        0 <= i,
        i % 2 == 0,
        within(pair_names(st, s, i).syms, all),
    ensures
        within(st.syms, all),
        forall|k: int| #[trigger]
            has_item(s, k) && k >= i && k % 2 == 0 && k + 1 < s.len() ==> bound(s[k], all),
    decreases s.len() - i,
{
    if i + 1 < s.len() {
        pair_names_cover(bind_pattern(st, s[i], DefKind::Local), s, i + 2, all);
        pattern_covers(st, s[i], DefKind::Local, all);
    }
}

proof fn macro_pairs_cover(st: State, s: Seq<AstNode>, i: int, all: Set<Entry>)
    requires
        0 <= i,
        i % 2 == 0,
        within(macro_pairs(st, s, i).syms, all),
    ensures
        within(st.syms, all),
        forall|k: int| #[trigger]
            has_item(s, k) && k >= i && k % 2 == 0 && k + 1 < s.len() ==> named(s[k], all),
    decreases s.len() - i,
{
    if i + 1 < s.len() {
        match symbol_of(s[i]) {
            Some(name) => {
                macro_pairs_cover(define(st, name, s[i].span, DefKind::Macro), s, i + 2, all);
                define_covers(st, name, s[i].span, DefKind::Macro, all);
            },
            None => macro_pairs_cover(st, s, i + 2, all),
        }
    }
}

proof fn import_covers(st: State, n: AstNode, module: Option<Seq<char>>, all: Set<Entry>)
    requires
        within(import_macro(st, n, module).syms, all),
    ensures
        within(st.syms, all),
        named(n, all),
{
    if let Some(name) = symbol_of(n) {
        define_covers(st, name, n.span, DefKind::Macro, all);
    }
}

proof fn imports_cover(
    st: State,
    s: Seq<AstNode>,
    i: int,
    module: Option<Seq<char>>,
    all: Set<Entry>,
)
    requires
        0 <= i,
        i % 2 == 0,
        within(import_fields(st, s, i, module).syms, all),
    ensures
        within(st.syms, all),
        forall|k: int| #[trigger]
            has_item(s, k) && k >= i && (k % 2 == 1 || k + 1 == s.len()) ==> named(s[k], all),
    decreases s.len() - i,
{
    if i + 1 < s.len() {
        imports_cover(import_macro(st, s[i + 1], module), s, i + 2, module, all);
        import_covers(st, s[i + 1], module, all);
    } else if i < s.len() {
        import_covers(st, s[i], module, all);
    }
}

// ── Code ────────────────────────────────────────────────────────────────────

proof fn code_covers(h: Hooks, st: State, n: AstNode, all: Set<Entry>)
    requires
        within(analyze(h, st, n).syms, all),
    ensures
        within(st.syms, all),
        covered(h.dom(), n, all),
    decreases n, 0int, 0int,
{
    match n.node {
        Form::Symbol(name) => reference_covers(st, name@, n.span, all),
        Form::List(v) => list_covers(h, st, v@, n.span, all),
        Form::Table(v) => range_covers(h, st, v@, 0, v@.len() as int, all),
        Form::Sequence(v) => range_covers(h, st, v@, 0, v@.len() as int, all),
        Form::HashFn(body) => {
            let opened = push_scope(st, n.span);
            code_covers(h, define_dollars(opened, dollar_span(n.span), 9), *body, all);
            dollars_cover(opened, dollar_span(n.span), 9, all);
        },
        Form::Quasiquote(inner) => template_covers(h, st, *inner, all),
        _ => {},
    }
}

proof fn range_covers(h: Hooks, st: State, s: Seq<AstNode>, i: int, j: int, all: Set<Entry>)
    requires
        0 <= i,
        within(analyze_range(h, st, s, i, j).syms, all),
    ensures
        within(st.syms, all),
        forall|k: int| #[trigger]
            has_item(s, k) && i <= k < j <= s.len() ==> covered(h.dom(), s[k], all),
    decreases s, 0int, j - i,
{
    if i < j <= s.len() {
        range_covers(h, analyze(h, st, s[i]), s, i + 1, j, all);
        code_covers(h, st, s[i], all);
    }
}

proof fn template_covers(h: Hooks, st: State, n: AstNode, all: Set<Entry>)
    requires
        within(analyze_quasi(h, st, n).syms, all),
    ensures
        within(st.syms, all),
        covered_template(h.dom(), n, all),
    decreases n, 0int, 0int,
{
    match n.node {
        Form::Unquote(inner) => code_covers(h, st, *inner, all),
        Form::UnquoteSplice(inner) => code_covers(h, st, *inner, all),
        Form::List(v) => templates_cover(h, st, v@, 0, all),
        Form::Table(v) => templates_cover(h, st, v@, 0, all),
        Form::Sequence(v) => templates_cover(h, st, v@, 0, all),
        _ => {},
    }
}

proof fn templates_cover(h: Hooks, st: State, s: Seq<AstNode>, i: int, all: Set<Entry>)
    requires
        0 <= i,
        within(quasi_range(h, st, s, i).syms, all),
    ensures
        within(st.syms, all),
        forall|k: int| #[trigger]
            has_item(s, k) && k >= i ==> covered_template(h.dom(), s[k], all),
    decreases s, 0int, s.len() - i,
{
    if i < s.len() {
        templates_cover(h, analyze_quasi(h, st, s[i]), s, i + 1, all);
        template_covers(h, st, s[i], all);
    }
}

proof fn list_covers(h: Hooks, st: State, forms: Seq<AstNode>, span: Span, all: Set<Entry>)
    requires
        within(analyze_list(h, st, forms, span).syms, all),
    ensures
        within(st.syms, all),
        (shape(forms) is Call && h.dom().contains(span.start) && forms.len() > 0 && covered(
            h.dom(),
            forms[0],
            all,
        )) || covered_list(h.dom(), forms, all),
    decreases forms, 10int, 0int,
{
    match shape(forms) {
        Shape::Binding => {
            let kind = if head_name(forms) == Some("local"@) {
                DefKind::Local
            } else if head_name(forms) == Some("var"@) {
                DefKind::Var
            } else {
                DefKind::Global
            };
            binding_covers(h, st, forms, kind, all);
        },
        Shape::Assignment => assignment_covers(h, st, forms, all),
        Shape::Function => function_covers(h, st, forms, span, all),
        Shape::Let => let_covers(h, st, forms, span, all),
        Shape::Block => block_covers(h, st, forms, span, all),
        Shape::Each => each_covers(h, st, forms, span, all),
        Shape::For => for_covers(h, st, forms, span, all),
        Shape::Macro => {
            if forms.len() >= 3 {
                function_covers(h, st, forms, span, all);
            }
        },
        Shape::Macros => {
            if forms.len() >= 2 {
                if let Form::Table(fields) = forms[1].node {
                    macro_pairs_cover(st, fields@, 0, all);
                    inner_items(forms);
                }
            }
        },
        Shape::ImportMacros => imported_cover(h, st, forms, all),
        Shape::Match => {
            if forms.len() >= 2 {
                arms_cover(h, analyze(h, st, forms[1]), forms, 2, span, all);
                code_covers(h, st, forms[1], all);
                assert(forall|i: int| #[trigger] is_code(forms, i) ==> has_item(forms, i));
                assert(forall|i: int| #[trigger] is_arm(forms, i) ==> has_item(forms, i));
            }
        },
        Shape::Try => try_covers(h, st, forms, span, all),
        Shape::Collect => collect_covers(h, st, forms, span, all),
        Shape::Fcollect => fcollect_covers(h, st, forms, span, all),
        Shape::Accumulate => accumulate_covers(h, st, forms, span, all),
        Shape::Faccumulate => faccumulate_covers(h, st, forms, span, all),
        Shape::WithOpen => {
            if forms.len() >= 2 {
                let opened = push_scope(st, span);
                if let Some(binds) = items_of_sequence(forms[1]) {
                    range_covers(
                        h,
                        open_pairs(h, opened, binds, 0),
                        forms,
                        2,
                        forms.len() as int,
                        all,
                    );
                    open_pairs_cover(h, opened, binds, 0, all);
                } else {
                    range_covers(h, opened, forms, 2, forms.len() as int, all);
                }
                inner_items(forms);
            }
        },
        Shape::Threaded => threaded_covers(h, st, forms, span, all),
        Shape::Call => call_covers(h, st, forms, span, all),
    }
}

/// The places in a list are indices into it.
proof fn inner_items(forms: Seq<AstNode>)
    ensures
        forall|k: int| #[trigger] is_code(forms, k) ==> has_item(forms, k),
        forall|k: int, j: int| #[trigger]
            is_inner_code(forms, k, j) ==> has_item(items(forms[k]), j),
        forall|k: int, j: int| #[trigger]
            is_inner_name(forms, k, j) ==> has_item(items(forms[k]), j),
        forall|k: int, j: int| #[trigger]
            is_inner_pattern(forms, k, j) ==> has_item(items(forms[k]), j),
        forall|k: int, j: int| #[trigger]
            is_inner_arm(forms, k, j) ==> has_item(items(forms[k]), j),
        forall|k: int| #[trigger] is_arm(forms, k) ==> has_item(forms, k),
{
}

proof fn imported_cover(h: Hooks, st: State, forms: Seq<AstNode>, all: Set<Entry>)
    requires
        shape(forms) is ImportMacros,
        within(import_macros_form(st, forms).syms, all),
    ensures
        within(st.syms, all),
        covered_list(h.dom(), forms, all),
{
    if forms.len() >= 2 {
        let module = if forms.len() > 2 {
            text_of_key(forms[2])
        } else {
            None
        };
        if let Form::Table(fields) = forms[1].node {
            imports_cover(st, fields@, 0, module, all);
            inner_items(forms);
        }
    }
}

proof fn binding_covers(h: Hooks, st: State, forms: Seq<AstNode>, kind: DefKind, all: Set<Entry>)
    requires
        shape(forms) is Binding,
        within(binding(h, st, forms, kind).syms, all),
    ensures
        within(st.syms, all),
        covered_list(h.dom(), forms, all),
    decreases forms, 5int, 0int,
{
    if forms.len() >= 3 {
        let valued = analyze(h, st, forms[2]);
        let noted = match symbol_of(forms[1]) {
            Some(name) => note_require(
                if kind == DefKind::Global {
                    valued
                } else {
                    outer_shadow(valued, name, forms[1].span)
                },
                name,
                forms[1].span,
                required_module(forms[2]),
            ),
            None => valued,
        };
        pattern_covers(noted, forms[1], kind, all);
        assert(noted.syms == valued.syms);
        code_covers(h, st, forms[2], all);
    }
}

proof fn assignment_covers(h: Hooks, st: State, forms: Seq<AstNode>, all: Set<Entry>)
    requires
        shape(forms) is Assignment,
        within(set_form(h, st, forms).syms, all),
    ensures
        within(st.syms, all),
        covered_list(h.dom(), forms, all),
    decreases forms, 5int, 0int,
{
    if forms.len() >= 3 {
        match symbol_of(forms[1]) {
            Some(name) => {
                let noted = note_set(st, name, forms[1].span);
                code_covers(h, reference(noted, name, forms[1].span), forms[2], all);
                reference_covers(noted, name, forms[1].span, all);
                assert(noted.syms == st.syms);
            },
            None => code_covers(h, st, forms[2], all),
        }
    }
}

proof fn function_covers(h: Hooks, st: State, forms: Seq<AstNode>, span: Span, all: Set<Entry>)
    requires
        within(fn_form(h, st, forms, span).syms, all),
    ensures
        within(st.syms, all),
        (shape(forms) is Function || shape(forms) is Macro) ==> covered_list(
            h.dom(),
            forms,
            all,
        ),
    decreases forms, 5int, 0int,
{
    if forms.len() >= 2 {
        let named = match symbol_of(forms[1]) {
            Some(name) => define(st, name, forms[1].span, DefKind::Fn),
            None => st,
        };
        let opened = push_scope(named, span);
        let bound = match params_of(forms) {
            Some(params) => bind_params(opened, params, 0),
            None => opened,
        };
        let patched = if symbol_of(forms[1]) is Some {
            note_rest(
                update_def(bound, forms[1].span.start, |d: DefinitionView| described(d, forms)),
                forms[1].span.start,
                forms,
            )
        } else {
            bound
        };
        range_covers(h, patched, forms, body_index(forms), forms.len() as int, all);
        assert(patched.syms == bound.syms);
        if let Some(params) = params_of(forms) {
            params_cover(opened, params, 0, all);
        }
        if let Some(name) = symbol_of(forms[1]) {
            define_covers(st, name, forms[1].span, DefKind::Fn, all);
        }
        inner_items(forms);
    }
}

proof fn pair_values_cover(h: Hooks, st: State, s: Seq<AstNode>, i: int, all: Set<Entry>)
    requires
        0 <= i,
        i % 2 == 0,
        within(pair_values(h, st, s, i).syms, all),
    ensures
        within(st.syms, all),
        forall|k: int| #[trigger]
            has_item(s, k) && k >= i && k % 2 == 1 ==> covered(h.dom(), s[k], all),
    decreases s, 1int, s.len() - i,
{
    if i + 1 < s.len() {
        pair_values_cover(h, analyze(h, st, s[i + 1]), s, i + 2, all);
        code_covers(h, st, s[i + 1], all);
    }
}

proof fn let_pairs_cover(h: Hooks, st: State, s: Seq<AstNode>, i: int, all: Set<Entry>)
    requires
        0 <= i,
        i % 2 == 0,
        within(let_pairs(h, st, s, i).syms, all),
    ensures
        within(st.syms, all),
        forall|k: int| #[trigger]
            has_item(s, k) && k >= i && k % 2 == 1 ==> covered(h.dom(), s[k], all),
        forall|k: int| #[trigger]
            has_item(s, k) && k >= i && k % 2 == 0 && k + 1 < s.len() ==> bound(s[k], all),
    decreases s, 1int, s.len() - i,
{
    if i + 1 < s.len() {
        let valued = analyze(h, st, s[i + 1]);
        let checked = match symbol_of(s[i]) {
            Some(name) => outer_shadow(valued, name, s[i].span),
            None => valued,
        };
        let bound = bind_pattern(checked, s[i], DefKind::Local);
        let next = set_table_fields(bound, s[i], s[i + 1]);
        let_pairs_cover(h, next, s, i + 2, all);
        assert(next.syms == bound.syms);
        pattern_covers(checked, s[i], DefKind::Local, all);
        assert(checked.syms == valued.syms);
        code_covers(h, st, s[i + 1], all);
    }
}

proof fn open_pairs_cover(h: Hooks, st: State, s: Seq<AstNode>, i: int, all: Set<Entry>)
    requires
        0 <= i,
        i % 2 == 0,
        within(open_pairs(h, st, s, i).syms, all),
    ensures
        within(st.syms, all),
        forall|k: int| #[trigger]
            has_item(s, k) && k >= i && k % 2 == 1 ==> covered(h.dom(), s[k], all),
        forall|k: int| #[trigger]
            has_item(s, k) && k >= i && k % 2 == 0 && k + 1 < s.len() ==> bound(s[k], all),
    decreases s, 1int, s.len() - i,
{
    if i + 1 < s.len() {
        let valued = analyze(h, st, s[i + 1]);
        open_pairs_cover(h, bind_pattern(valued, s[i], DefKind::Local), s, i + 2, all);
        pattern_covers(valued, s[i], DefKind::Local, all);
        code_covers(h, st, s[i + 1], all);
    }
}

proof fn let_covers(h: Hooks, st: State, forms: Seq<AstNode>, span: Span, all: Set<Entry>)
    requires
        shape(forms) is Let,
        within(let_form(h, st, forms, span).syms, all),
    ensures
        within(st.syms, all),
        covered_list(h.dom(), forms, all),
    decreases forms, 5int, 0int,
{
    if forms.len() >= 2 {
        let opened = push_scope(st, span);
        let n = forms.len() as int;
        inner_items(forms);
        if is_bindings(forms, 2) {
            let binds = items_of_sequence(forms[2])->0;
            let name = symbol_of(forms[1])->0;
            let valued = pair_values(h, opened, binds, 0);
            let looped = define(valued, name, forms[1].span, DefKind::Local);
            range_covers(h, pair_names(looped, binds, 0), forms, 3, n, all);
            pair_names_cover(looped, binds, 0, all);
            define_covers(valued, name, forms[1].span, DefKind::Local, all);
            pair_values_cover(h, opened, binds, 0, all);
        } else {
            match items_of_sequence(forms[1]) {
                Some(binds) => {
                    range_covers(h, let_pairs(h, opened, binds, 0), forms, 2, n, all);
                    let_pairs_cover(h, opened, binds, 0, all);
                },
                None => range_covers(h, opened, forms, 2, n, all),
            }
        }
    }
}

proof fn block_covers(h: Hooks, st: State, forms: Seq<AstNode>, span: Span, all: Set<Entry>)
    requires
        shape(forms) is Block,
        within(analyze_list(h, st, forms, span).syms, all),
    ensures
        within(st.syms, all),
        covered_list(h.dom(), forms, all),
    decreases forms, 9int, 0int,
{
    let n = forms.len() as int;
    let head = head_name(forms);
    inner_items(forms);
    if head == Some("do"@) {
        range_covers(h, push_scope(st, span), forms, 1, n, all);
    } else if head == Some("if"@) {
        range_covers(h, st, forms, 1, n, all);
    } else if head == Some("when"@) || head == Some("unless"@) {
        let first = analyze_range(h, st, forms, 1, second(forms));
        range_covers(h, push_scope(first, span), forms, 2, n, all);
        range_covers(h, st, forms, 1, second(forms), all);
    } else if n >= 2 {
        range_covers(h, push_scope(analyze(h, st, forms[1]), span), forms, 2, n, all);
        code_covers(h, st, forms[1], all);
    }
}

proof fn threaded_covers(h: Hooks, st: State, forms: Seq<AstNode>, span: Span, all: Set<Entry>)
    requires
        shape(forms) is Threaded,
        within(as_arrow_form(h, st, forms, span).syms, all),
    ensures
        within(st.syms, all),
        covered_list(h.dom(), forms, all),
    decreases forms, 5int, 0int,
{
    if forms.len() >= 3 {
        let n = forms.len() as int;
        let opened = push_scope(analyze(h, st, forms[1]), span);
        inner_items(forms);
        match symbol_of(forms[2]) {
            Some(name) => {
                range_covers(
                    h,
                    define(opened, name, forms[2].span, DefKind::Local),
                    forms,
                    3,
                    n,
                    all,
                );
                define_covers(opened, name, forms[2].span, DefKind::Local, all);
            },
            None => range_covers(h, opened, forms, 3, n, all),
        }
        code_covers(h, st, forms[1], all);
    }
}

proof fn call_covers(h: Hooks, st: State, forms: Seq<AstNode>, span: Span, all: Set<Entry>)
    requires
        shape(forms) is Call,
        within(call_form(h, st, forms, span).syms, all),
    ensures
        within(st.syms, all),
        (h.dom().contains(span.start) && forms.len() > 0 && covered(h.dom(), forms[0], all))
            || covered_list(h.dom(), forms, all),
    decreases forms, 8int, 0int,
{
    let n = forms.len() as int;
    inner_items(forms);
    match called_macro(st, forms) {
        Some(source_module) => {
            let noted = State {
                macro_calls: st.macro_calls.push(
                    (span.start, source_module, head_name(forms)->0),
                ),
                ..st
            };
            let called = analyze(h, noted, forms[0]);
            if h.dom().contains(span.start) {
                hook_covers(h, called, h[span.start]@, 0, forms, all);
            } else {
                range_covers(h, State { in_macro: true, ..called }, forms, 1, n, all);
            }
            code_covers(h, noted, forms[0], all);
        },
        None => {
            let read = analyze_range(h, st, forms, 0, n);
            assert(check_arity(read, forms, span).syms == read.syms);
            range_covers(h, st, forms, 0, n, all);
        },
    }
}

proof fn hook_covers(
    h: Hooks,
    st: State,
    instructions: Seq<Instruction>,
    i: int,
    forms: Seq<AstNode>,
    all: Set<Entry>,
)
    requires
        0 <= i,
        within(run_hook(h, st, instructions, i, forms).syms, all),
    ensures
        within(st.syms, all),
    decreases forms, 7int, instructions.len() - i,
{
    if i < instructions.len() {
        match instructions[i] {
            Instruction::Bind { name, span } => {
                hook_covers(
                    h,
                    define(st, name@, span, DefKind::Local),
                    instructions,
                    i + 1,
                    forms,
                    all,
                );
                define_covers(st, name@, span, DefKind::Local, all);
            },
            Instruction::Analyze { index } => if 1 <= index <= forms.len() {
                hook_covers(h, analyze(h, st, forms[index - 1]), instructions, i + 1, forms, all);
                code_covers(h, st, forms[index - 1], all);
            } else {
                hook_covers(h, st, instructions, i + 1, forms, all);
            },
            Instruction::AnalyzeFn { index } => if 1 <= index <= forms.len() {
                match forms[index - 1].node {
                    Form::List(sub) => {
                        let span = forms[index - 1].span;
                        hook_covers(
                            h,
                            fn_form(h, st, sub@, span),
                            instructions,
                            i + 1,
                            forms,
                            all,
                        );
                        function_covers(h, st, sub@, span, all);
                    },
                    _ => hook_covers(h, st, instructions, i + 1, forms, all),
                }
            } else {
                hook_covers(h, st, instructions, i + 1, forms, all);
            },
            Instruction::ScopeOpen { span } => {
                hook_covers(h, push_scope(st, span), instructions, i + 1, forms, all)
            },
            Instruction::ScopeClose => {
                hook_covers(h, pop_scope(st), instructions, i + 1, forms, all)
            },
            Instruction::SubFormCompletions { index, completions } => if 1 <= index <= forms.len() {
                let next = State {
                    offers: st.offers + offers_at(forms[index - 1].span, texts(completions@)),
                    ..st
                };
                hook_covers(h, next, instructions, i + 1, forms, all);
            } else {
                hook_covers(h, st, instructions, i + 1, forms, all);
            },
            Instruction::AnalyzeChildAt { parent, child } => {
                let inside = 1 <= parent <= forms.len() && !(forms[parent - 1].node is Table) && 1
                    <= child <= items(forms[parent - 1]).len();
                if inside {
                    let sub = items(forms[parent - 1]);
                    hook_covers(h, analyze(h, st, sub[child - 1]), instructions, i + 1, forms, all);
                    code_covers(h, st, sub[child - 1], all);
                } else {
                    hook_covers(h, st, instructions, i + 1, forms, all);
                }
            },
        }
    }
}

// ── Loops ───────────────────────────────────────────────────────────────────

proof fn first_modifier(s: Seq<AstNode>, i: int, a: Seq<char>, b: Seq<char>)
    requires
        0 <= i <= s.len(),
    ensures
        i <= modifier_at(s, i, a, b) <= s.len(),
        forall|k: int|
            i <= k < modifier_at(s, i, a, b) ==> !is_symbol(#[trigger] s[k], a) && !is_symbol(
                s[k],
                b,
            ),
        modifier_at(s, i, a, b) < s.len() ==> {
            let m = s[modifier_at(s, i, a, b)];
            is_symbol(m, a) || is_symbol(m, b)
        },
    decreases s.len() - i,
{
    if i < s.len() && symbol_of(s[i]) != Some(a) && symbol_of(s[i]) != Some(b) {
        first_modifier(s, i + 1, a, b);
    }
}

/// Where the first modifier stands, the iterator and the variables before it, and what
/// is behind it.
proof fn places_by_modifier(s: Seq<AstNode>, j: int, a: Seq<char>, b: Seq<char>)
    requires
        0 <= j < s.len(),
    ensures
        is_iterator(s, j, a, b) ==> modifier_at(s, 0, a, b) == j + 1,
        is_loop_var(s, j, a, b) ==> j + 1 < modifier_at(s, 0, a, b),
        free_of(s, j + 1, a, b) ==> j < modifier_at(s, 0, a, b),
        is_behind(s, j, a) ==> modifier_at(s, 0, a, a) == j - 1,
        is_modified(s, j, a, b) ==> modifier_at(s, 0, a, b) <= j - 1,
        0 <= modifier_at(s, 0, a, b) <= s.len(),
{
    first_modifier(s, 0, a, b);
    first_modifier(s, 0, a, a);
    let m = modifier_at(s, 0, a, b);
    let p = modifier_at(s, 0, a, a);
    if free_of(s, j + 1, a, b) && m <= j {
        assert(!is_symbol(s[m], a));
    }
    if is_iterator(s, j, a, b) && j + 1 < s.len() && m > j + 1 {
        assert(!is_symbol(s[j + 1], a));
    }
    if is_loop_var(s, j, a, b) && m <= j + 1 {
        assert(!is_symbol(s[m], a));
    }
    if is_behind(s, j, a) {
        if p > j - 1 {
            assert(!is_symbol(s[j - 1], a));
        }
        if p < j - 1 {
            assert(!is_symbol(s[p], a));
        }
    }
    if is_modified(s, j, a, b) && m > j - 1 {
        assert(!is_symbol(s[j - 1], a));
    }
}

proof fn behind_covers(h: Hooks, st: State, s: Seq<AstNode>, p: int, all: Set<Entry>)
    requires
        within(behind(h, st, s, p).syms, all),
    ensures
        within(st.syms, all),
        0 <= p && p + 1 < s.len() ==> covered(h.dom(), s[p + 1], all),
    decreases s, 1int, 0int,
{
    if 0 <= p && p + 1 < s.len() {
        code_covers(h, st, s[p + 1], all);
    }
}

proof fn iterated_covers(h: Hooks, st: State, s: Seq<AstNode>, i: int, j: int, all: Set<Entry>)
    requires
        0 <= i,
        within(iterated(h, st, s, i, j).syms, all),
    ensures
        within(st.syms, all),
        i < j <= s.len() ==> covered(h.dom(), s[j - 1], all),
        forall|k: int| #[trigger] has_item(s, k) && i <= k < j - 1 < s.len() ==> bound(s[k], all),
    decreases s, 1int, 0int,
{
    if i < j <= s.len() {
        loop_vars_cover(analyze(h, st, s[j - 1]), s, i, j - 1, all);
        code_covers(h, st, s[j - 1], all);
    }
}

proof fn modifiers_cover(h: Hooks, st: State, s: Seq<AstNode>, i: int, all: Set<Entry>)
    requires
        0 <= i,
        within(modifiers(h, st, s, i).syms, all),
    ensures
        within(st.syms, all),
        forall|k: int| #[trigger]
            has_item(s, k) && k - 1 >= i && is_modified(s, k, "&into"@, "&until"@) ==> covered(
                h.dom(),
                s[k],
                all,
            ),
    decreases s, 1int, s.len() - i,
{
    if i < s.len() {
        if (symbol_of(s[i]) == Some("&into"@) || symbol_of(s[i]) == Some("&until"@)) && i + 1
            < s.len() {
            modifiers_cover(h, analyze(h, st, s[i + 1]), s, i + 2, all);
            code_covers(h, st, s[i + 1], all);
        } else {
            modifiers_cover(h, st, s, i + 1, all);
        }
    }
}

proof fn each_covers(h: Hooks, st: State, forms: Seq<AstNode>, span: Span, all: Set<Entry>)
    requires
        shape(forms) is Each,
        within(each_form(h, st, forms, span).syms, all),
    ensures
        within(st.syms, all),
        covered_list(h.dom(), forms, all),
    decreases forms, 5int, 0int,
{
    inner_items(forms);
    if forms.len() >= 2 {
        let n = forms.len() as int;
        let opened = push_scope(st, span);
        match items_of_sequence(forms[1]) {
            Some(binds) => {
                let end = modifier_at(binds, 0, "&until"@, "&until"@);
                let looped = iterated(h, opened, binds, 0, end);
                range_covers(h, behind(h, looped, binds, end), forms, 2, n, all);
                behind_covers(h, looped, binds, end, all);
                iterated_covers(h, opened, binds, 0, end, all);
                assert forall|i: int, j: int| #[trigger] is_inner_code(forms, i, j) implies covered(
                    h.dom(),
                    items(forms[i])[j],
                    all,
                ) by {
                    places_by_modifier(binds, j, "&until"@, "&until"@);
                }
                assert forall|i: int, j: int| #[trigger]
                    is_inner_pattern(forms, i, j) implies bound(items(forms[i])[j], all) by {
                    places_by_modifier(binds, j, "&until"@, "&until"@);
                    assert(has_item(binds, j));
                }
            },
            None => range_covers(h, opened, forms, 2, n, all),
        }
    }
}

proof fn for_covers(h: Hooks, st: State, forms: Seq<AstNode>, span: Span, all: Set<Entry>)
    requires
        shape(forms) is For,
        within(for_form(h, st, forms, span).syms, all),
    ensures
        within(st.syms, all),
        covered_list(h.dom(), forms, all),
    decreases forms, 5int, 0int,
{
    inner_items(forms);
    if forms.len() >= 3 {
        let n = forms.len() as int;
        let opened = push_scope(st, span);
        match items_of_sequence(forms[1]) {
            Some(binds) => if binds.len() >= 3 {
                let ranged = analyze_range(h, opened, binds, 1, binds.len() as int);
                let looped = bind_pattern(ranged, binds[0], DefKind::LoopVar);
                range_covers(h, looped, forms, 2, n, all);
                pattern_covers(ranged, binds[0], DefKind::LoopVar, all);
                range_covers(h, opened, binds, 1, binds.len() as int, all);
            } else {
                range_covers(h, opened, forms, 2, n, all);
            },
            None => range_covers(h, opened, forms, 2, n, all),
        }
    }
}

proof fn collect_covers(h: Hooks, st: State, forms: Seq<AstNode>, span: Span, all: Set<Entry>)
    requires
        shape(forms) is Collect,
        within(collect_form(h, st, forms, span).syms, all),
    ensures
        within(st.syms, all),
        covered_list(h.dom(), forms, all),
    decreases forms, 5int, 0int,
{
    inner_items(forms);
    if forms.len() >= 2 {
        let n = forms.len() as int;
        let opened = push_scope(st, span);
        match items_of_sequence(forms[1]) {
            Some(binds) => {
                let end = modifier_at(binds, 0, "&into"@, "&until"@);
                first_modifier(binds, 0, "&into"@, "&until"@);
                let looped = iterated(h, opened, binds, 0, end);
                range_covers(h, modifiers(h, looped, binds, end), forms, 2, n, all);
                modifiers_cover(h, looped, binds, end, all);
                iterated_covers(h, opened, binds, 0, end, all);
                assert forall|i: int, j: int| #[trigger] is_inner_code(forms, i, j) implies covered(
                    h.dom(),
                    items(forms[i])[j],
                    all,
                ) by {
                    places_by_modifier(binds, j, "&into"@, "&until"@);
                    assert(has_item(binds, j));
                }
                assert forall|i: int, j: int| #[trigger]
                    is_inner_pattern(forms, i, j) implies bound(items(forms[i])[j], all) by {
                    places_by_modifier(binds, j, "&into"@, "&until"@);
                    assert(has_item(binds, j));
                }
            },
            None => range_covers(h, opened, forms, 2, n, all),
        }
    }
}

proof fn fcollect_covers(h: Hooks, st: State, forms: Seq<AstNode>, span: Span, all: Set<Entry>)
    requires
        shape(forms) is Fcollect,
        within(fcollect_form(h, st, forms, span).syms, all),
    ensures
        within(st.syms, all),
        covered_list(h.dom(), forms, all),
    decreases forms, 5int, 0int,
{
    inner_items(forms);
    if forms.len() >= 2 {
        let n = forms.len() as int;
        let opened = push_scope(st, span);
        match items_of_sequence(forms[1]) {
            Some(binds) => if binds.len() > 0 {
                let end = modifier_at(binds, 0, "&into"@, "&until"@);
                let ranged = analyze_range(h, opened, binds, 1, end);
                let looped = bind_pattern(ranged, binds[0], DefKind::LoopVar);
                let until = modifier_at(binds, 0, "&until"@, "&until"@);
                let into = modifier_at(binds, 0, "&into"@, "&into"@);
                let guarded = behind(h, looped, binds, until);
                range_covers(h, behind(h, guarded, binds, into), forms, 2, n, all);
                behind_covers(h, guarded, binds, into, all);
                behind_covers(h, looped, binds, until, all);
                pattern_covers(ranged, binds[0], DefKind::LoopVar, all);
                range_covers(h, opened, binds, 1, end, all);
                assert forall|i: int, j: int| #[trigger] is_inner_code(forms, i, j) implies covered(
                    h.dom(),
                    items(forms[i])[j],
                    all,
                ) by {
                    places_by_modifier(binds, j, "&into"@, "&until"@);
                    places_by_modifier(binds, j, "&until"@, "&until"@);
                    assert(has_item(binds, j));
                }
            } else {
                range_covers(h, opened, forms, 2, n, all);
            },
            None => range_covers(h, opened, forms, 2, n, all),
        }
    }
}

proof fn accumulate_covers(h: Hooks, st: State, forms: Seq<AstNode>, span: Span, all: Set<Entry>)
    requires
        shape(forms) is Accumulate,
        within(accumulate_form(h, st, forms, span).syms, all),
    ensures
        within(st.syms, all),
        covered_list(h.dom(), forms, all),
    decreases forms, 5int, 0int,
{
    inner_items(forms);
    if forms.len() >= 2 {
        let n = forms.len() as int;
        let opened = push_scope(st, span);
        match items_of_sequence(forms[1]) {
            Some(binds) => if binds.len() >= 2 {
                let end = modifier_at(binds, 0, "&until"@, "&until"@);
                let valued = analyze(h, opened, binds[1]);
                let acc = bind_pattern(valued, binds[0], DefKind::Local);
                let looped = iterated(h, acc, binds, 2, end);
                range_covers(h, behind(h, looped, binds, end), forms, 2, n, all);
                behind_covers(h, looped, binds, end, all);
                iterated_covers(h, acc, binds, 2, end, all);
                pattern_covers(valued, binds[0], DefKind::Local, all);
                code_covers(h, opened, binds[1], all);
                assert forall|i: int, j: int| #[trigger] is_inner_code(forms, i, j) implies covered(
                    h.dom(),
                    items(forms[i])[j],
                    all,
                ) by {
                    places_by_modifier(binds, j, "&until"@, "&until"@);
                }
                assert forall|i: int, j: int| #[trigger]
                    is_inner_pattern(forms, i, j) implies bound(items(forms[i])[j], all) by {
                    places_by_modifier(binds, j, "&until"@, "&until"@);
                    assert(has_item(binds, j));
                }
            } else {
                range_covers(h, opened, forms, 2, n, all);
            },
            None => range_covers(h, opened, forms, 2, n, all),
        }
    }
}

proof fn faccumulate_covers(h: Hooks, st: State, forms: Seq<AstNode>, span: Span, all: Set<Entry>)
    requires
        shape(forms) is Faccumulate,
        within(faccumulate_form(h, st, forms, span).syms, all),
    ensures
        within(st.syms, all),
        covered_list(h.dom(), forms, all),
    decreases forms, 5int, 0int,
{
    inner_items(forms);
    if forms.len() >= 2 {
        let n = forms.len() as int;
        let opened = push_scope(st, span);
        match items_of_sequence(forms[1]) {
            Some(binds) => if binds.len() >= 5 {
                let end = modifier_at(binds, 0, "&until"@, "&until"@);
                let valued = analyze(h, opened, binds[1]);
                let acc = bind_pattern(valued, binds[0], DefKind::Local);
                let ranged = analyze_range(h, acc, binds, 3, end);
                let looped = bind_pattern(ranged, binds[2], DefKind::LoopVar);
                range_covers(h, behind(h, looped, binds, end), forms, 2, n, all);
                behind_covers(h, looped, binds, end, all);
                pattern_covers(ranged, binds[2], DefKind::LoopVar, all);
                range_covers(h, acc, binds, 3, end, all);
                pattern_covers(valued, binds[0], DefKind::Local, all);
                code_covers(h, opened, binds[1], all);
                assert forall|i: int, j: int| #[trigger] is_inner_code(forms, i, j) implies covered(
                    h.dom(),
                    items(forms[i])[j],
                    all,
                ) by {
                    places_by_modifier(binds, j, "&until"@, "&until"@);
                    assert(has_item(binds, j));
                }
            } else {
                range_covers(h, opened, forms, 2, n, all);
            },
            None => range_covers(h, opened, forms, 2, n, all),
        }
    }
}

// ── Arms ────────────────────────────────────────────────────────────────────

proof fn arm_covers(h: Hooks, st: State, n: AstNode, all: Set<Entry>)
    requires
        within(bind_match(h, st, n).syms, all),
    ensures
        within(st.syms, all),
        covered_arm(h.dom(), n, all),
    decreases n, 1int, 0int,
{
    let v = items(n);
    assert(forall|i: int| #[trigger] is_subpattern(n, i) ==> has_item(v, i));
    assert(forall|i: int| #[trigger] is_guard(n, i) ==> has_item(v, i));
    match n.node {
        Form::Symbol(s) => if !is_discard(s@) {
            define_covers(st, s@, n.span, DefKind::Local, all);
        },
        Form::List(v) => {
            let head = head_name(v@);
            if head == Some("where"@) {
                if v@.len() >= 2 {
                    let matched = bind_match(h, st, v@[1]);
                    range_covers(h, matched, v@, 2, v@.len() as int, all);
                    arm_covers(h, st, v@[1], all);
                }
            } else if head == Some("or"@) {
                subpatterns_cover(h, st, v@, 1, all);
            } else {
                subpatterns_cover(h, st, v@, 0, all);
            }
        },
        Form::Sequence(v) => sequence_covers(h, st, v@, 0, all),
        Form::Table(v) => values_cover(h, st, v@, 0, all),
        _ => {},
    }
}

proof fn subpatterns_cover(h: Hooks, st: State, s: Seq<AstNode>, i: int, all: Set<Entry>)
    requires
        0 <= i,
        within(match_items(h, st, s, i).syms, all),
    ensures
        within(st.syms, all),
        forall|k: int| #[trigger] has_item(s, k) && k >= i ==> covered_arm(h.dom(), s[k], all),
    decreases s, 1int, s.len() - i,
{
    if i < s.len() {
        subpatterns_cover(h, bind_match(h, st, s[i]), s, i + 1, all);
        arm_covers(h, st, s[i], all);
    }
}

proof fn values_cover(h: Hooks, st: State, s: Seq<AstNode>, i: int, all: Set<Entry>)
    requires
        0 <= i,
        i % 2 == 0,
        within(match_fields(h, st, s, i).syms, all),
    ensures
        within(st.syms, all),
        forall|k: int| #[trigger]
            has_item(s, k) && k >= i && k % 2 == 1 ==> covered_arm(h.dom(), s[k], all),
    decreases s, 1int, s.len() - i,
{
    if i + 1 < s.len() {
        values_cover(h, bind_match(h, st, s[i + 1]), s, i + 2, all);
        arm_covers(h, st, s[i + 1], all);
    }
}

/// What a sequence pattern binds, and what a sign of it needs no name for.
proof fn sequence_covers(h: Hooks, st: State, s: Seq<AstNode>, i: int, all: Set<Entry>)
    requires
        0 <= i,
        within(match_sequence(h, st, s, i).syms, all),
    ensures
        within(st.syms, all),
        forall|k: int| #[trigger]
            has_item(s, k) && k >= i && !is_symbol(s[k], "&until"@) && (k > i ==> !is_symbol(
                s[k - 1],
                "&until"@,
            ) && !is_symbol(s[k - 1], "&into"@)) ==> covered_arm(h.dom(), s[k], all),
    decreases s, 1int, s.len() - i,
{
    if i < s.len() {
        if symbol_of(s[i]) == Some("&as"@) || symbol_of(s[i]) == Some("&"@) {
            sign_is_covered(h, s[i], all);
            if i + 1 < s.len() {
                sequence_covers(h, bind_match(h, st, s[i + 1]), s, i + 2, all);
                arm_covers(h, st, s[i + 1], all);
            }
        } else if symbol_of(s[i]) == Some("&until"@) || symbol_of(s[i]) == Some("&into"@) {
            sign_is_covered(h, s[i], all);
            if i + 2 <= s.len() {
                sequence_covers(h, st, s, i + 2, all);
            }
        } else {
            sequence_covers(h, bind_match(h, st, s[i]), s, i + 1, all);
            arm_covers(h, st, s[i], all);
        }
    }
}

proof fn sign_is_covered(h: Hooks, n: AstNode, all: Set<Entry>)
    ensures
        symbol_of(n) matches Some(name) ==> is_discard(name) ==> covered_arm(h.dom(), n, all),
{
    if symbol_of(n) is Some {
        assert(items(n).len() == 0);
    }
}

proof fn arms_cover(h: Hooks, st: State, s: Seq<AstNode>, i: int, span: Span, all: Set<Entry>)
    requires
        0 <= i,
        within(match_arms(h, st, s, i, span).syms, all),
    ensures
        within(st.syms, all),
        forall|k: int| #[trigger]
            has_item(s, k) && k > i && (k - i) % 2 == 1 ==> covered(h.dom(), s[k], all),
        forall|k: int| #[trigger]
            has_item(s, k) && k >= i && (k - i) % 2 == 0 && k + 1 < s.len() ==> covered_arm(
                h.dom(),
                s[k],
                all,
            ),
    decreases s, 3int, s.len() - i,
{
    if i + 1 < s.len() {
        let opened = push_scope(st, span);
        let matched = bind_match(h, opened, s[i]);
        let read = analyze(h, matched, s[i + 1]);
        arms_cover(h, pop_scope(read), s, i + 2, span, all);
        code_covers(h, matched, s[i + 1], all);
        arm_covers(h, opened, s[i], all);
    }
}

/// The arms of a `case-try` from index `i` on are covered.
spec fn tried_from(hooked: Set<u32>, s: Seq<AstNode>, i: int, all: Set<Entry>) -> bool {
    &&& forall|k: int| #[trigger]
        has_item(s, k) && k > i && k % 2 == 1 && before_catch(s, k) ==> covered(hooked, s[k], all)
    &&& forall|k: int| #[trigger]
        has_item(s, k) && k >= i && k % 2 == 0 && k + 1 < s.len() && before_catch(s, k + 1)
            ==> covered_arm(hooked, s[k], all)
    &&& forall|c: int, k: int| #[trigger]
        catches(s, c) && #[trigger] has_item(s, k) && c < k && c >= i && (k - c) % 2 == 0
            ==> covered(hooked, s[k], all)
    &&& forall|c: int, k: int| #[trigger]
        catches(s, c) && #[trigger] has_item(s, k) && c < k && c >= i && (k - c) % 2 == 1 && k + 1
            < s.len() ==> covered_arm(hooked, s[k], all)
    &&& forall|c: int, j: int| #[trigger]
        is_inner_arm(s, c, j) && c >= i ==> covered_arm(hooked, items(s[c])[j], all)
    &&& forall|c: int, j: int| #[trigger]
        is_inner_code(s, c, j) && c >= i ==> covered(hooked, items(s[c])[j], all)
}

proof fn tried_arms_cover(h: Hooks, st: State, s: Seq<AstNode>, i: int, span: Span, all: Set<Entry>)
    requires
        2 <= i,
        i % 2 == 0,
        shape(s) is Try,
        before_catch(s, i),
        within(try_arms(h, st, s, i, span).syms, all),
    ensures
        within(st.syms, all),
        tried_from(h.dom(), s, i, all),
    decreases s, 4int, s.len() - i,
{
    inner_items(s);
    if i < s.len() {
        if is_symbol(s[i], "catch"@) {
            arms_cover(h, st, s, i + 1, span, all);
            nothing_behind_catch(s, i);
        } else if is_catch(s[i]) {
            arms_cover(h, st, items(s[i]), 1, span, all);
            nothing_behind_catch(s, i);
        } else if i + 1 < s.len() {
            let matched = bind_match(h, st, s[i]);
            tried_arms_cover(h, analyze(h, matched, s[i + 1]), s, i + 2, span, all);
            code_covers(h, matched, s[i + 1], all);
            arm_covers(h, st, s[i], all);
        }
    }
}

/// The first `catch` is the only one that counts.
proof fn nothing_behind_catch(s: Seq<AstNode>, i: int)
    requires
        2 <= i < s.len(),
        i % 2 == 0,
        is_catch(s[i]),
    ensures
        forall|k: int| k > i ==> !#[trigger] before_catch(s, k),
        forall|c: int| #[trigger] catches(s, c) ==> c <= i,
        forall|c: int| #[trigger] catch_list(s, c) ==> c <= i,
{
    assert forall|k: int| k > i implies !#[trigger] before_catch(s, k) by {
        assert(is_catch(s[i]));
    }
}

proof fn try_covers(h: Hooks, st: State, forms: Seq<AstNode>, span: Span, all: Set<Entry>)
    requires
        shape(forms) is Try,
        within(analyze_list(h, st, forms, span).syms, all),
    ensures
        within(st.syms, all),
        covered_list(h.dom(), forms, all),
    decreases forms, 9int, 0int,
{
    inner_items(forms);
    if forms.len() >= 2 {
        let first = analyze(h, st, forms[1]);
        tried_arms_cover(h, push_scope(first, span), forms, 2, span, all);
        code_covers(h, st, forms[1], all);
        assert forall|i: int| #[trigger] is_code(forms, i) implies covered(
            h.dom(),
            forms[i],
            all,
        ) by {
            if i != 1 && behind_catch(forms, i, true) {
                let c = choose|c: int| #[trigger]
                    catches(forms, c) && c < i && (true == ((i - c) % 2 == 0));
                assert(has_item(forms, i));
            }
        }
        assert forall|i: int| #[trigger] is_arm(forms, i) implies covered_arm(
            h.dom(),
            forms[i],
            all,
        ) by {
            assert(has_item(forms, i));
            if behind_catch(forms, i, false) {
                let c = choose|c: int| #[trigger]
                    catches(forms, c) && c < i && (false == ((i - c) % 2 == 0));
            }
        }
    }
}

// ── Whole files ─────────────────────────────────────────────────────────────

/// Nothing in a file is passed over. Every symbol that stands in code, at any depth, is
/// among the symbols of the analysis, with its place and its name, as a use; that
/// holds in particular of every form of an `if`, a `when` or a call. Every name that a
/// form binds is among them as a definition. Left aside are what is quoted, signs and
/// modifiers, the names at the heads of special forms, and the arguments of macro calls
/// that a hook describes.
pub proof fn every_symbol_is_listed(h: Hooks, ast: Seq<AstNode>)
    ensures
        covered_file(h.dom(), ast, listed(analysis(h, ast).syms)),
{
    let st = read_file(h, ast);
    let all = listed(analysis(h, ast).syms);
    sorted_symbols_facts(st.syms);
    assert(within(st.syms, all)) by {
        reveal(within);
        let sorted = analysis(h, ast).syms;
        assert forall|e: Entry| listed(st.syms).contains(e) implies all.contains(e) by {
            let k = choose|k: int|
                0 <= k < st.syms.len() && (#[trigger] st.syms[k]).span == e.0 && st.syms[k].name
                    == e.1 && st.syms[k].is_def == e.2;
            let x = st.syms[k];
            assert(st.syms.contains(x));
            st.syms.to_multiset_ensures();
            sorted.to_multiset_ensures();
            assert(sorted.to_multiset().count(x) > 0);
            assert(sorted.contains(x));
            let m = choose|m: int| 0 <= m < sorted.len() && sorted[m] == x;
            assert(sorted[m].span == e.0);
        }
    }
    let start = push_scope(nothing_known(), file_span(ast));
    range_covers(h, start, ast, 0, ast.len() as int, all);
    assert forall|i: int| 0 <= i < ast.len() implies covered(h.dom(), #[trigger] ast[i], all) by {
        assert(has_item(ast, i));
    }
}

} // verus!
