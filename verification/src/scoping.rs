//! The scoping rules of Fennel, as functions on the state of an analysis.
//!
//! Each rule says what reading a form adds to what is known: which names it
//! defines, which names it refers to, which scopes it opens, and what it warns
//! about.
use vstd::prelude::*;

use crate::analyzer::{
    scopes_nest, DefKind, DefinitionView, ScopeView, SymbolView, WarningView,
};
use crate::hooks::Instruction;
use crate::lexer::{merged, Span};
use crate::names::{has_name, value_of, with_value};
use crate::parser::{head_name, AstNode, Form};
use crate::strings::{decimal, root_of, texts};

verus! {

/// What is known in the middle of an analysis.
#[verifier::ext_equal]
pub ghost struct State {
    pub defs: Map<u32, DefinitionView>,
    pub refs: Map<u32, u32>,
    pub syms: Seq<SymbolView>,
    pub scopes: Seq<ScopeView>,
    pub warnings: Seq<WarningView>,
    pub modules: Seq<(Seq<char>, Seq<char>)>,
    pub requires_at: Map<u32, Seq<char>>,
    pub macro_calls: Seq<(u32, Option<Seq<char>>, Seq<char>)>,
    /// The functions with a rest parameter, and where it stands among their parameters.
    pub rest_params: Map<u32, usize>,
    /// What hooks offer as completions, and where.
    pub offers: Seq<(Span, Seq<char>)>,
    /// The open scopes, the innermost last.
    pub open: Seq<usize>,
    /// The definitions that are the target of a `set`.
    pub mutated: Set<u32>,
    /// Inside the arguments of a macro call.
    pub in_macro: bool,
}

/// The instructions of the hooks, by the start of the macro call.
pub type Hooks = Map<u32, Vec<Instruction>>;

/// How many scopes the first `k` instructions leave open; none where one of them
/// closes a scope that they did not open.
pub open spec fn left_open(instructions: Seq<Instruction>, k: int) -> Option<nat>
    decreases k,
{
    if 0 < k <= instructions.len() {
        match (left_open(instructions, k - 1), instructions[k - 1]) {
            (Some(n), Instruction::ScopeOpen { .. }) => Some(n + 1),
            (Some(n), Instruction::ScopeClose) => if n > 0 {
                Some((n - 1) as nat)
            } else {
                None
            },
            (n, _) => n,
        }
    } else {
        Some(0)
    }
}

/// The instructions of each hook close the scopes that they open, and no others.
#[verifier::opaque]
pub open spec fn balanced(h: Hooks) -> bool {
    forall|k: u32| #[trigger]
        h.dom().contains(k) ==> left_open(h[k]@, h[k]@.len() as int) == Some(0nat)
}

// ── Names and scopes ────────────────────────────────────────────────────────

pub open spec fn symbol_of(n: AstNode) -> Option<Seq<char>> {
    match n.node {
        Form::Symbol(s) => Some(s@),
        _ => None,
    }
}

/// The text of a keyword or a string.
pub open spec fn text_of_key(n: AstNode) -> Option<Seq<char>> {
    match n.node {
        Form::Keyword(s) => Some(s@),
        Form::Str(s) => Some(s@),
        _ => None,
    }
}

pub open spec fn items_of_sequence(n: AstNode) -> Option<Seq<AstNode>> {
    match n.node {
        Form::Sequence(v) => Some(v@),
        _ => None,
    }
}

pub open spec fn push_scope(st: State, span: Span) -> State {
    State {
        scopes: st.scopes.push(
            ScopeView {
                span,
                bindings: Seq::empty(),
                defined: Seq::empty(),
                parent: if st.open.len() > 0 {
                    Some(st.open.last())
                } else {
                    None
                },
            },
        ),
        open: st.open.push(st.scopes.len() as usize),
        ..st
    }
}

pub open spec fn pop_scope(st: State) -> State {
    State {
        open: if st.open.len() > 0 {
            st.open.drop_last()
        } else {
            st.open
        },
        ..st
    }
}

/// The binding of a name in a scope or in the scopes around it.
pub open spec fn find_from(scopes: Seq<ScopeView>, idx: Option<usize>, name: Seq<char>) -> Option<
    u32,
>
    decreases
            (match idx {
                Some(i) => i + 1,
                None => 0,
            }),
{
    match idx {
        None => None,
        Some(i) => match value_of(scopes[i as int].bindings, name) {
            Some(byte) => Some(byte),
            None => match scopes[i as int].parent {
                Some(p) => if p < i {
                    find_from(scopes, Some(p), name)
                } else {
                    None
                },
                None => None,
            },
        },
    }
}

pub open spec fn innermost(st: State) -> Option<usize> {
    if st.open.len() > 0 {
        Some(st.open.last())
    } else {
        None
    }
}

/// The definition that a name stands for here.
pub open spec fn lookup(st: State, name: Seq<char>) -> Option<u32> {
    find_from(st.scopes, innermost(st), name)
}

pub open spec fn def_at(st: State, name: Seq<char>) -> Option<DefinitionView> {
    match lookup(st, name) {
        Some(byte) => if st.defs.dom().contains(byte) {
            Some(st.defs[byte])
        } else {
            None
        },
        None => None,
    }
}

pub open spec fn new_definition(name: Seq<char>, kind: DefKind, span: Span) -> DefinitionView {
    DefinitionView {
        name,
        kind,
        span,
        params: None,
        doc: None,
        variadic: false,
        returns_multiple: false,
        table_fields: None,
        source_module: None,
    }
}

pub open spec fn span_of_def(defs: Map<u32, DefinitionView>, byte: u32) -> Option<Span> {
    if defs.dom().contains(byte) {
        Some(defs[byte].span)
    } else {
        None
    }
}

pub open spec fn quoted(name: Seq<char>) -> Seq<char> {
    seq!['`'] + name + seq!['`']
}

pub open spec fn warning(message: Seq<char>, span: Span, related_span: Option<Span>) -> WarningView {
    WarningView { message, span, related_span }
}

/// A definition of `name` at `span`, in the innermost scope. A name that this
/// scope has already is reported, except for `_`.
pub open spec fn define(st: State, name: Seq<char>, span: Span, kind: DefKind) -> State {
    let byte = span.start;
    let defs = st.defs.insert(byte, new_definition(name, kind, span));
    let known = State {
        defs,
        syms: st.syms.push(
            SymbolView { span, name, def_byte: Some(byte), is_def: true, in_macro: st.in_macro },
        ),
        ..st
    };
    if st.open.len() == 0 {
        known
    } else {
        let idx = st.open.last() as int;
        let scope = st.scopes[idx];
        State {
            warnings: if name != "_"@ && has_name(scope.bindings, name) {
                st.warnings.push(
                    warning(
                        quoted(name) + " is already defined in this scope"@,
                        span,
                        span_of_def(defs, value_of(scope.bindings, name)->0),
                    ),
                )
            } else {
                st.warnings
            },
            scopes: st.scopes.update(
                idx,
                ScopeView {
                    bindings: with_value(scope.bindings, name, byte),
                    defined: scope.defined.push((name, byte)),
                    ..scope
                },
            ),
            ..known
        }
    }
}

/// A reference to `name` at `span`; a multisym refers to its root.
pub open spec fn reference(st: State, name: Seq<char>, span: Span) -> State {
    let def_byte = lookup(st, root_of(name));
    State {
        syms: st.syms.push(
            SymbolView { span, name, def_byte, is_def: false, in_macro: st.in_macro },
        ),
        refs: match def_byte {
            Some(d) => st.refs.insert(span.start, d),
            None => st.refs,
        },
        ..st
    }
}

/// The scope that is reached from a scope by `n` steps outwards.
pub open spec fn scope_outwards(scopes: Seq<ScopeView>, idx: Option<usize>, n: nat) -> Option<usize>
    decreases n,
{
    match idx {
        Some(i) => if n == 0 {
            idx
        } else {
            scope_outwards(scopes, scopes[i as int].parent, (n - 1) as nat)
        },
        None => None,
    }
}

/// What the scope that is reached by `n` steps outwards binds a name to.
pub open spec fn bound_outwards(
    scopes: Seq<ScopeView>,
    idx: Option<usize>,
    name: Seq<char>,
    n: nat,
) -> Option<u32> {
    match scope_outwards(scopes, idx, n) {
        Some(i) => value_of(scopes[i as int].bindings, name),
        None => None,
    }
}

/// A name stands for its binding in the nearest scope that has one, going outwards;
/// for nothing where none has.
pub proof fn nearest_scope_wins(scopes: Seq<ScopeView>, idx: Option<usize>, name: Seq<char>)
    requires
        scopes_nest(scopes),
        idx matches Some(i) ==> i < scopes.len(),
    ensures
        match find_from(scopes, idx, name) {
            Some(d) => exists|n: nat|
                {
                    &&& #[trigger] bound_outwards(scopes, idx, name, n) == Some(d)
                    &&& forall|m: nat|
                        m < n ==> #[trigger] bound_outwards(scopes, idx, name, m) is None
                },
            None => forall|n: nat| #[trigger] bound_outwards(scopes, idx, name, n) is None,
        },
    decreases
            (match idx {
                Some(i) => i + 1,
                None => 0,
            }),
{
    if let Some(i) = idx {
        let here = value_of(scopes[i as int].bindings, name);
        let outer = scopes[i as int].parent;
        assert(bound_outwards(scopes, idx, name, 0) == here);
        assert forall|n: nat| n > 0 implies #[trigger] bound_outwards(scopes, idx, name, n)
            == bound_outwards(scopes, outer, name, (n - 1) as nat) by {}
        if here is None {
            nearest_scope_wins(scopes, outer, name);
            if let Some(d) = find_from(scopes, outer, name) {
                let n = choose|n: nat|
                    {
                        &&& #[trigger] bound_outwards(scopes, outer, name, n) == Some(d)
                        &&& forall|m: nat|
                            m < n ==> #[trigger] bound_outwards(scopes, outer, name, m) is None
                    };
                assert(bound_outwards(scopes, idx, name, n + 1) == Some(d));
                assert forall|m: nat| m < n + 1 implies #[trigger] bound_outwards(
                    scopes,
                    idx,
                    name,
                    m,
                ) is None by {
                    if m > 0 {
                        assert(bound_outwards(scopes, outer, name, (m - 1) as nat) is None);
                    }
                }
            } else {
                assert forall|n: nat| #[trigger] bound_outwards(scopes, idx, name, n) is None by {
                    if n > 0 {
                        assert(bound_outwards(scopes, outer, name, (n - 1) as nat) is None);
                    }
                }
            }
        }
    }
}

/// A reference adds one symbol, with its name in full, that stands for what its root
/// stands for; where that is a definition, the reference leads to it. Nothing else
/// changes.
pub proof fn reference_adds_one_symbol(st: State, name: Seq<char>, span: Span)
    ensures
        ({
            let def_byte = lookup(st, root_of(name));
            let now = reference(st, name, span);
            &&& now.syms == st.syms.push(
                SymbolView { span, name, def_byte, is_def: false, in_macro: st.in_macro },
            )
            &&& def_byte matches Some(d) ==> now.refs == st.refs.insert(span.start, d)
            &&& def_byte is None ==> now.refs == st.refs
            &&& now == (State { syms: now.syms, refs: now.refs, ..st })
            &&& now.defs == st.defs
            &&& now.scopes == st.scopes
            &&& now.warnings == st.warnings
        }),
{
}

/// A warning where a scope around the innermost one binds the name; names that
/// start with `_` may be shadowed.
pub open spec fn outer_shadow(st: State, name: Seq<char>, span: Span) -> State {
    let outer = if st.open.len() > 0 {
        st.scopes[st.open.last() as int].parent
    } else {
        None
    };
    if name.len() > 0 && name[0] == '_' {
        st
    } else {
        match find_from(st.scopes, outer, name) {
            Some(byte) => State {
                warnings: st.warnings.push(
                    warning(
                        quoted(name) + " shadows a binding from an outer scope"@,
                        span,
                        span_of_def(st.defs, byte),
                    ),
                ),
                ..st
            },
            None => st,
        }
    }
}

// ── Shapes of forms ─────────────────────────────────────────────────────────

/// The module that `(require :mod)` or `(require "mod")` names.
pub open spec fn required_module(n: AstNode) -> Option<Seq<char>> {
    match n.node {
        Form::List(forms) => if head_name(forms@) == Some("require"@) && forms@.len() >= 2 {
            text_of_key(forms@[1])
        } else {
            None
        },
        _ => None,
    }
}

/// The static keys among the pairs of a table, from index `i` on.
pub open spec fn static_keys(fields: Seq<AstNode>, i: int) -> Seq<Seq<char>>
    decreases fields.len() - i,
{
    if 0 <= i && i + 1 < fields.len() {
        match text_of_key(fields[i]) {
            Some(k) => seq![k] + static_keys(fields, i + 2),
            None => static_keys(fields, i + 2),
        }
    } else {
        Seq::empty()
    }
}

/// The static keys of a table literal; none where the node is no table.
pub open spec fn table_keys(n: AstNode) -> Seq<Seq<char>> {
    match n.node {
        Form::Table(fields) => static_keys(fields@, 0),
        _ => Seq::empty(),
    }
}

/// Whether the node, in tail position, may produce several values.
pub open spec fn tail_is_multiple(n: AstNode) -> bool
    decreases n,
{
    match n.node {
        Form::List(v) => {
            let forms = v@;
            let head = head_name(forms);
            if head == Some("values"@) {
                true
            } else if head == Some("do"@) || head == Some("when"@) || head == Some("unless"@)
                || head == Some("let"@) || head == Some("with-open"@) {
                forms.len() > 0 && tail_is_multiple(forms[forms.len() - 1])
            } else if head == Some("if"@) {
                ||| forms.len() > 2 && tail_is_multiple(forms[2])
                ||| forms.len() > 3 && tail_is_multiple(forms[3])
            } else {
                false
            }
        },
        _ => false,
    }
}

/// Whether the last argument of a call may stand for several arguments.
pub open spec fn last_may_expand(st: State, forms: Seq<AstNode>) -> bool {
    let last = forms.last();
    ||| tail_is_multiple(last)
    ||| match last.node {
        Form::List(inner) => match head_name(inner@) {
            Some(name) => match def_at(st, root_of(name)) {
                Some(d) => d.returns_multiple,
                None => false,
            },
            None => false,
        },
        _ => false,
    }
}

pub open spec fn arity_message(name: Seq<char>, expected: nat, actual: nat) -> Seq<char> {
    quoted(name) + " expects "@ + decimal(expected) + (if expected == 1 {
        " argument"@
    } else {
        " arguments"@
    }) + " but got "@ + decimal(actual)
}

/// A warning where a known function gets the wrong number of arguments.
pub open spec fn check_arity(st: State, forms: Seq<AstNode>, span: Span) -> State {
    match head_name(forms) {
        Some(name) => match def_at(st, name) {
            Some(d) => match d.params {
                Some(params) => {
                    let expected = params.len();
                    let actual = (forms.len() - 1) as nat;
                    if d.kind == DefKind::Fn && !d.variadic && actual != expected && !(actual
                        < expected && last_may_expand(st, forms)) {
                        State {
                            warnings: st.warnings.push(
                                warning(arity_message(d.name, expected, actual), span, None),
                            ),
                            ..st
                        }
                    } else {
                        st
                    }
                },
                None => st,
            },
            None => st,
        },
        None => st,
    }
}

/// The definition at `byte`, changed by `f`, if there is one.
pub open spec fn update_def(
    st: State,
    byte: u32,
    f: spec_fn(DefinitionView) -> DefinitionView,
) -> State {
    if st.defs.dom().contains(byte) {
        State { defs: st.defs.insert(byte, f(st.defs[byte])), ..st }
    } else {
        st
    }
}

/// The static keys of a table literal become the fields of the name it is bound to.
pub open spec fn set_table_fields(st: State, name: AstNode, value: AstNode) -> State {
    let fields = table_keys(value);
    if symbol_of(name) is Some && fields.len() > 0 {
        update_def(
            st,
            name.span.start,
            |d: DefinitionView| DefinitionView { table_fields: Some(fields), ..d },
        )
    } else {
        st
    }
}

// ── Patterns ────────────────────────────────────────────────────────────────

/// Binds a pattern: every name in it is defined.
pub open spec fn bind_pattern(st: State, n: AstNode, kind: DefKind) -> State
    decreases n, 1int, 0int,
{
    match n.node {
        Form::Symbol(s) => if s@ != "&"@ && s@ != "_"@ {
            define(st, s@, n.span, kind)
        } else {
            st
        },
        Form::Sequence(v) => bind_items(st, v@, 0),
        Form::List(v) => bind_items(st, v@, 0),
        Form::Table(v) => bind_fields(st, v@, 0),
        _ => st,
    }
}

/// Binds the patterns of a run, from index `i` on.
pub open spec fn bind_items(st: State, s: Seq<AstNode>, i: int) -> State
    decreases s, 0int, s.len() - i,
{
    if 0 <= i < s.len() {
        bind_items(bind_pattern(st, s[i], DefKind::Destructured), s, i + 1)
    } else {
        st
    }
}

/// `{: name}` and `{&as name}` bind the name behind the sign.
pub open spec fn signed_field(s: Seq<AstNode>, i: int) -> bool {
    &&& i + 1 < s.len()
    &&& symbol_of(s[i]) == Some(":"@) || symbol_of(s[i]) == Some("&as"@)
    &&& symbol_of(s[i + 1]) is Some
}

/// What one pair of a table pattern binds.
pub open spec fn bind_field(st: State, s: Seq<AstNode>, i: int) -> State
    decreases s, 0int, 0int,
{
    if !(0 <= i && i + 1 < s.len()) {
        st
    } else if signed_field(s, i) {
        define(st, symbol_of(s[i + 1])->0, s[i + 1].span, DefKind::Destructured)
    } else {
        match (s[i].node, s[i + 1].node) {
            (Form::Keyword(_), Form::Symbol(name)) => define(
                st,
                name@,
                s[i + 1].span,
                DefKind::Destructured,
            ),
            (Form::Keyword(_), Form::Table(_)) => bind_pattern(st, s[i + 1], DefKind::Destructured),
            (Form::Keyword(_), Form::Sequence(_)) => bind_pattern(
                st,
                s[i + 1],
                DefKind::Destructured,
            ),
            (Form::Str(_), Form::Symbol(name)) => define(
                st,
                name@,
                s[i + 1].span,
                DefKind::Destructured,
            ),
            (Form::Symbol(name), Form::Keyword(_)) => define(
                st,
                name@,
                s[i].span,
                DefKind::Destructured,
            ),
            _ => st,
        }
    }
}

/// Binds the pairs of a table pattern, from index `i` on.
pub open spec fn bind_fields(st: State, s: Seq<AstNode>, i: int) -> State
    decreases s, 1int, s.len() - i,
{
    if 0 <= i && i + 1 < s.len() {
        bind_fields(bind_field(st, s, i), s, i + 2)
    } else {
        st
    }
}

/// Binds the parameters of a function, from index `i` on.
pub open spec fn bind_params(st: State, s: Seq<AstNode>, i: int) -> State
    decreases s.len() - i,
{
    if 0 <= i < s.len() {
        let next = match s[i].node {
            Form::Symbol(name) => if name@ != "&"@ && name@ != "..."@ {
                define(st, name@, s[i].span, DefKind::Param)
            } else {
                st
            },
            Form::Sequence(_) => bind_pattern(st, s[i], DefKind::Param),
            Form::Table(_) => bind_pattern(st, s[i], DefKind::Param),
            _ => st,
        };
        bind_params(next, s, i + 1)
    } else {
        st
    }
}

/// The names of the first `k` parameters of a function.
pub open spec fn param_names(s: Seq<AstNode>, k: int) -> Seq<Seq<char>>
    decreases k,
{
    if 0 < k <= s.len() {
        let before = param_names(s, k - 1);
        match s[k - 1].node {
            Form::Symbol(name) => if name@ != "&"@ && name@ != "..."@ {
                before.push(name@)
            } else {
                before
            },
            Form::Sequence(_) => before.push("<destructured>"@),
            Form::Table(_) => before.push("<destructured>"@),
            _ => before,
        }
    } else {
        Seq::empty()
    }
}

/// `&` and `...` make a function variadic.
pub open spec fn is_rest(n: AstNode) -> bool {
    symbol_of(n) == Some("&"@) || n.node is Varargs
}

pub open spec fn is_variadic(s: Seq<AstNode>) -> bool {
    exists|i: int| 0 <= i < s.len() && is_rest(#[trigger] s[i])
}

/// How many parameters have a name before the `&`, which is looked for from index
/// `i` on; none where there is no `&`.
pub open spec fn named_before_rest(s: Seq<AstNode>, i: int) -> Option<usize>
    decreases s.len() - i,
{
    if !(0 <= i < s.len()) {
        None
    } else if symbol_of(s[i]) == Some("&"@) {
        Some(param_names(s, i).len() as usize)
    } else {
        named_before_rest(s, i + 1)
    }
}

// ── Forms ───────────────────────────────────────────────────────────────────

pub open spec fn next_u32(n: u32) -> u32 {
    if n < u32::MAX {
        (n + 1) as u32
    } else {
        0
    }
}

/// The place of the implicit arguments of `#(..)`: the sign itself.
pub open spec fn dollar_span(span: Span) -> Span {
    Span {
        start: span.start,
        end: next_u32(span.start),
        line: span.line,
        col: span.col,
        end_line: span.line,
        end_col: next_u32(span.col),
    }
}

/// The implicit arguments `$1` to `$k`.
pub open spec fn define_dollars(st: State, span: Span, k: nat) -> State
    decreases k,
{
    if k == 0 {
        define(st, "$"@, span, DefKind::Param)
    } else {
        define(
            define_dollars(st, span, (k - 1) as nat),
            seq!['$'] + decimal(k),
            span,
            DefKind::Param,
        )
    }
}

/// Reads a form.
pub open spec fn analyze(h: Hooks, st: State, n: AstNode) -> State
    decreases n, 0int, 0int,
{
    match n.node {
        Form::Symbol(name) => reference(st, name@, n.span),
        Form::List(v) => analyze_list(h, st, v@, n.span),
        Form::Table(v) => analyze_range(h, st, v@, 0, v@.len() as int),
        Form::Sequence(v) => analyze_range(h, st, v@, 0, v@.len() as int),
        Form::HashFn(body) => pop_scope(
            analyze(h, define_dollars(push_scope(st, n.span), dollar_span(n.span), 9), *body),
        ),
        Form::Quasiquote(inner) => analyze_quasi(h, st, *inner),
        _ => st,
    }
}

/// Reads the forms from `i` up to, not including, `j`.
pub open spec fn analyze_range(h: Hooks, st: State, s: Seq<AstNode>, i: int, j: int) -> State
    decreases s, 0int, j - i,
{
    if 0 <= i < j <= s.len() {
        analyze_range(h, analyze(h, st, s[i]), s, i + 1, j)
    } else {
        st
    }
}

/// Reads a quasiquoted form: only what is unquoted is code.
pub open spec fn analyze_quasi(h: Hooks, st: State, n: AstNode) -> State
    decreases n, 0int, 0int,
{
    match n.node {
        Form::Unquote(inner) => analyze(h, st, *inner),
        Form::UnquoteSplice(inner) => analyze(h, st, *inner),
        Form::List(v) => quasi_range(h, st, v@, 0),
        Form::Table(v) => quasi_range(h, st, v@, 0),
        Form::Sequence(v) => quasi_range(h, st, v@, 0),
        _ => st,
    }
}

pub open spec fn quasi_range(h: Hooks, st: State, s: Seq<AstNode>, i: int) -> State
    decreases s, 0int, s.len() - i,
{
    if 0 <= i < s.len() {
        quasi_range(h, analyze_quasi(h, st, s[i]), s, i + 1)
    } else {
        st
    }
}

/// Reads a list by the name at its head.
pub open spec fn analyze_list(h: Hooks, st: State, forms: Seq<AstNode>, span: Span) -> State
    decreases forms, 10int, 0int,
{
    let head = head_name(forms);
    if head == Some("local"@) {
        binding(h, st, forms, DefKind::Local)
    } else if head == Some("var"@) {
        binding(h, st, forms, DefKind::Var)
    } else if head == Some("global"@) {
        binding(h, st, forms, DefKind::Global)
    } else if head == Some("set"@) {
        set_form(h, st, forms)
    } else if head == Some("fn"@) || head == Some("lambda"@) || head == Some("λ"@) {
        fn_form(h, st, forms, span)
    } else if head == Some("let"@) {
        let_form(h, st, forms, span)
    } else if head == Some("do"@) {
        scoped(h, st, forms, 1, span)
    } else if head == Some("if"@) {
        analyze_range(h, st, forms, 1, forms.len() as int)
    } else if head == Some("when"@) || head == Some("unless"@) {
        scoped(h, analyze_range(h, st, forms, 1, second(forms)), forms, 2, span)
    } else if head == Some("while"@) {
        if forms.len() < 2 {
            st
        } else {
            scoped(h, analyze(h, st, forms[1]), forms, 2, span)
        }
    } else if head == Some("each"@) {
        each_form(h, st, forms, span)
    } else if head == Some("for"@) {
        for_form(h, st, forms, span)
    } else if head == Some("macro"@) {
        macro_form(h, st, forms, span)
    } else if head == Some("macros"@) {
        macros_form(st, forms)
    } else if head == Some("import-macros"@) {
        import_macros_form(st, forms)
    } else if head == Some("match"@) || head == Some("case"@) {
        if forms.len() < 2 {
            st
        } else {
            match_arms(h, analyze(h, st, forms[1]), forms, 2, span)
        }
    } else if head == Some("case-try"@) || head == Some("match-try"@) {
        if forms.len() < 2 {
            st
        } else {
            pop_scope(
                try_arms(h, push_scope(analyze(h, st, forms[1]), span), forms, 2, span),
            )
        }
    } else if head == Some("collect"@) || head == Some("icollect"@) {
        collect_form(h, st, forms, span)
    } else if head == Some("fcollect"@) {
        fcollect_form(h, st, forms, span)
    } else if head == Some("accumulate"@) {
        accumulate_form(h, st, forms, span)
    } else if head == Some("faccumulate"@) {
        faccumulate_form(h, st, forms, span)
    } else if head == Some("with-open"@) {
        with_open_form(h, st, forms, span)
    } else if head == Some("as->"@) {
        as_arrow_form(h, st, forms, span)
    } else {
        call_form(h, st, forms, span)
    }
}

/// Two, or less where there are fewer forms.
pub open spec fn second(forms: Seq<AstNode>) -> int {
    if forms.len() >= 2 {
        2
    } else {
        forms.len() as int
    }
}

/// Reads the forms from `i` on in a scope of their own.
pub open spec fn scoped(h: Hooks, st: State, forms: Seq<AstNode>, i: int, span: Span) -> State
    decreases forms, 4int, 0int,
{
    pop_scope(analyze_range(h, push_scope(st, span), forms, i, forms.len() as int))
}

/// The macro at the head of a call, with the module it comes from.
pub open spec fn called_macro(st: State, forms: Seq<AstNode>) -> Option<Option<Seq<char>>> {
    match head_name(forms) {
        Some(name) => match def_at(st, name) {
            Some(d) => if d.kind == DefKind::Macro {
                Some(d.source_module)
            } else {
                None
            },
            None => None,
        },
        None => None,
    }
}

/// Any other list: a call of a macro, which its hook describes if it has one;
/// or else a call whose arity is checked.
pub open spec fn call_form(h: Hooks, st: State, forms: Seq<AstNode>, span: Span) -> State
    decreases forms, 8int, 0int,
{
    match called_macro(st, forms) {
        Some(source_module) => {
            let noted = State {
                macro_calls: st.macro_calls.push(
                    (span.start, source_module, head_name(forms)->0),
                ),
                ..st
            };
            let called = analyze(h, noted, forms[0]);
            if h.dom().contains(span.start) {
                run_hook(h, called, h[span.start]@, 0, forms)
            } else {
                State {
                    in_macro: called.in_macro,
                    ..analyze_range(
                        h,
                        State { in_macro: true, ..called },
                        forms,
                        1,
                        forms.len() as int,
                    )
                }
            }
        },
        None => check_arity(
            analyze_range(h, st, forms, 0, forms.len() as int),
            forms,
            span,
        ),
    }
}

/// Fixed completions, offered inside a span.
pub open spec fn offers_at(span: Span, completions: Seq<Seq<char>>) -> Seq<(Span, Seq<char>)> {
    Seq::new(completions.len(), |i: int| (span, completions[i]))
}

/// Carries out the instructions of a hook, from the `i`-th on. Indices into the
/// call count from 1.
pub open spec fn run_hook(
    h: Hooks,
    st: State,
    instructions: Seq<Instruction>,
    i: int,
    forms: Seq<AstNode>,
) -> State
    decreases forms, 7int, instructions.len() - i,
{
    if 0 <= i < instructions.len() {
        let next = match instructions[i] {
            Instruction::Bind { name, span } => define(st, name@, span, DefKind::Local),
            Instruction::Analyze { index } => if 1 <= index <= forms.len() {
                analyze(h, st, forms[index - 1])
            } else {
                st
            },
            Instruction::AnalyzeFn { index } => if 1 <= index <= forms.len() {
                match forms[index - 1].node {
                    Form::List(sub) => fn_form(h, st, sub@, forms[index - 1].span),
                    _ => st,
                }
            } else {
                st
            },
            Instruction::ScopeOpen { span } => push_scope(st, span),
            Instruction::ScopeClose => pop_scope(st),
            Instruction::SubFormCompletions { index, completions } => if 1 <= index <= forms.len() {
                State {
                    offers: st.offers + offers_at(forms[index - 1].span, texts(completions@)),
                    ..st
                }
            } else {
                st
            },
            Instruction::AnalyzeChildAt { parent, child } => if 1 <= parent <= forms.len() {
                match forms[parent - 1].node {
                    Form::List(sub) => if 1 <= child <= sub@.len() {
                        analyze(h, st, sub@[child - 1])
                    } else {
                        st
                    },
                    Form::Sequence(sub) => if 1 <= child <= sub@.len() {
                        analyze(h, st, sub@[child - 1])
                    } else {
                        st
                    },
                    _ => st,
                }
            } else {
                st
            },
        };
        run_hook(h, next, instructions, i + 1, forms)
    } else {
        st
    }
}

/// `(local name val)`, `(var name val)`, `(global name val)`: the value does
/// not see the name. A required module is noted with its name. A global is the same
/// in every scope, so it shadows nothing.
pub open spec fn binding(h: Hooks, st: State, forms: Seq<AstNode>, kind: DefKind) -> State
    decreases forms, 5int, 0int,
{
    if forms.len() < 3 {
        st
    } else {
        let valued = analyze(h, st, forms[2]);
        let noted = match symbol_of(forms[1]) {
            Some(name) => note_require(
                if kind == DefKind::Global {
                    valued
                } else {
                    outer_shadow(valued, name, forms[1].span)
                },
                name,
                forms[1].span,
                required_module(forms[2]),
            ),
            None => valued,
        };
        set_table_fields(bind_pattern(noted, forms[1], kind), forms[1], forms[2])
    }
}

pub open spec fn note_require(
    st: State,
    name: Seq<char>,
    span: Span,
    module: Option<Seq<char>>,
) -> State {
    match module {
        Some(m) => State {
            modules: with_value(st.modules, name, m),
            requires_at: st.requires_at.insert(span.start, m),
            ..st
        },
        None => st,
    }
}

/// What a `set` of `name` says about its definition.
pub open spec fn note_set(st: State, name: Seq<char>, span: Span) -> State {
    match lookup(st, root_of(name)) {
        Some(byte) => if st.defs.dom().contains(byte) {
            let d = st.defs[byte];
            if d.kind == DefKind::Local || d.kind == DefKind::Fn {
                State {
                    warnings: st.warnings.push(
                        warning(
                            quoted(d.name)
                                + " is immutable; use `var` instead of `local` to allow mutation"@,
                            span,
                            None,
                        ),
                    ),
                    ..st
                }
            } else if d.kind == DefKind::Var {
                State { mutated: st.mutated.insert(byte), ..st }
            } else {
                st
            }
        } else {
            st
        },
        None => st,
    }
}

/// `(set name val)`.
pub open spec fn set_form(h: Hooks, st: State, forms: Seq<AstNode>) -> State
    decreases forms, 5int, 0int,
{
    if forms.len() < 3 {
        st
    } else {
        let target = match symbol_of(forms[1]) {
            Some(name) => reference(note_set(st, name, forms[1].span), name, forms[1].span),
            None => st,
        };
        analyze(h, target, forms[2])
    }
}

/// Where the parameters of a function stand: behind its name, if it has one.
pub open spec fn params_index(forms: Seq<AstNode>) -> int {
    if symbol_of(forms[1]) is Some {
        2
    } else {
        1
    }
}

/// The parameters of a function, if it has a parameter list.
pub open spec fn params_of(forms: Seq<AstNode>) -> Option<Seq<AstNode>> {
    let i = params_index(forms);
    if i < forms.len() {
        items_of_sequence(forms[i])
    } else {
        None
    }
}

/// Where the body of a function starts.
pub open spec fn body_index(forms: Seq<AstNode>) -> int {
    if params_of(forms) is Some {
        params_index(forms) + 1
    } else {
        params_index(forms)
    }
}

/// The docstring of a function: a string that opens its body.
pub open spec fn docstring(forms: Seq<AstNode>) -> Option<Seq<char>> {
    let i = body_index(forms);
    if i < forms.len() {
        match forms[i].node {
            Form::Str(s) => Some(s@),
            _ => None,
        }
    } else {
        None
    }
}

/// What is known of a function from its form.
pub open spec fn described(d: DefinitionView, forms: Seq<AstNode>) -> DefinitionView {
    let params = match params_of(forms) {
        Some(p) => p,
        None => Seq::empty(),
    };
    DefinitionView {
        params: Some(param_names(params, params.len() as int)),
        doc: docstring(forms),
        variadic: is_variadic(params),
        returns_multiple: body_index(forms) < forms.len() && tail_is_multiple(forms.last()),
        ..d
    }
}

/// A function with a rest parameter is noted as such.
pub open spec fn note_rest(st: State, byte: u32, forms: Seq<AstNode>) -> State {
    match params_of(forms) {
        Some(params) => match named_before_rest(params, 0) {
            Some(n) => State { rest_params: st.rest_params.insert(byte, n), ..st },
            None => st,
        },
        None => st,
    }
}

/// `(fn name? [params] body...)`: the name is defined outside, the parameters
/// inside.
pub open spec fn fn_form(h: Hooks, st: State, forms: Seq<AstNode>, span: Span) -> State
    decreases forms, 5int, 0int,
{
    if forms.len() < 2 {
        st
    } else {
        let named = match symbol_of(forms[1]) {
            Some(name) => define(st, name, forms[1].span, DefKind::Fn),
            None => st,
        };
        let opened = push_scope(named, span);
        let bound = match params_of(forms) {
            Some(params) => bind_params(opened, params, 0),
            None => opened,
        };
        let patched = if symbol_of(forms[1]) is Some {
            note_rest(
                update_def(bound, forms[1].span.start, |d: DefinitionView| described(d, forms)),
                forms[1].span.start,
                forms,
            )
        } else {
            bound
        };
        pop_scope(analyze_range(h, patched, forms, body_index(forms), forms.len() as int))
    }
}

/// Reads the second of each pair, from index `i` on.
pub open spec fn pair_values(h: Hooks, st: State, s: Seq<AstNode>, i: int) -> State
    decreases s, 1int, s.len() - i,
{
    if 0 <= i && i + 1 < s.len() {
        pair_values(h, analyze(h, st, s[i + 1]), s, i + 2)
    } else {
        st
    }
}

/// Binds the first of each pair, from index `i` on.
pub open spec fn pair_names(st: State, s: Seq<AstNode>, i: int) -> State
    decreases s.len() - i,
{
    if 0 <= i && i + 1 < s.len() {
        pair_names(bind_pattern(st, s[i], DefKind::Local), s, i + 2)
    } else {
        st
    }
}

/// The bindings of a `let`, from index `i` on: each value sees the names before it.
pub open spec fn let_pairs(h: Hooks, st: State, s: Seq<AstNode>, i: int) -> State
    decreases s, 1int, s.len() - i,
{
    if 0 <= i && i + 1 < s.len() {
        let valued = analyze(h, st, s[i + 1]);
        let checked = match symbol_of(s[i]) {
            Some(name) => outer_shadow(valued, name, s[i].span),
            None => valued,
        };
        let bound = bind_pattern(checked, s[i], DefKind::Local);
        let_pairs(h, set_table_fields(bound, s[i], s[i + 1]), s, i + 2)
    } else {
        st
    }
}

/// `(let [k1 v1 ...] body...)` and the named `(let name [k1 v1 ...] body...)`,
/// whose values see none of the names.
pub open spec fn let_form(h: Hooks, st: State, forms: Seq<AstNode>, span: Span) -> State
    decreases forms, 5int, 0int,
{
    if forms.len() < 2 {
        st
    } else {
        let opened = push_scope(st, span);
        let named = if forms.len() >= 3 && symbol_of(forms[1]) is Some {
            items_of_sequence(forms[2])
        } else {
            None
        };
        match named {
            Some(bindings) => {
                let valued = pair_values(h, opened, bindings, 0);
                let looped = define(
                    valued,
                    symbol_of(forms[1])->0,
                    forms[1].span,
                    DefKind::Local,
                );
                let bound = pair_names(looped, bindings, 0);
                pop_scope(analyze_range(h, bound, forms, 3, forms.len() as int))
            },
            None => {
                let bound = match items_of_sequence(forms[1]) {
                    Some(bindings) => let_pairs(h, opened, bindings, 0),
                    None => opened,
                };
                pop_scope(analyze_range(h, bound, forms, 2, forms.len() as int))
            },
        }
    }
}

/// The first index at or after `i` that holds one of two symbols, or the length.
pub open spec fn modifier_at(s: Seq<AstNode>, i: int, a: Seq<char>, b: Seq<char>) -> int
    decreases s.len() - i,
{
    if 0 <= i < s.len() && symbol_of(s[i]) != Some(a) && symbol_of(s[i]) != Some(b) {
        modifier_at(s, i + 1, a, b)
    } else {
        i
    }
}

/// Binds the patterns from `i` up to, not including, `j` as loop variables.
pub open spec fn loop_vars(st: State, s: Seq<AstNode>, i: int, j: int) -> State
    decreases j - i,
{
    if 0 <= i < j <= s.len() {
        loop_vars(bind_pattern(st, s[i], DefKind::LoopVar), s, i + 1, j)
    } else {
        st
    }
}

/// Reads what stands behind a modifier at `p`, if anything does.
pub open spec fn behind(h: Hooks, st: State, s: Seq<AstNode>, p: int) -> State
    decreases s, 1int, 0int,
{
    if 0 <= p && p + 1 < s.len() {
        analyze(h, st, s[p + 1])
    } else {
        st
    }
}

/// An iterator clause: loop variables from `i` on, then the iterator, which
/// ends at `j`. The iterator does not see the variables.
pub open spec fn iterated(h: Hooks, st: State, s: Seq<AstNode>, i: int, j: int) -> State
    decreases s, 1int, 0int,
{
    if 0 <= i < j <= s.len() {
        loop_vars(analyze(h, st, s[j - 1]), s, i, j - 1)
    } else {
        st
    }
}

/// `(each [k v iter &until cond?] body...)`.
pub open spec fn each_form(h: Hooks, st: State, forms: Seq<AstNode>, span: Span) -> State
    decreases forms, 5int, 0int,
{
    if forms.len() < 2 {
        st
    } else {
        let opened = push_scope(st, span);
        let bound = match items_of_sequence(forms[1]) {
            Some(binds) => {
                let end = modifier_at(binds, 0, "&until"@, "&until"@);
                behind(h, iterated(h, opened, binds, 0, end), binds, end)
            },
            None => opened,
        };
        pop_scope(analyze_range(h, bound, forms, 2, forms.len() as int))
    }
}

/// `(for [var start stop step?] body...)`: the range does not see the variable.
pub open spec fn for_form(h: Hooks, st: State, forms: Seq<AstNode>, span: Span) -> State
    decreases forms, 5int, 0int,
{
    if forms.len() < 3 {
        st
    } else {
        let opened = push_scope(st, span);
        let bound = match items_of_sequence(forms[1]) {
            Some(binds) => if binds.len() >= 3 {
                bind_pattern(
                    analyze_range(h, opened, binds, 1, binds.len() as int),
                    binds[0],
                    DefKind::LoopVar,
                )
            } else {
                opened
            },
            None => opened,
        };
        pop_scope(analyze_range(h, bound, forms, 2, forms.len() as int))
    }
}

/// `(macro name [params] body...)`: like a function, but a macro.
pub open spec fn macro_form(h: Hooks, st: State, forms: Seq<AstNode>, span: Span) -> State
    decreases forms, 6int, 0int,
{
    if forms.len() < 3 {
        st
    } else {
        let read = fn_form(h, st, forms, span);
        if symbol_of(forms[1]) is Some {
            update_def(
                read,
                forms[1].span.start,
                |d: DefinitionView| DefinitionView { kind: DefKind::Macro, ..d },
            )
        } else {
            read
        }
    }
}

/// The macros that the pairs of a table define, from index `i` on.
pub open spec fn macro_pairs(st: State, s: Seq<AstNode>, i: int) -> State
    decreases s.len() - i,
{
    if 0 <= i && i + 1 < s.len() {
        let next = match symbol_of(s[i]) {
            Some(name) => define(st, name, s[i].span, DefKind::Macro),
            None => st,
        };
        macro_pairs(next, s, i + 2)
    } else {
        st
    }
}

/// `(macros {name fn ...})`.
pub open spec fn macros_form(st: State, forms: Seq<AstNode>) -> State {
    if forms.len() < 2 {
        st
    } else {
        match forms[1].node {
            Form::Table(fields) => macro_pairs(st, fields@, 0),
            _ => st,
        }
    }
}

pub open spec fn import_macro(st: State, n: AstNode, module: Option<Seq<char>>) -> State {
    match symbol_of(n) {
        Some(name) => update_def(
            define(st, name, n.span, DefKind::Macro),
            n.span.start,
            |d: DefinitionView| DefinitionView { source_module: module, ..d },
        ),
        None => st,
    }
}

/// The macros that a table imports, from index `i` on: the second of each pair,
/// and a name that stands alone at the end.
pub open spec fn import_fields(
    st: State,
    s: Seq<AstNode>,
    i: int,
    module: Option<Seq<char>>,
) -> State
    decreases s.len() - i,
{
    if 0 <= i && i + 1 < s.len() {
        import_fields(import_macro(st, s[i + 1], module), s, i + 2, module)
    } else if 0 <= i < s.len() {
        import_macro(st, s[i], module)
    } else {
        st
    }
}

/// `(import-macros {:remote local} :module)`.
pub open spec fn import_macros_form(st: State, forms: Seq<AstNode>) -> State {
    if forms.len() < 2 {
        st
    } else {
        let module = if forms.len() > 2 {
            text_of_key(forms[2])
        } else {
            None
        };
        match forms[1].node {
            Form::Table(fields) => import_fields(st, fields@, 0, module),
            _ => st,
        }
    }
}

/// The arms of a `match`, from index `i` on: each pattern binds in a scope of
/// its own, in which its body is read.
pub open spec fn match_arms(h: Hooks, st: State, s: Seq<AstNode>, i: int, span: Span) -> State
    decreases s, 3int, s.len() - i,
{
    if 0 <= i && i + 1 < s.len() {
        let bound = bind_match(h, push_scope(st, span), s[i]);
        match_arms(h, pop_scope(analyze(h, bound, s[i + 1])), s, i + 2, span)
    } else {
        st
    }
}

/// The arms of a `case-try`, from index `i` on: they share a scope, up to the
/// arms behind `catch`.
pub open spec fn try_arms(h: Hooks, st: State, s: Seq<AstNode>, i: int, span: Span) -> State
    decreases s, 4int, s.len() - i,
{
    if !(0 <= i < s.len()) {
        st
    } else if symbol_of(s[i]) == Some("catch"@) {
        match_arms(h, st, s, i + 1, span)
    } else {
        let caught = match s[i].node {
            Form::List(items) => if head_name(items@) == Some("catch"@) {
                Some(items@)
            } else {
                None
            },
            _ => None,
        };
        match (caught, s[i].node) {
            (Some(_), Form::List(items)) => match_arms(h, st, items@, 1, span),
            _ => if i + 1 < s.len() {
                try_arms(h, analyze(h, bind_match(h, st, s[i]), s[i + 1]), s, i + 2, span)
            } else {
                st
            },
        }
    }
}

/// What stands behind the modifiers `&into` and `&until`, from index `i` on.
pub open spec fn modifiers(h: Hooks, st: State, s: Seq<AstNode>, i: int) -> State
    decreases s, 1int, s.len() - i,
{
    if !(0 <= i < s.len()) {
        st
    } else if (symbol_of(s[i]) == Some("&into"@) || symbol_of(s[i]) == Some("&until"@)) && i + 1
        < s.len() {
        modifiers(h, analyze(h, st, s[i + 1]), s, i + 2)
    } else {
        modifiers(h, st, s, i + 1)
    }
}

/// `(collect [k v iter &into t? &until cond?] body...)`, `(icollect ...)`.
pub open spec fn collect_form(h: Hooks, st: State, forms: Seq<AstNode>, span: Span) -> State
    decreases forms, 5int, 0int,
{
    if forms.len() < 2 {
        st
    } else {
        let opened = push_scope(st, span);
        let bound = match items_of_sequence(forms[1]) {
            Some(binds) => {
                let end = modifier_at(binds, 0, "&into"@, "&until"@);
                modifiers(h, iterated(h, opened, binds, 0, end), binds, end)
            },
            None => opened,
        };
        pop_scope(analyze_range(h, bound, forms, 2, forms.len() as int))
    }
}

/// `(fcollect [i start stop step? &until cond? &into t?] body...)`: the
/// modifiers see the loop variable, the range does not.
pub open spec fn fcollect_form(h: Hooks, st: State, forms: Seq<AstNode>, span: Span) -> State
    decreases forms, 5int, 0int,
{
    if forms.len() < 2 {
        st
    } else {
        let opened = push_scope(st, span);
        let bound = match items_of_sequence(forms[1]) {
            Some(binds) => if binds.len() > 0 {
                let end = modifier_at(binds, 0, "&into"@, "&until"@);
                let ranged = analyze_range(h, opened, binds, 1, end);
                let looped = bind_pattern(ranged, binds[0], DefKind::LoopVar);
                let guarded = behind(
                    h,
                    looped,
                    binds,
                    modifier_at(binds, 0, "&until"@, "&until"@),
                );
                behind(h, guarded, binds, modifier_at(binds, 0, "&into"@, "&into"@))
            } else {
                opened
            },
            None => opened,
        };
        pop_scope(analyze_range(h, bound, forms, 2, forms.len() as int))
    }
}

/// `(accumulate [acc init vars... iter &until cond?] body...)`.
pub open spec fn accumulate_form(h: Hooks, st: State, forms: Seq<AstNode>, span: Span) -> State
    decreases forms, 5int, 0int,
{
    if forms.len() < 2 {
        st
    } else {
        let opened = push_scope(st, span);
        let bound = match items_of_sequence(forms[1]) {
            Some(binds) => if binds.len() >= 2 {
                let end = modifier_at(binds, 0, "&until"@, "&until"@);
                let acc = bind_pattern(
                    analyze(h, opened, binds[1]),
                    binds[0],
                    DefKind::Local,
                );
                behind(h, iterated(h, acc, binds, 2, end), binds, end)
            } else {
                opened
            },
            None => opened,
        };
        pop_scope(analyze_range(h, bound, forms, 2, forms.len() as int))
    }
}

/// `(faccumulate [acc init var start stop step? &until cond?] body...)`.
pub open spec fn faccumulate_form(h: Hooks, st: State, forms: Seq<AstNode>, span: Span) -> State
    decreases forms, 5int, 0int,
{
    if forms.len() < 2 {
        st
    } else {
        let opened = push_scope(st, span);
        let bound = match items_of_sequence(forms[1]) {
            Some(binds) => if binds.len() >= 5 {
                let end = modifier_at(binds, 0, "&until"@, "&until"@);
                let acc = bind_pattern(
                    analyze(h, opened, binds[1]),
                    binds[0],
                    DefKind::Local,
                );
                let ranged = analyze_range(h, acc, binds, 3, end);
                let looped = bind_pattern(ranged, binds[2], DefKind::LoopVar);
                behind(h, looped, binds, end)
            } else {
                opened
            },
            None => opened,
        };
        pop_scope(analyze_range(h, bound, forms, 2, forms.len() as int))
    }
}

/// The bindings of a `with-open`, from index `i` on.
pub open spec fn open_pairs(h: Hooks, st: State, s: Seq<AstNode>, i: int) -> State
    decreases s, 1int, s.len() - i,
{
    if 0 <= i && i + 1 < s.len() {
        open_pairs(
            h,
            bind_pattern(analyze(h, st, s[i + 1]), s[i], DefKind::Local),
            s,
            i + 2,
        )
    } else {
        st
    }
}

/// `(with-open [name expr ...] body...)`.
pub open spec fn with_open_form(h: Hooks, st: State, forms: Seq<AstNode>, span: Span) -> State
    decreases forms, 5int, 0int,
{
    if forms.len() < 2 {
        st
    } else {
        let opened = push_scope(st, span);
        let bound = match items_of_sequence(forms[1]) {
            Some(binds) => open_pairs(h, opened, binds, 0),
            None => opened,
        };
        pop_scope(analyze_range(h, bound, forms, 2, forms.len() as int))
    }
}

/// `(as-> val name form ...)`.
pub open spec fn as_arrow_form(h: Hooks, st: State, forms: Seq<AstNode>, span: Span) -> State
    decreases forms, 5int, 0int,
{
    if forms.len() < 3 {
        st
    } else {
        let opened = push_scope(analyze(h, st, forms[1]), span);
        let bound = match symbol_of(forms[2]) {
            Some(name) => define(opened, name, forms[2].span, DefKind::Local),
            None => opened,
        };
        pop_scope(analyze_range(h, bound, forms, 3, forms.len() as int))
    }
}

// ── Match patterns ──────────────────────────────────────────────────────────

/// Names that a match pattern does not bind: discards and modifiers.
pub open spec fn is_discard(name: Seq<char>) -> bool {
    (name.len() > 0 && name[0] == '_') || name == "&"@ || name == "&as"@ || name == "&into"@
}

/// Binds the names of a match pattern; the guards of `where` are read.
pub open spec fn bind_match(h: Hooks, st: State, n: AstNode) -> State
    decreases n, 1int, 0int,
{
    match n.node {
        Form::Symbol(s) => if is_discard(s@) {
            st
        } else {
            define(st, s@, n.span, DefKind::Local)
        },
        Form::List(v) => {
            let items = v@;
            let head = head_name(items);
            if head == Some("where"@) {
                if items.len() >= 2 {
                    analyze_range(
                        h,
                        bind_match(h, st, items[1]),
                        items,
                        2,
                        items.len() as int,
                    )
                } else {
                    st
                }
            } else if head == Some("or"@) {
                match_items(h, st, items, 1)
            } else {
                match_items(h, st, items, 0)
            }
        },
        Form::Sequence(v) => match_sequence(h, st, v@, 0),
        Form::Table(v) => match_fields(h, st, v@, 0),
        _ => st,
    }
}

/// Binds the patterns of a run, from index `i` on.
pub open spec fn match_items(h: Hooks, st: State, s: Seq<AstNode>, i: int) -> State
    decreases s, 1int, s.len() - i,
{
    if 0 <= i < s.len() {
        match_items(h, bind_match(h, st, s[i]), s, i + 1)
    } else {
        st
    }
}

/// Binds the patterns of a sequence, from index `i` on: `&as` and `&` bind what
/// stands behind them, and what stands behind `&until` and `&into` is left out.
pub open spec fn match_sequence(h: Hooks, st: State, s: Seq<AstNode>, i: int) -> State
    decreases s, 1int, s.len() - i,
{
    if !(0 <= i < s.len()) {
        st
    } else if symbol_of(s[i]) == Some("&as"@) || symbol_of(s[i]) == Some("&"@) {
        if i + 1 < s.len() {
            match_sequence(h, bind_match(h, st, s[i + 1]), s, i + 2)
        } else {
            st
        }
    } else if symbol_of(s[i]) == Some("&until"@) || symbol_of(s[i]) == Some("&into"@) {
        if i + 2 <= s.len() {
            match_sequence(h, st, s, i + 2)
        } else {
            st
        }
    } else {
        match_sequence(h, bind_match(h, st, s[i]), s, i + 1)
    }
}

/// Binds the values of a table pattern, from index `i` on.
pub open spec fn match_fields(h: Hooks, st: State, s: Seq<AstNode>, i: int) -> State
    decreases s, 1int, s.len() - i,
{
    if 0 <= i && i + 1 < s.len() {
        match_fields(h, bind_match(h, st, s[i + 1]), s, i + 2)
    } else {
        st
    }
}

// ── Whole files ─────────────────────────────────────────────────────────────

pub open spec fn nothing_known() -> State {
    State {
        defs: Map::empty(),
        refs: Map::empty(),
        syms: Seq::empty(),
        scopes: Seq::empty(),
        warnings: Seq::empty(),
        modules: Seq::empty(),
        requires_at: Map::empty(),
        macro_calls: Seq::empty(),
        rest_params: Map::empty(),
        offers: Seq::empty(),
        open: Seq::empty(),
        mutated: Set::empty(),
        in_macro: false,
    }
}

/// The span of the outermost scope: it holds every byte.
pub open spec fn file_span(ast: Seq<AstNode>) -> Span {
    let whole = if ast.len() > 0 {
        merged(ast[0].span, ast.last().span)
    } else {
        Span { start: 0, end: 0, line: 0, col: 0, end_line: 0, end_col: 0 }
    };
    Span { start: 0, end: u32::MAX, ..whole }
}

/// What is known after reading all the forms of a file.
pub open spec fn read_file(h: Hooks, ast: Seq<AstNode>) -> State {
    analyze_range(h, push_scope(nothing_known(), file_span(ast)), ast, 0, ast.len() as int)
}

/// The elements of a set below `n`, in ascending order.
pub open spec fn ascending(s: Set<u32>, n: nat) -> Seq<u32>
    decreases n,
{
    if n == 0 {
        Seq::empty()
    } else if n <= 0x1_0000_0000 && s.contains((n - 1) as u32) {
        ascending(s, (n - 1) as nat).push((n - 1) as u32)
    } else {
        ascending(s, (n - 1) as nat)
    }
}

/// All the elements of a set, in ascending order.
pub open spec fn in_order(s: Set<u32>) -> Seq<u32> {
    ascending(s, 0x1_0000_0000)
}

/// The definitions that some reference resolves to.
pub open spec fn referenced(st: State) -> Set<u32> {
    st.refs.values()
}

pub open spec fn starts_with(s: Seq<char>, c: char) -> bool {
    s.len() > 0 && s[0] == c
}

/// The kinds of definitions that a file may hold in vain.
pub enum Idle {
    Unmutated,
    UnusedRequire,
    UnusedLocal,
    UnusedParam,
}

/// The warning about the definition at `byte`, if it is idle in the given way.
pub open spec fn idle_warning(st: State, idle: Idle, byte: u32) -> Option<WarningView> {
    let d = st.defs[byte];
    let unread = !referenced(st).contains(byte);
    match idle {
        Idle::Unmutated => if d.kind == DefKind::Var && !st.mutated.contains(byte) {
            Some(
                warning(
                    quoted(d.name) + " is never mutated; use `local` instead of `var`"@,
                    d.span,
                    None,
                ),
            )
        } else {
            None
        },
        Idle::UnusedRequire => if st.defs.dom().contains(byte) && unread {
            Some(
                warning(
                    quoted(d.name) + " (require :"@ + st.requires_at[byte]
                        + ") is required but never used"@,
                    d.span,
                    None,
                ),
            )
        } else {
            None
        },
        Idle::UnusedLocal => if d.kind == DefKind::Local && unread && !starts_with(d.name, '_')
            && !st.requires_at.dom().contains(byte) {
            Some(warning(quoted(d.name) + " is defined but never used"@, d.span, None))
        } else {
            None
        },
        Idle::UnusedParam => if d.kind == DefKind::Param && unread && !starts_with(d.name, '_')
            && !starts_with(d.name, '<') && !starts_with(d.name, '$') {
            Some(warning("parameter "@ + quoted(d.name) + " is unused"@, d.span, None))
        } else {
            None
        },
    }
}

/// The warnings about the first `k` of some definitions.
pub open spec fn idle_warnings(st: State, idle: Idle, bytes: Seq<u32>, k: int) -> Seq<WarningView>
    decreases k,
{
    if 0 < k <= bytes.len() {
        let before = idle_warnings(st, idle, bytes, k - 1);
        match idle_warning(st, idle, bytes[k - 1]) {
            Some(w) => before.push(w),
            None => before,
        }
    } else {
        Seq::empty()
    }
}

pub open spec fn all_idle(st: State, idle: Idle, bytes: Seq<u32>) -> Seq<WarningView> {
    idle_warnings(st, idle, bytes, bytes.len() as int)
}

/// All the warnings of a file: those of reading it, and those about idle
/// definitions, in the order of the text.
pub open spec fn file_warnings(st: State) -> Seq<WarningView> {
    let defs = in_order(st.defs.dom());
    let modules = in_order(st.requires_at.dom());
    st.warnings + all_idle(st, Idle::Unmutated, defs) + all_idle(
        st,
        Idle::UnusedRequire,
        modules,
    ) + all_idle(st, Idle::UnusedLocal, defs) + all_idle(st, Idle::UnusedParam, defs)
}

/// Puts a symbol behind all those that do not start after it.
pub open spec fn insert_symbol(s: Seq<SymbolView>, x: SymbolView) -> Seq<SymbolView>
    decreases s.len(),
{
    if s.len() > 0 && s.last().span.start > x.span.start {
        insert_symbol(s.drop_last(), x).push(s.last())
    } else {
        s.push(x)
    }
}

/// The symbols in the order of their starts; those that start together keep their order.
pub open spec fn sorted_symbols(s: Seq<SymbolView>) -> Seq<SymbolView>
    decreases s.len(),
{
    if s.len() == 0 {
        s
    } else {
        insert_symbol(sorted_symbols(s.drop_last()), s.last())
    }
}

} // verus!
