use std::collections::{HashMap, HashSet};

use fennel_ls::analyzer::{analyze, analyze_with_hooks, AnalysisResult, DefKind};
use fennel_ls::hooks::Instruction;
use fennel_ls::lexer::Span;
use fennel_ls::parser::Parser;

// ── Helpers ───────────────────────────────────────────────────────────────

fn analyze_src(src: &str) -> AnalysisResult {
    let (ast, _) = Parser::parse(src);
    analyze(&ast)
}

fn warnings_for(src: &str) -> Vec<String> {
    analyze_src(src).warnings.iter().map(|w| w.message.clone()).collect()
}

fn has_warning(src: &str, substr: &str) -> bool {
    warnings_for(src).iter().any(|w| w.contains(substr))
}

fn has_def(r: &AnalysisResult, name: &str) -> bool {
    r.defs.values().any(|d| d.name == name)
}

fn def_kind(r: &AnalysisResult, name: &str) -> Option<DefKind> {
    r.defs.values().find(|d| d.name == name).map(|d| d.kind.clone())
}

/// True if any unresolved reference to `name` exists.
fn is_unknown(r: &AnalysisResult, name: &str) -> bool {
    r.syms.iter().any(|s| s.name == name && !s.is_def && s.def_byte.is_none())
}

/// True if at least one reference to `name` resolves to a def.
fn ref_resolves(r: &AnalysisResult, name: &str) -> bool {
    r.syms.iter().any(|s| s.name == name && !s.is_def && s.def_byte.is_some())
}

// ── Unused var warning ────────────────────────────────────────────────────

#[test]
fn unused_var_warns() {
    assert!(has_warning("(var x 1) x", "never mutated"));
}

#[test]
fn used_var_no_warn() {
    assert!(!has_warning("(var x 1) (set x 2) x", "never mutated"));
}

#[test]
fn var_set_multiple_times_no_warn() {
    assert!(!has_warning("(var x 0) (set x 1) (set x 2) x", "never mutated"));
}

#[test]
fn local_no_unused_var_warn() {
    assert!(!has_warning("(local x 1) x", "never mutated"));
}

#[test]
fn fn_param_no_unused_var_warn() {
    assert!(!has_warning("(fn f [x] x)", "never mutated"));
}

#[test]
fn hashfn_unused_dollar_params_no_warn() {
    // $2..$9 are pre-declared for every hashfn but unused ones must not warn
    assert!(!has_warning("#(+ $ 1)", "unused"));
    assert!(!has_warning("#(+ $1 $2)", "unused"));
}

#[test]
fn var_in_inner_scope_unwarn_if_set() {
    assert!(!has_warning("(do (var x 1) (set x 2) x)", "never mutated"));
}

// ── Shadowed binding warning ──────────────────────────────────────────────

#[test]
fn shadowed_binding_warns() {
    assert!(has_warning("(let [x 1 x 2] x)", "already defined"));
}

#[test]
fn top_level_shadow_warns() {
    assert!(has_warning("(local x 1) (local x 2) x", "already defined"));
}

#[test]
fn fn_params_shadow_each_other_warns() {
    assert!(has_warning("(fn f [a a] a)", "already defined"));
}

#[test]
fn same_scope_shadow_still_warns_already_defined() {
    // Same-scope re-definition keeps the original "already defined" message.
    assert!(!has_warning("(local x 1) (let [] (local x 2) x) x", "already defined"));
}

#[test]
fn underscore_no_shadow_warn() {
    assert!(!has_warning("(let [_ 1 _ 2] nil)", "already defined"));
}

// ── Cross-scope shadowing ─────────────────────────────────────────────────

#[test]
fn outer_scope_shadow_warns() {
    assert!(has_warning("(local x 1) (do (local x 2) x) x", "shadows a binding from an outer scope"));
}

#[test]
fn let_binding_outer_shadow_warns() {
    assert!(has_warning("(local x 1) (let [x 2] x)", "shadows a binding from an outer scope"));
}

#[test]
fn fn_param_outer_shadow_no_warn() {
    // Function params are not checked — too noisy and idiomatic to reuse names.
    assert!(!has_warning("(local x 1) (fn f [x] x)", "shadows"));
}

#[test]
fn loop_var_outer_shadow_no_warn() {
    // Loop vars (each/for) are also not checked.
    assert!(!has_warning("(local x 1) (each [x []] x)", "shadows"));
}

#[test]
fn underscore_outer_shadow_no_warn() {
    assert!(!has_warning("(local _ 1) (do (local _ 2) nil)", "shadows"));
}

#[test]
fn set_on_immutable_warns() {
    assert!(has_warning("(local x 1) (set x 2)", "immutable"));
}

#[test]
fn set_on_fn_warns() {
    assert!(has_warning("(fn f [] nil) (set f 1)", "immutable"));
}

#[test]
fn set_on_var_no_warn() {
    assert!(!has_warning("(var x 1) (set x 2)", "immutable"));
}

#[test]
fn set_on_global_no_warn() {
    assert!(!has_warning("(global x 1) (set x 2)", "immutable"));
}

// ── Basic def / ref tracking ──────────────────────────────────────────────

#[test]
fn local_creates_def() {
    let r = analyze_src("(local x 1)");
    assert!(has_def(&r, "x"));
    assert_eq!(def_kind(&r, "x"), Some(DefKind::Local));
}

#[test]
fn var_creates_def() {
    let r = analyze_src("(var x 1)");
    assert_eq!(def_kind(&r, "x"), Some(DefKind::Var));
}

#[test]
fn global_creates_def() {
    let r = analyze_src("(global x 1)");
    assert_eq!(def_kind(&r, "x"), Some(DefKind::Global));
}

#[test]
fn fn_creates_fn_def() {
    let r = analyze_src("(fn add [a b] (+ a b))");
    assert_eq!(def_kind(&r, "add"), Some(DefKind::Fn));
}

#[test]
fn fn_params_are_param_defs() {
    let r = analyze_src("(fn f [a b] a)");
    assert_eq!(def_kind(&r, "a"), Some(DefKind::Param));
    assert_eq!(def_kind(&r, "b"), Some(DefKind::Param));
}

#[test]
fn reference_to_local_resolves() {
    let r = analyze_src("(local x 1) x");
    assert!(ref_resolves(&r, "x"));
    assert!(!is_unknown(&r, "x"));
}

#[test]
fn reference_to_undefined_is_unknown() {
    let r = analyze_src("y");
    assert!(is_unknown(&r, "y"));
}

#[test]
fn fn_name_visible_in_body_for_recursion() {
    let r = analyze_src("(fn fact [n] (fact n))");
    // `fact` inside the body should resolve, not be unknown
    assert!(!is_unknown(&r, "fact"));
    assert!(ref_resolves(&r, "fact"));
}

#[test]
fn fn_docstring_extracted() {
    let r = analyze_src(r#"(fn f [] "does a thing" nil)"#);
    let doc = r.defs.values().find(|d| d.name == "f").and_then(|d| d.doc.as_deref());
    assert_eq!(doc, Some("does a thing"));
}

// ── Scope isolation ───────────────────────────────────────────────────────

#[test]
fn let_binding_not_visible_after_let() {
    let r = analyze_src("(let [x 1] x) x");
    // The second `x` (outside let) should be unknown
    // There are two `x` refs: one inside the let (resolves) and one outside (unknown)
    assert!(is_unknown(&r, "x"));
}

#[test]
fn fn_param_not_visible_outside_fn() {
    let r = analyze_src("(fn f [x] x) x");
    assert!(is_unknown(&r, "x"));
}

#[test]
fn do_block_binding_not_visible_outside() {
    let r = analyze_src("(do (local x 1) x) x");
    assert!(is_unknown(&r, "x"));
}

#[test]
fn let_sequential_later_binding_sees_earlier() {
    // In (let [a 1 b a] b), the RHS of b can see a
    let r = analyze_src("(let [a 1 b a] b)");
    assert!(!is_unknown(&r, "a"));
    assert!(ref_resolves(&r, "a"));
}

#[test]
fn let_rhs_does_not_see_own_binding() {
    // In (let [x x] ...), the RHS `x` can't see the new `x` yet —
    // it refers to whatever `x` was in the outer scope (here: unknown)
    let r = analyze_src("(let [x x] x)");
    assert!(is_unknown(&r, "x"));
}

// ── Named let (tail-recursive loop) ──────────────────────────────────────

#[test]
fn named_let_binds_loop_var_in_body() {
    let r = analyze_src("(let loop [i 0] i)");
    assert!(!is_unknown(&r, "i"), "binding var must be in scope in body");
}

#[test]
fn named_let_loop_name_callable_in_body() {
    let r = analyze_src("(let loop [i 0] (loop (+ i 1)))");
    assert!(!is_unknown(&r, "loop"), "loop name must be callable from body");
    assert!(!is_unknown(&r, "i"), "binding var must be in scope in body");
}

#[test]
fn named_let_multiple_bindings_all_visible() {
    let r = analyze_src("(let go [i 1 total 0] (go (+ i 1) (+ total i)))");
    assert!(!is_unknown(&r, "i"));
    assert!(!is_unknown(&r, "total"));
    assert!(!is_unknown(&r, "go"));
}

#[test]
fn named_let_init_values_not_in_loop_scope() {
    // The RHS of the first binding must NOT see the loop name or the other params
    // (they are evaluated before any binding is established, like fn args)
    let r = analyze_src("(let loop [i loop] i)");
    // `loop` on the RHS refers to an outer `loop` (unknown here)
    assert!(is_unknown(&r, "loop"));
}

#[test]
fn named_let_not_visible_after_let() {
    let r = analyze_src("(let loop [i 0] i) loop");
    // `loop` after the let is outside its scope
    assert!(is_unknown(&r, "loop"));
}

#[test]
fn named_let_binding_not_visible_after_let() {
    let r = analyze_src("(let loop [i 0] i) i");
    assert!(is_unknown(&r, "i"));
}

// ── as-> threading ────────────────────────────────────────────────────────

#[test]
fn as_arrow_binds_placeholder_in_body() {
    let r = analyze_src("(as-> 0 it (+ it 1))");
    assert!(!is_unknown(&r, "it"), "placeholder must be bound in each form");
}

#[test]
fn as_arrow_placeholder_visible_across_forms() {
    let r = analyze_src("(as-> \"hello\" s (string.upper s) (.. s \"!\"))");
    assert!(!is_unknown(&r, "s"));
}

#[test]
fn as_arrow_placeholder_not_visible_after_form() {
    let r = analyze_src("(as-> 0 it it) it");
    assert!(is_unknown(&r, "it"), "placeholder must not leak outside as->");
}

#[test]
fn as_arrow_initial_value_analyzed() {
    // The initial value expression should be analyzed (outer refs resolve)
    let r = analyze_src("(local x 42) (as-> x it it)");
    assert!(!is_unknown(&r, "x"), "initial value reference must resolve");
    assert!(!is_unknown(&r, "it"));
}

// ── Destructuring ─────────────────────────────────────────────────────────

#[test]
fn sequence_destructuring_creates_defs() {
    let r = analyze_src("(local [a b c] t)");
    assert!(has_def(&r, "a"));
    assert!(has_def(&r, "b"));
    assert!(has_def(&r, "c"));
}

#[test]
fn table_destructuring_creates_defs() {
    let r = analyze_src("(local {:x a :y b} t)");
    assert!(has_def(&r, "a"));
    assert!(has_def(&r, "b"));
}

#[test]
fn table_shorthand_destructuring() {
    // {: name} binds `name`
    let r = analyze_src("(local {: name} t)");
    assert!(has_def(&r, "name"));
}

#[test]
fn nested_sequence_destructuring() {
    let r = analyze_src("(let [[a b] pair] a)");
    assert!(has_def(&r, "a"));
    assert!(has_def(&r, "b"));
    assert!(!is_unknown(&r, "a"));
}

// ── Loop forms ────────────────────────────────────────────────────────────

#[test]
fn each_binds_loop_vars() {
    let r = analyze_src("(each [k v (pairs t)] k)");
    assert_eq!(def_kind(&r, "k"), Some(DefKind::LoopVar));
    assert_eq!(def_kind(&r, "v"), Some(DefKind::LoopVar));
}

#[test]
fn for_binds_loop_var() {
    let r = analyze_src("(for [i 1 10] (print i))");
    assert_eq!(def_kind(&r, "i"), Some(DefKind::LoopVar));
    assert!(!is_unknown(&r, "i"));
}

#[test]
fn for_var_in_scope_in_body() {
    let r = analyze_src("(for [i 1 5] (io.write (tostring i)))");
    assert!(!is_unknown(&r, "i"), "loop var must be visible in body");
}

#[test]
fn for_with_step_var_in_scope() {
    let r = analyze_src("(for [i 0 100 10] (print i))");
    assert!(!is_unknown(&r, "i"), "loop var must be visible when step is present");
}

#[test]
fn for_var_not_in_scope_outside() {
    let r = analyze_src("(for [i 1 3] nil) i");
    assert!(is_unknown(&r, "i"), "loop var must not leak outside for");
}

#[test]
fn for_start_stop_analyzed() {
    let r = analyze_src("(local n 10) (for [i 1 n] (print i))");
    assert!(!is_unknown(&r, "n"), "stop expression must be analyzed");
}

#[test]
fn accumulate_binds_acc_and_loop_vars() {
    let r = analyze_src("(accumulate [sum 0 k v (pairs t)] (+ sum v))");
    assert!(has_def(&r, "sum"));
    assert_eq!(def_kind(&r, "k"), Some(DefKind::LoopVar));
    assert_eq!(def_kind(&r, "v"), Some(DefKind::LoopVar));
    assert!(!is_unknown(&r, "sum"));
    assert!(!is_unknown(&r, "v"));
}

#[test]
fn fcollect_binds_loop_var() {
    let r = analyze_src("(fcollect [i 1 10] i)");
    assert_eq!(def_kind(&r, "i"), Some(DefKind::LoopVar));
    assert!(!is_unknown(&r, "i"));
}

#[test]
fn fcollect_until_loop_var_visible_in_guard() {
    // (fcollect [i 1 n &until (pred i)] i) — `i` must be in scope in the guard
    let r = analyze_src("(local n 10) (fcollect [i 1 n &until (>= i 5)] i)");
    assert!(!is_unknown(&r, "i"), "loop var must be visible in &until guard");
}

#[test]
fn fcollect_until_guard_analyzed_after_bind() {
    // Reference inside the &until must resolve to the loop var, not unknown
    let r = analyze_src("(fcollect [i 1 10 &until (= i 5)] i)");
    assert!(ref_resolves(&r, "i"), "i in &until must resolve to the loop var");
    assert_eq!(def_kind(&r, "i"), Some(DefKind::LoopVar));
}

#[test]
fn fcollect_into_and_until_together() {
    // Both modifiers present: loop var must be visible in &until,
    // and &into target must resolve as a reference
    let r = analyze_src(
        "(local acc []) (fcollect [i 1 10 &until (>= i 5) &into acc] i)",
    );
    assert!(!is_unknown(&r, "i"), "loop var visible in &until when &into also present");
    assert!(ref_resolves(&r, "acc"), "&into target must resolve");
}

#[test]
fn with_open_binds_names() {
    let r = analyze_src("(with-open [f (io.open :file)] f)");
    assert!(has_def(&r, "f"));
    assert!(!is_unknown(&r, "f"));
}

#[test]
fn collect_binds_loop_vars() {
    let r = analyze_src("(collect [k v (pairs t)] k v)");
    assert_eq!(def_kind(&r, "k"), Some(DefKind::LoopVar));
    assert_eq!(def_kind(&r, "v"), Some(DefKind::LoopVar));
}

// ── Match / case patterns ─────────────────────────────────────────────────

#[test]
fn match_pattern_binds_symbol() {
    let r = analyze_src("(match x a (+ a 1) _ 0)");
    assert!(has_def(&r, "a"));
    assert!(!is_unknown(&r, "a"));
}

#[test]
fn match_pattern_not_visible_after_match() {
    // `n` is a pattern variable inside match; it must not be visible after
    let r = analyze_src("(match x n n) n");
    // The trailing `n` (outside match) should be unknown
    assert!(is_unknown(&r, "n"));
}

#[test]
fn match_where_guard_sees_pattern_binding() {
    let r = analyze_src("(match x (where n (> n 0)) :pos _ :other)");
    // `n` in the guard `(> n 0)` must resolve
    assert!(!is_unknown(&r, "n"));
}

// ── HashFn implicit params ────────────────────────────────────────────────

#[test]
fn hashfn_dollar_params_visible() {
    let r = analyze_src("#(+ $ $1)");
    assert!(ref_resolves(&r, "$"));
    assert!(ref_resolves(&r, "$1"));
}

#[test]
fn hashfn_numbered_params_visible() {
    let r = analyze_src("#[$1 $2 $3]");
    for name in &["$1", "$2", "$3"] {
        assert!(ref_resolves(&r, name), "{name} should resolve inside hashfn");
    }
}

// ── Quasiquote analysis ───────────────────────────────────────────────────

#[test]
fn quasiquote_unquote_analyzed() {
    // ,x inside a quasiquote IS analyzed as a reference
    let r = analyze_src("(local x 1) `(+ ,x 1)");
    assert!(ref_resolves(&r, "x"));
}

#[test]
fn quasiquote_literal_not_analyzed() {
    // bare `x` inside quasiquote (not inside unquote) is literal data
    let r = analyze_src("`(+ x 1)");
    // x should NOT appear as a reference at all (it's quoted data)
    let x_as_ref = r.syms.iter().any(|s| s.name == "x" && !s.is_def);
    assert!(!x_as_ref, "x inside quasiquote literal should not be a reference");
}

// ── Macro bindings ────────────────────────────────────────────────────────

#[test]
fn macro_creates_macro_def() {
    let r = analyze_src("(macro my-mac [x] x)");
    assert_eq!(def_kind(&r, "my-mac"), Some(DefKind::Macro));
}

#[test]
fn macro_body_analyzed() {
    // Param `x` inside macro body should be a def
    let r = analyze_src("(macro my-mac [x] x)");
    assert_eq!(def_kind(&r, "x"), Some(DefKind::Param));
}

#[test]
fn import_macros_creates_defs() {
    let r = analyze_src("(import-macros {: foo :bar baz} :mylib)");
    assert!(has_def(&r, "foo"));
    assert!(has_def(&r, "baz"));
}

// ── Position queries (defs_at / symbol_at) ────────────────────────────────

#[test]
fn symbol_at_finds_reference() {
    // "(local x 1) x"
    //  0123456789012
    // x-def at 7, x-ref at 12
    let src = "(local x 1) x";
    let r = analyze_src(src);
    let sym = r.symbol_at(12).expect("symbol at ref");
    assert_eq!(sym.name, "x");
    assert!(!sym.is_def);
    assert!(sym.def_byte.is_some());
}

#[test]
fn symbol_at_finds_definition() {
    let src = "(local x 1) x";
    let r = analyze_src(src);
    let sym = r.symbol_at(7).expect("symbol at def");
    assert_eq!(sym.name, "x");
    assert!(sym.is_def);
}

#[test]
fn defs_at_inside_fn_sees_params() {
    // "(fn f [a b] a)" — 'a' in body at byte 12
    // byte: 0123456789012
    let src = "(fn f [a b] a)";
    let r = analyze_src(src);
    let names: HashSet<&str> = r.defs_at(12).iter().map(|d| d.name.as_str()).collect();
    assert!(names.contains("f"), "fn name should be visible in body");
    assert!(names.contains("a"), "param a visible in body");
    assert!(names.contains("b"), "param b visible in body");
}

#[test]
fn defs_at_outside_fn_no_params() {
    // "(fn f [a b] a) z" — 'z' at byte 15 is outside the fn span (0..13)
    let src = "(fn f [a b] a) z";
    let r = analyze_src(src);
    let names: HashSet<&str> = r.defs_at(15).iter().map(|d| d.name.as_str()).collect();
    assert!(names.contains("f"),  "fn name visible everywhere after def");
    assert!(!names.contains("a"), "param a must not leak outside fn");
    assert!(!names.contains("b"), "param b must not leak outside fn");
}

// ── Complex tests (realistic patterns that trip up LSPs) ─────────────────

#[test]
fn complex_each_mutates_outer_var() {
    // A common Fennel pattern: accumulate into an outer `var` inside a loop.
    // Tests: loop-var scoping, outer-var mutation tracking, discard `_`.
    let src = "(var total 0)\n(each [_ v (ipairs xs)]\n  (set total (+ total v)))\ntotal";
    let r = analyze_src(src);

    assert_eq!(def_kind(&r, "total"), Some(DefKind::Var));
    assert_eq!(def_kind(&r, "v"), Some(DefKind::LoopVar));
    assert!(!has_def(&r, "_"), "_ should not be defined");

    // `set total` marks total as mutated → no unused-var warning
    assert!(!r.warnings.iter().any(|w| w.message.contains("total") && w.message.contains("mutated")));

    // `xs` has no definition
    assert!(is_unknown(&r, "xs"));
}

#[test]
fn complex_let_fn_closure_and_sequential_bindings() {
    // A fn inside `let` closes over an outer local; a later `let` binding
    // calls the earlier fn. Tests: outer-scope capture, sequential let
    // visibility, no false "unknown" warnings.
    let src = "(local base 10)\n(let [adder (fn [x] (+ x base))\n      result (adder 5)]\n  result)";
    let r = analyze_src(src);

    assert!(has_def(&r, "base"));
    assert!(has_def(&r, "adder"));
    assert_eq!(def_kind(&r, "x"), Some(DefKind::Param));
    assert!(has_def(&r, "result"));

    for name in &["base", "adder", "result"] {
        assert!(!is_unknown(&r, name), "{name} should not be unknown");
    }
    assert!(r.warnings.is_empty(), "unexpected warnings: {:?}",
        r.warnings.iter().map(|w| &w.message).collect::<Vec<_>>());
}

#[test]
fn complex_match_arms_have_independent_pattern_bindings() {
    // Two match arms both bind a variable called `n` — they must be in
    // separate scopes and neither should be reported as unknown or shadow.
    let src = "(fn describe [x]\n  (match x\n    {:type :num :val n} (+ n 1)\n    {:type :str :val n} n\n    _ 0))";
    let r = analyze_src(src);

    // `n` is bound independently in each arm → two separate defs
    let n_def_count = r.defs.values().filter(|d| d.name == "n").count();
    assert_eq!(n_def_count, 2, "n should be defined once per arm, not shared");

    // Every reference to `n` resolves
    for sym in r.syms.iter().filter(|s| s.name == "n" && !s.is_def) {
        assert!(sym.def_byte.is_some(), "n reference should always resolve");
    }
    assert!(r.warnings.is_empty(), "no warnings expected: {:?}",
        r.warnings.iter().map(|w| &w.message).collect::<Vec<_>>());
}

#[test]
fn complex_triple_shadow_each_ref_resolves_to_nearest_binding() {
    // x is defined at three nested scope levels. Each reference should
    // resolve to a different def (the nearest enclosing one), with no
    // false shadow warnings since shadows are across different scopes.
    let src = "(local x 10)\n(let [x 20]\n  (do\n    (local x 30)\n    x)\n  x)\nx";
    let r = analyze_src(src);

    let x_defs: Vec<_> = r.defs.values().filter(|d| d.name == "x").collect();
    assert_eq!(x_defs.len(), 3, "three distinct x definitions");

    let x_refs: Vec<_> = r.syms.iter().filter(|s| s.name == "x" && !s.is_def).collect();
    assert_eq!(x_refs.len(), 3, "three x references");

    // All refs resolve
    for sym in &x_refs {
        assert!(sym.def_byte.is_some(), "every x ref must resolve");
    }

    // Each ref resolves to a DIFFERENT def (scope chain working correctly)
    let resolved: HashSet<u32> = x_refs.iter().filter_map(|s| s.def_byte).collect();
    assert_eq!(resolved.len(), 3, "each x ref should see a different binding");

    // No false shadow warnings (shadows cross scope boundaries, not same scope)
    assert!(!r.warnings.iter().any(|w| w.message.contains("already defined")));
}

// ── Edge-case combinations ────────────────────────────────────────────────

#[test]
fn set_on_table_field_marks_var_mutated() {
    // `(set t.field v)` should count as a mutation of `t` so that `t`
    // doesn't get an unused-var warning.
    assert!(!has_warning("(var t {}) (set t.field 1)", "never mutated"));
}

#[test]
fn set_on_undefined_no_crash() {
    // Setting an undefined name must not panic and should mark it unknown.
    let r = analyze_src("(set ghost 1)");
    assert!(is_unknown(&r, "ghost"));
}

#[test]
fn unused_var_in_fn_body() {
    // A `var` that is never mutated inside a fn body should still warn.
    assert!(has_warning("(fn f [] (var x 1) x)", "never mutated"));
}

#[test]
fn each_with_until_guard_sees_loop_vars() {
    // `&until` guard expression is inside the loop's scope, so loop vars
    // must be visible there.
    let r = analyze_src("(each [k v (pairs t) &until (= k :stop)] v)");
    assert!(!is_unknown(&r, "k"), "k must be visible in &until guard");
    assert!(!is_unknown(&r, "v"), "v must be visible in body");
}

#[test]
fn accumulate_with_until_guard_sees_acc_var() {
    // The `&until` guard in `accumulate` must see the accumulator.
    let r = analyze_src(
        "(accumulate [sum 0 i v (ipairs t) &until (> sum 100)] (+ sum v))",
    );
    assert!(!is_unknown(&r, "sum"), "sum must be visible in &until guard");
}

#[test]
fn case_try_catch_arm_binds_error_var_bare_syntax() {
    // Old bare-keyword syntax: `... catch pat body`
    let r = analyze_src("(case-try (may-fail) x x catch e (tostring e))");
    assert!(has_def(&r, "e"), "catch arm must bind e");
    assert!(!is_unknown(&r, "e"), "e must resolve in catch body");
}

#[test]
fn case_try_catch_arm_parenthesised_syntax() {
    // Modern parenthesised syntax: `(catch pat body ...)`
    let r = analyze_src("(case-try (io.open :f) h h (catch msg (print msg)))");
    assert!(has_def(&r, "msg"), "catch arm must bind msg");
    assert!(!is_unknown(&r, "msg"), "msg must resolve in catch body");
}

#[test]
fn case_try_catch_multiple_arms_parenthesised() {
    let r = analyze_src(
        "(case-try (f) x x (catch :bad (print :bad) err (print err)))"
    );
    assert!(has_def(&r, "err"));
    assert!(!is_unknown(&r, "err"), "err must be visible in multi-arm catch");
}

#[test]
fn match_try_catch_arm_parenthesised_syntax() {
    // `match-try` is an alias; must work with parenthesised catch too
    let r = analyze_src("(match-try (f) x x (catch msg (tostring msg)))");
    assert!(has_def(&r, "msg"));
    assert!(!is_unknown(&r, "msg"));
}

#[test]
fn case_try_chain_bindings_visible_in_later_exprs() {
    // pat from arm 1 must be in scope when arm 2's expr is analyzed
    let r = analyze_src("(case-try (io.open :f) h (h:read :*a) text text (catch e e))");
    assert!(!is_unknown(&r, "h"),    "h must be visible in (h:read ...)");
    assert!(!is_unknown(&r, "text"), "text must be visible as result");
    assert!(!is_unknown(&r, "e"),    "e must be visible in catch");
}

#[test]
fn let_fn_body_cannot_see_own_let_binding() {
    // `(let [f (fn [] (f))] f)` — inside the fn body, `f` is not yet bound
    // (the let binding is established AFTER the RHS is evaluated), so the
    // recursive call to `f` should be unknown.
    let r = analyze_src("(let [f (fn [] (f))] f)");
    // The inner `f` (inside the fn body) must be unknown
    let inner_f_unknown = r.syms.iter().any(|s| {
        s.name == "f" && !s.is_def && s.def_byte.is_none()
    });
    assert!(inner_f_unknown, "f inside fn body cannot see its own let binding");
}

#[test]
fn nested_table_match_pattern() {
    // `(match t {:a {:b n}} n)` — nested table pattern must bind `n`
    let r = analyze_src("(match t {:a {:b n}} n)");
    assert!(has_def(&r, "n"), "nested table pattern must bind n");
    assert!(!is_unknown(&r, "n"), "n must resolve in the arm body");
}

#[test]
fn fn_param_shadows_outer_let_no_false_warn() {
    // A function param with the same name as an outer let binding crosses
    // scope boundaries — must NOT produce a shadow warning.
    assert!(!has_warning("(let [x 1] (fn f [x] x))", "already defined"));
}

#[test]
fn collect_into_dst_is_ref_not_binding() {
    // `&into dst` passes an existing collection; `dst` must resolve as a
    // reference to its prior definition, not create a new binding.
    let r = analyze_src("(local dst []) (collect [k v (pairs t) &into dst] k)");
    // dst should resolve (not be unknown), and there must be only ONE def for dst
    assert!(ref_resolves(&r, "dst"), "dst in &into must resolve");
    let dst_defs: Vec<_> = r.defs.values().filter(|d| d.name == "dst").collect();
    assert_eq!(dst_defs.len(), 1, "&into must not create a second binding for dst");
}

// ── Untested form aliases ─────────────────────────────────────────────────

#[test]
fn icollect_binds_loop_var() {
    let r = analyze_src("(icollect [v (ipairs t)] v)");
    assert_eq!(def_kind(&r, "v"), Some(DefKind::LoopVar));
    assert!(!is_unknown(&r, "v"));
}

#[test]
fn faccumulate_binds_acc_and_loop_var() {
    let r = analyze_src("(faccumulate [sum 0 i 1 10] (+ sum i))");
    assert!(has_def(&r, "sum"));
    assert_eq!(def_kind(&r, "i"), Some(DefKind::LoopVar));
    assert!(!is_unknown(&r, "sum"));
    assert!(!is_unknown(&r, "i"));
}

#[test]
fn faccumulate_variable_start_stop_analyzed_as_exprs() {
    let r = analyze_src("(local lo 1) (local hi 10) (faccumulate [sum 0 i lo hi] (+ sum i))");
    assert!(!is_unknown(&r, "lo"), "start must be analyzed as an expression");
    assert!(!is_unknown(&r, "hi"), "stop must be analyzed as an expression");
    assert!(!is_unknown(&r, "i"), "loop var must be visible in body");
    assert!(!is_unknown(&r, "sum"), "acc must be visible in body");
}

#[test]
fn faccumulate_variable_step_analyzed_as_expr() {
    let r = analyze_src("(local step 2) (faccumulate [sum 0 i 1 10 step] (+ sum i))");
    assert!(!is_unknown(&r, "step"), "step must be analyzed as an expression");
    assert!(!is_unknown(&r, "i"));
}

#[test]
fn faccumulate_until_guard_sees_loop_var() {
    let r = analyze_src("(faccumulate [sum 0 i 1 100 &until (> sum 50)] (+ sum i))");
    assert!(!is_unknown(&r, "i"), "loop var must be visible in &until guard");
    assert!(!is_unknown(&r, "sum"), "acc must be visible in &until guard");
}

#[test]
fn faccumulate_acc_not_visible_outside() {
    let r = analyze_src("(faccumulate [sum 0 i 1 10] (+ sum i)) sum");
    assert!(is_unknown(&r, "sum"), "acc must not leak outside faccumulate");
}

#[test]
fn lambda_creates_fn_def() {
    let r = analyze_src("(lambda greet [name] name)");
    assert_eq!(def_kind(&r, "greet"), Some(DefKind::Fn));
    assert_eq!(def_kind(&r, "name"), Some(DefKind::Param));
}

#[test]
fn lambda_unicode_alias() {
    let r = analyze_src("(λ f [x] x)");
    assert_eq!(def_kind(&r, "f"), Some(DefKind::Fn));
    assert_eq!(def_kind(&r, "x"), Some(DefKind::Param));
}

#[test]
fn macros_form_creates_macro_def() {
    // `(macros {name (fn [x] x)})` — bare symbol keys, not keyword keys
    let r = analyze_src("(macros {my-mac (fn [x] x)})");
    assert_eq!(def_kind(&r, "my-mac"), Some(DefKind::Macro));
}

#[test]
fn macro_form_call_site_not_unknown() {
    // (macro ...) creates a def; the call site should resolve, not be flagged.
    let r = analyze_src("(macro my-mac [x] x) (my-mac 1)");
    assert!(!is_unknown(&r, "my-mac"), "macro call site must resolve");
}

#[test]
fn macros_form_call_site_not_unknown() {
    // (macros {...}) also creates defs; call sites must resolve.
    let r = analyze_src("(macros {my-mac (fn [x] x)}) (my-mac 99)");
    assert!(!is_unknown(&r, "my-mac"), "macros-form call site must resolve");
}

#[test]
fn import_macros_call_site_not_unknown() {
    // (import-macros {: foo} :lib) creates a def for `foo`; calling it must resolve.
    let r = analyze_src("(import-macros {: foo :bar baz} :mylib) (foo 1) (baz 2)");
    assert!(!is_unknown(&r, "foo"), "import-macros call site `foo` must resolve");
    assert!(!is_unknown(&r, "baz"), "import-macros call site `baz` must resolve");
}

#[test]
fn import_macros_standalone_shorthand_binds() {
    // {defnode} without a preceding colon should bind "defnode"
    let r = analyze_src("(import-macros {defnode} :mylib)");
    assert_eq!(def_kind(&r, "defnode"), Some(DefKind::Macro));
}

#[test]
fn macro_call_dsl_args_not_unknown() {
    // DSL symbols in macro argument position must not be flagged as unknown
    let r = analyze_src(
        "(import-macros {defnode} :mylib) (defnode FennelNode (extends Base) (tool))"
    );
    let dsl_syms: Vec<_> = r.syms.iter()
        .filter(|s| ["FennelNode", "extends", "Base", "tool"].contains(&s.name.as_str()))
        .collect();
    for s in &dsl_syms {
        assert!(s.in_macro, "`{}` should be tagged in_macro", s.name);
    }
}

#[test]
fn macro_call_nested_fn_params_resolve() {
    // Inside a macro call, a (fn ...) sub-form should still bind its params
    let r = analyze_src(
        "(import-macros {defnode} :mylib) (defnode Foo (fn greet [self x] x))"
    );
    // `x` inside the fn should resolve to its param — def_byte not None
    let x_ref = r.syms.iter()
        .find(|s| s.name == "x" && !s.is_def)
        .expect("x reference");
    assert!(x_ref.def_byte.is_some(), "x should resolve to its param def");
}

// ── source_module on import-macros defs ──────────────────────────────────

fn source_module_of(r: &AnalysisResult, name: &str) -> Option<String> {
    r.defs.values()
        .find(|d| d.name == name && d.kind == DefKind::Macro)
        .and_then(|d| d.source_module.clone())
}

#[test]
fn import_macros_keyword_module_stored_on_def() {
    let r = analyze_src("(import-macros {: defnode} :addons.lua-gdextension.defnode)");
    assert_eq!(
        source_module_of(&r, "defnode").as_deref(),
        Some("addons.lua-gdextension.defnode"),
        "source_module should be the keyword module path"
    );
}

#[test]
fn import_macros_string_module_stored_on_def() {
    let r = analyze_src(r#"(import-macros {: defnode} "addons.lua-gdextension.defnode")"#);
    assert_eq!(
        source_module_of(&r, "defnode").as_deref(),
        Some("addons.lua-gdextension.defnode")
    );
}

#[test]
fn import_macros_standalone_shorthand_stores_module() {
    let r = analyze_src("(import-macros {defnode} :mylib)");
    assert_eq!(source_module_of(&r, "defnode").as_deref(), Some("mylib"));
}

#[test]
fn inline_macro_has_no_source_module() {
    let r = analyze_src("(macro my-mac [x] `(local ,x nil))");
    assert_eq!(source_module_of(&r, "my-mac"), None,
        "inline macro should have no source_module");
}

#[test]
fn macros_form_has_no_source_module() {
    let r = analyze_src("(macros {:my-mac (fn [x] `(local ,x nil))})");
    assert_eq!(source_module_of(&r, "my-mac"), None);
}

// ── macro_calls tracking ─────────────────────────────────────────────────

#[test]
fn macro_calls_populated_for_import_macros_call() {
    let r = analyze_src(
        "(import-macros {: defnode} :mylib) (defnode Foo (extends Bar))"
    );
    let call = r.macro_calls.iter()
        .find(|(_, _, name)| name == "defnode")
        .expect("defnode call should be recorded");
    assert_eq!(call.1.as_deref(), Some("mylib"), "source_module should be mylib");
}

#[test]
fn macro_calls_has_none_source_module_for_inline_macro() {
    let r = analyze_src("(macro m [x] `(local ,x 1)) (m foo)");
    let call = r.macro_calls.iter()
        .find(|(_, _, name)| name == "m")
        .expect("m call should be recorded");
    assert!(call.1.is_none(), "inline macro call should have None source_module");
}

#[test]
fn macro_calls_not_populated_for_regular_functions() {
    let r = analyze_src("(fn greet [x] x) (greet 42)");
    assert!(r.macro_calls.is_empty(), "regular fn calls should not appear in macro_calls");
}

// ── analyze_with_hooks: instruction execution ─────────────────────────────

fn make_hook_results(span_start: u32, instrs: Vec<Instruction>) -> HashMap<u32, Vec<Instruction>> {
    let mut m = HashMap::new();
    m.insert(span_start, instrs);
    m
}

#[test]
fn hook_bind_instruction_introduces_def() {
    // Without a hook, FennelNode3D would be in_macro.
    // With a Bind instruction it should be a real Local def.
    let src = "(import-macros {: defnode} :mylib) (defnode FennelNode3D)";
    let (ast, _) = Parser::parse(src);
    let first_pass = analyze(&ast);

    // Find the span of the defnode call
    let call_span = first_pass.macro_calls.iter()
        .find(|(_, _, n)| n == "defnode")
        .map(|(s, _, _)| *s)
        .expect("defnode call");

    // Build the span for "FennelNode3D" — it follows "defnode " at the call site
    let name_span = first_pass.syms.iter()
        .find(|s| s.name == "FennelNode3D")
        .map(|s| s.span.clone())
        .expect("FennelNode3D sym");

    let hook_results = make_hook_results(call_span, vec![
        Instruction::Bind {
            name: "FennelNode3D".into(),
            span: name_span,
        },
    ]);
    let second_pass = analyze_with_hooks(&ast, &hook_results);

    // Should be a proper def now, not in_macro
    let def = second_pass.defs.values()
        .find(|d| d.name == "FennelNode3D")
        .expect("FennelNode3D def");
    assert_eq!(def.kind, DefKind::Local);

    let sym = second_pass.syms.iter()
        .find(|s| s.name == "FennelNode3D" && s.is_def)
        .expect("FennelNode3D sym entry");
    assert!(!sym.in_macro, "bound name should not be tagged in_macro");
}

#[test]
fn hook_analyze_fn_instruction_binds_fn_name_and_params() {
    // (import-macros {: defnode} :mylib)
    // (defnode Foo (fn greet [self x] x))
    // With AnalyzeFn on the (fn ...) child, greet and self/x should be real defs.
    let src = "(import-macros {: defnode} :mylib) (defnode Foo (fn greet [self x] x))";
    let (ast, _) = Parser::parse(src);
    let first_pass = analyze(&ast);

    let call_span = first_pass.macro_calls.iter()
        .find(|(_, _, n)| n == "defnode")
        .map(|(s, _, _)| *s)
        .expect("defnode call");

    // The (fn greet ...) form is at index 2 of the defnode call (1-based: index 3).
    // In forms[], that's forms[2] (0-based). AnalyzeFn { index: 3 } → forms[2].
    let hook_results = make_hook_results(call_span, vec![
        Instruction::AnalyzeFn { index: 3 },
    ]);
    let second_pass = analyze_with_hooks(&ast, &hook_results);

    assert!(has_def(&second_pass, "greet"), "greet should be a def via AnalyzeFn");
    assert_eq!(def_kind(&second_pass, "greet"), Some(DefKind::Fn));
    assert!(has_def(&second_pass, "self"), "self param should be a def");
    assert!(has_def(&second_pass, "x"), "x param should be a def");
    // x in the body should resolve to the param
    assert!(!is_unknown(&second_pass, "x"), "x in body should resolve");
}

#[test]
fn hook_instructions_suppress_in_macro_tagging() {
    // When a hook is provided, forms handled by it should NOT be in_macro.
    // Forms not mentioned remain unanalyzed (no SymbolEntry at all).
    let src = "(import-macros {: defnode} :mylib) (defnode Foo (extends Base))";
    let (ast, _) = Parser::parse(src);
    let first_pass = analyze(&ast);

    let call_span = first_pass.macro_calls.iter()
        .find(|(_, _, n)| n == "defnode")
        .map(|(s, _, _)| *s)
        .expect("defnode call");

    // Hook provides no instructions (empty vec = hook present, skip all args)
    let hook_results = make_hook_results(call_span, vec![]);
    let second_pass = analyze_with_hooks(&ast, &hook_results);

    // extends and Base should not appear in syms (not analyzed at all)
    let base_syms: Vec<_> = second_pass.syms.iter()
        .filter(|s| s.name == "Base")
        .collect();
    assert!(base_syms.is_empty(), "Base should not be in syms when hook skips it");
}

// ── Destructuring edge cases ──────────────────────────────────────────────

#[test]
fn table_destructuring_symbol_keyword_order() {
    // {name :field} — symbol key, keyword value; `name` is the binding
    let r = analyze_src("(local {a :foo b :bar} t)");
    assert!(has_def(&r, "a"));
    assert!(has_def(&r, "b"));
}

#[test]
fn table_destructuring_string_key() {
    // {"field" name} — string key, symbol value; `name` is the binding
    let r = analyze_src(r#"(local {"x" px "y" py} point)"#);
    assert!(has_def(&r, "px"));
    assert!(has_def(&r, "py"));
}

#[test]
fn fn_rest_binding_is_param() {
    // (fn f [a & rest] rest) — `rest` captures varargs tail
    let r = analyze_src("(fn f [a & rest] rest)");
    assert!(has_def(&r, "rest"), "rest must be a param def");
    assert!(!is_unknown(&r, "rest"), "rest must resolve in body");
}

// ── Match pattern edge cases ──────────────────────────────────────────────

#[test]
fn match_as_in_sequence_pattern() {
    // [a b &as all] — `all` is bound to the whole matched sequence
    let r = analyze_src("(match t [a b &as all] all)");
    assert!(has_def(&r, "all"), "&as target must be defined");
    assert!(!is_unknown(&r, "all"), "&as target must resolve in body");
}

#[test]
fn match_as_in_table_pattern() {
    // {:a x &as tbl} — `tbl` is bound to the whole matched table
    let r = analyze_src("(match t {:a x &as tbl} tbl)");
    assert!(has_def(&r, "tbl"), "&as target must be defined");
    assert!(!is_unknown(&r, "tbl"), "&as target must resolve in body");
}

#[test]
fn match_or_pattern_binds_names_not_or_keyword() {
    // (or a b) — a and b should be bound; `or` itself must NOT be a def
    let r = analyze_src("(match t (or a b) a)");
    assert!(has_def(&r, "a"), "a must be bound by or pattern");
    assert!(has_def(&r, "b"), "b must be bound by or pattern");
    assert!(!has_def(&r, "or"), "`or` must not be defined as a local");
}

// ── Global scope limitation ───────────────────────────────────────────────

// ── when / unless scoping ─────────────────────────────────────────────────

#[test]
fn when_body_binding_not_visible_after_form() {
    // `when` expands to `(if cond (do ...))` so body bindings are scoped.
    let r = analyze_src("(when true (local x 1) x) x");
    // The trailing `x` outside the when must be unknown.
    assert!(is_unknown(&r, "x"), "local inside when must not leak out");
}

#[test]
fn unless_body_binding_not_visible_after_form() {
    let r = analyze_src("(unless false (local y 1) y) y");
    assert!(is_unknown(&r, "y"), "local inside unless must not leak out");
}

#[test]
fn when_condition_analyzed_in_outer_scope() {
    // The condition expression is in the outer scope, not the body scope.
    let r = analyze_src("(local flag true) (when flag nil)");
    assert!(ref_resolves(&r, "flag"), "condition ref must resolve");
}

#[test]
fn when_body_refs_resolve() {
    let r = analyze_src("(local x 1) (when true x)");
    assert!(ref_resolves(&r, "x"), "body ref to outer binding must resolve");
}

// ── while ─────────────────────────────────────────────────────────────────

#[test]
fn while_condition_refs_resolve() {
    let r = analyze_src("(local n 10) (while (> n 0) nil)");
    assert!(!is_unknown(&r, "n"), "condition must see outer bindings");
}

#[test]
fn while_body_refs_resolve() {
    let r = analyze_src("(local x 1) (while true (print x))");
    assert!(!is_unknown(&r, "x"), "body must see outer bindings");
}

#[test]
fn while_body_binding_not_visible_after_while() {
    let r = analyze_src("(while true (local inner 1)) inner");
    assert!(is_unknown(&r, "inner"), "while body binding must not leak outside");
}

#[test]
fn while_body_multiple_forms_all_analyzed() {
    let r = analyze_src("(local a 1) (local b 2) (while true (print a) (print b))");
    assert!(!is_unknown(&r, "a"));
    assert!(!is_unknown(&r, "b"));
}

// ── Global scope limitation ───────────────────────────────────────────────

#[test]
fn global_inside_do_not_visible_outside() {
    // In Fennel, `global` is truly file-global, but our analyzer puts it in
    // the current scope — so it leaks out of `do` blocks only if the do is
    // at the top level (which has no enclosing scope).  This test documents
    // the known limitation: a `global` inside a nested `do` is not visible
    // after that do.
    let r = analyze_src("(do (global x 1)) x");
    assert!(is_unknown(&r, "x"), "known limitation: global inside do not visible after it");
}

// ── Multisym references ───────────────────────────────────────────────────

#[test]
fn multisym_reference_resolves_root() {
    // `reference()` splits on `.`/`:` to find the root name for lookup;
    // the SymbolEntry stores the full `t.x` but resolves via `t`.
    // "(local t {}) t.x"
    //  0         1
    //  0123456789012345
    // t def at 7, t.x ref starting at 13
    let r = analyze_src("(local t {}) t.x");
    let entry = r.syms.iter().find(|s| s.name == "t.x" && !s.is_def);
    assert!(entry.is_some(), "t.x should be recorded as a symbol entry");
    assert!(entry.unwrap().def_byte.is_some(), "t.x root `t` must resolve to local def");
}

#[test]
fn symbol_at_on_multisym_span() {
    // Byte 14 is the `.` inside `t.x` (bytes 13-15); symbol_at should
    // find the entry whose span covers that byte.
    let src = "(local t {}) t.x";
    let r = analyze_src(src);
    let sym = r.symbol_at(14).expect("byte 14 is inside the t.x span");
    assert_eq!(sym.name, "t.x");
}

#[test]
fn set_colon_multisym_marks_var_mutated() {
    // `(set obj:method val)` — root is `obj` (split on `:`), must count
    // as a mutation so obj doesn't get an unused-var warning.
    assert!(!has_warning("(var obj {}) (set obj:method fn)", "never mutated"));
}

// ── defs_at / completion ──────────────────────────────────────────────────

#[test]
fn defs_at_sees_outer_scope_bindings() {
    // Cursor inside a `let` should return BOTH the let-bound names and
    // the enclosing scope's names.
    // "(local a 1) (let [b 2] a)"
    //  0         1         2
    //  01234567890123456789012345
    // a def at 7, b def at 18, cursor/ref at 23
    let src = "(local a 1) (let [b 2] a)";
    let r = analyze_src(src);
    let names: HashSet<&str> = r.defs_at(23).iter().map(|d| d.name.as_str()).collect();
    assert!(names.contains("a"), "outer `a` must be visible inside let");
    assert!(names.contains("b"), "let-bound `b` must be visible");
}

#[test]
fn defs_at_shadowed_binding_returns_innermost() {
    // When the same name exists in two nested scopes, defs_at should
    // return only the innermost one (the `seen` dedup prevents duplicates).
    // "(local x 1) (let [x 2] x)"
    //  0         1         2
    //  01234567890123456789012345
    // outer x at 7, inner x at 18, cursor at 23
    let src = "(local x 1) (let [x 2] x)";
    let r = analyze_src(src);
    let defs_here = r.defs_at(23);
    let x_defs: Vec<_> = defs_here.iter().filter(|d| d.name == "x").collect();
    assert_eq!(x_defs.len(), 1, "only one x should appear (deduped)");
    assert_eq!(x_defs[0].span.start, 18, "innermost x (byte 18) must win over outer x (byte 7)");
}

// ── refs map ──────────────────────────────────────────────────────────────

#[test]
fn refs_map_populated_on_resolution() {
    // After analysis, result.refs maps each reference's byte offset to its
    // definition's byte offset — used for go-to-definition.
    // "(local x 1) x"
    //  0         1
    //  01234567890123
    // x def at 7, x ref at 12
    let src = "(local x 1) x";
    let r = analyze_src(src);
    assert_eq!(r.refs.get(&12).copied(), Some(7),
        "refs[12] should point to x's def at byte 7");
}

// ── Form aliases ──────────────────────────────────────────────────────────

#[test]
fn case_alias_for_match() {
    // `case` is an alias for `match` — same analysis path
    let r = analyze_src("(case t a (+ a 1) _ 0)");
    assert!(has_def(&r, "a"), "case pattern must bind `a`");
    assert!(!is_unknown(&r, "a"), "`a` must resolve in arm body");
}

#[test]
fn match_try_alias_for_case_try() {
    // `match-try` is an alias for `case-try` — catch arm still binds
    let r = analyze_src("(match-try (f) x x catch e (tostring e))");
    assert!(has_def(&r, "e"), "catch arm must bind e");
    assert!(!is_unknown(&r, "e"), "e must resolve in catch body");
}

// ── Anonymous fn ─────────────────────────────────────────────────────────

#[test]
fn anonymous_fn_params_in_scope() {
    // `(fn [a] a)` — no name, but params are still in scope for the body
    let r = analyze_src("(fn [a] a)");
    assert_eq!(def_kind(&r, "a"), Some(DefKind::Param));
    assert!(!is_unknown(&r, "a"), "param a must resolve in anonymous fn body");
    assert!(!r.defs.values().any(|d| d.kind == DefKind::Fn),
        "anonymous fn must not create a Fn def");
}

// ── Quasiquote ────────────────────────────────────────────────────────────

#[test]
fn unquote_splice_inside_quasiquote_analyzed() {
    // `,@xs` inside a quasiquote must be analyzed (UnquoteSplice is treated
    // the same as Unquote in analyze_quasiquote)
    let r = analyze_src("(local xs []) `(list ,@xs)");
    assert!(ref_resolves(&r, "xs"), ",@xs inside quasiquote must resolve");
}

// ── Combined pattern forms ────────────────────────────────────────────────

#[test]
fn match_where_or_combined_pattern() {
    // `(where (or a b) guard)` — the two fixes must work together:
    //   - `or` keyword is not defined as a local
    //   - `a` and `b` are both bound
    //   - the guard `(= a 1)` sees `a` so `a` is not unknown there
    let r = analyze_src("(match t (where (or a b) (= a 1)) a)");
    assert!(has_def(&r, "a"), "a must be bound by or pattern");
    assert!(has_def(&r, "b"), "b must be bound by or pattern");
    assert!(!has_def(&r, "or"), "`or` must not become a spurious local def");
    assert!(!is_unknown(&r, "a"), "a must resolve in where guard and arm body");
}

// ── Table / loop / binding edge cases ────────────────────────────────────

#[test]
fn table_constructor_symbol_key_analyzed_as_ref() {
    // In `{k 1}`, `k` is a computed key (evaluated at runtime in Fennel).
    // analyze() visits ALL table fields, so `k` is recorded as a reference.
    let r = analyze_src("(local k :foo) {k 1}");
    assert!(ref_resolves(&r, "k"), "symbol key in table constructor must resolve");
}

#[test]
fn for_step_expression_analyzed() {
    let r = analyze_src("(local step 2) (for [i 1 10 step] (print i))");
    assert!(!is_unknown(&r, "step"), "step variable must resolve in for bindings");
    assert!(!is_unknown(&r, "i"), "loop var must be visible alongside step");
}

#[test]
fn let_sequence_rest_binding() {
    // `(let [[a & rest] coll] rest)` — bind_pattern skips `&` and binds `rest`
    let r = analyze_src("(let [[a & rest] [1 2 3]] rest)");
    assert!(has_def(&r, "a"), "a must be bound");
    assert!(has_def(&r, "rest"), "rest must be bound");
    assert!(!is_unknown(&r, "rest"), "rest must resolve in body");
}

#[test]
fn with_open_later_binding_sees_earlier() {
    // In `(with-open [f1 rhs1 f2 rhs2] body)`, rhs2 is analyzed after f1
    // is bound (same sequential ordering as `let`).
    let r = analyze_src(
        "(fn process [h] h) (with-open [f1 (io.open :a) f2 (process f1)] f2)",
    );
    assert!(has_def(&r, "f1"), "f1 must be bound");
    assert!(has_def(&r, "f2"), "f2 must be bound");
    assert!(ref_resolves(&r, "f1"),
        "f1 must resolve inside f2's RHS (sequential binding)");
    assert!(!is_unknown(&r, "f2"), "f2 must resolve in body");
}

// ── Malformed / short-form no-crash guards ────────────────────────────────

#[test]
fn local_with_no_value_no_crash() {
    // `(local x)` is missing the RHS; analyze_binding returns early when
    // forms.len() < 3 — must not panic and must NOT create a def.
    let r = analyze_src("(local x)");
    assert!(!has_def(&r, "x"), "truncated (local x) must not create a def");
}

#[test]
fn var_with_no_value_no_crash() {
    let r = analyze_src("(var y)");
    assert!(!has_def(&r, "y"), "truncated (var y) must not create a def");
}

#[test]
fn fn_with_no_args_no_crash() {
    // `(fn)` — fewer than 2 forms; analyze_fn returns early.
    let r = analyze_src("(fn)");
    assert!(r.defs.is_empty(), "(fn) must not create any def");
    assert!(r.warnings.is_empty());
}

// ── Empty file ────────────────────────────────────────────────────────────

#[test]
fn empty_file_no_crash() {
    // Analyzing an empty string must not panic and must return an empty result.
    let r = analyze_src("");
    assert!(r.defs.is_empty());
    assert!(r.syms.is_empty());
    assert!(r.warnings.is_empty());
    assert!(r.refs.is_empty());
}

// ── symbol_at edge cases ──────────────────────────────────────────────────

#[test]
fn symbol_at_past_end_returns_none() {
    let r = analyze_src("(local x 1)");
    assert!(r.symbol_at(9999).is_none(), "byte past end of file should return None");
}

#[test]
fn symbol_at_between_symbols_returns_none() {
    // "(local x 1) (local y 2)" — byte 11 is the space between the two forms.
    let src = "(local x 1) (local y 2)";
    let r = analyze_src(src);
    // Byte 11 is ' ' between `)` and `(` — no symbol spans that byte.
    assert!(r.symbol_at(11).is_none(), "whitespace gap should return None");
}

// ── fcollect &into target ─────────────────────────────────────────────────

#[test]
fn fcollect_into_target_resolves_as_ref() {
    let r = analyze_src("(local acc []) (fcollect [i 1 10 &into acc] i)");
    assert!(ref_resolves(&r, "acc"), "&into target must resolve");
    let acc_defs: Vec<_> = r.defs.values().filter(|d| d.name == "acc").collect();
    assert_eq!(acc_defs.len(), 1, "&into must not create a second binding for acc");
}

// ── Unused local warnings ─────────────────────────────────────────────────

#[test]
fn unused_local_warns() {
    assert!(has_warning("(local x 1)", "defined but never used"));
}

#[test]
fn used_local_no_warn() {
    assert!(!has_warning("(local x 1) x", "defined but never used"));
}

#[test]
fn underscore_local_no_warn() {
    assert!(!has_warning("(local _x 1)", "defined but never used"));
}

#[test]
fn local_used_in_nested_scope_no_warn() {
    assert!(!has_warning("(local x 1) (fn f [] x)", "defined but never used"));
}

// ── Unused param warnings ─────────────────────────────────────────────────

#[test]
fn unused_param_warns() {
    assert!(has_warning("(fn f [x] nil)", "parameter `x` is unused"));
}

#[test]
fn used_param_no_warn() {
    assert!(!has_warning("(fn f [x] x)", "parameter"));
}

#[test]
fn underscore_param_no_warn() {
    assert!(!has_warning("(fn f [_x] nil)", "parameter"));
}

#[test]
fn bare_underscore_in_body_not_unknown() {
    // `_` is a builtin discard. Referencing it in body position should not
    // produce an "unknown identifier" warning. It IS unusual code (you normally
    // don't read a discard), but the LSP should not emit a spurious diagnostic.
    let r = analyze_src("(fn f [_] _)");
    assert!(!is_unknown(&r, "_"),
        "_ in body must not be flagged as unknown identifier");
}

#[test]
fn multiple_underscore_params_no_shadow_warning() {
    // (fn f [_ _] nil) — two _ params: no shadow warning, no unused warning.
    assert!(!has_warning("(fn f [_ _] nil)", "already defined"),
        "multiple _ params must not trigger shadow warning");
    assert!(!has_warning("(fn f [_ _] nil)", "parameter"),
        "_ params must not trigger unused-param warning");
}

#[test]
fn underscore_loop_var_no_warning() {
    // (each [_ v (ipairs t)] v) — _ discards the key, v is used.
    assert!(!has_warning("(each [_ v (ipairs t)] v)", "unused"),
        "_ loop var must not trigger unused warning");
    assert!(!is_unknown(&analyze_src("(each [_ v (ipairs t)] v)"), "_"),
        "_ loop var must not trigger unknown-identifier");
}

#[test]
fn multiple_params_one_unused_warns_correctly() {
    let r = analyze_src("(fn f [a b] a)");
    assert!(r.warnings.iter().any(|w| w.message.contains("`b`") && w.message.contains("unused")),
        "b must warn as unused");
    assert!(!r.warnings.iter().any(|w| w.message.contains("`a`") && w.message.contains("unused")),
        "a must not warn");
}

// ── Arity checking ────────────────────────────────────────────────────────

#[test]
fn arity_exact_match_no_warn() {
    assert!(!has_warning("(fn f [a b] nil) (f 1 2)", "argument"));
}

#[test]
fn arity_too_few_warns() {
    assert!(has_warning("(fn f [a b] nil) (f 1)", "expects 2 arguments but got 1"));
}

#[test]
fn arity_too_many_warns() {
    assert!(has_warning("(fn f [a b] nil) (f 1 2 3)", "expects 2 arguments but got 3"));
}

#[test]
fn arity_zero_params_no_warn() {
    assert!(!has_warning("(fn f [] nil) (f)", "argument"));
}

#[test]
fn arity_zero_params_too_many_warns() {
    assert!(has_warning("(fn f [] nil) (f 1)", "expects 0 arguments but got 1"));
}

#[test]
fn arity_rest_param_no_warn() {
    // `& rest` makes the function variadic; any arg count is accepted
    assert!(!has_warning("(fn f [a & rest] nil) (f 1 2 3)", "argument"));
}

#[test]
fn arity_varargs_no_warn() {
    // `...` makes the function variadic
    assert!(!has_warning("(fn f [a ...] nil) (f 1 2 3)", "argument"));
}

#[test]
fn arity_singular_grammar() {
    // "1 argument" not "1 arguments"
    assert!(has_warning("(fn f [a] nil) (f)", "expects 1 argument but got 0"));
}

#[test]
fn arity_lambda_checked() {
    // lambda is an alias for fn and should also be arity-checked
    assert!(has_warning("(lambda f [a b] nil) (f 1)", "expects 2 arguments but got 1"));
}

#[test]
fn arity_recursive_call_no_false_warn() {
    // `(fn fact [n] (fact n))` — 1 arg, 1 param: no warning
    assert!(!has_warning("(fn fact [n] (fact n))", "argument"));
}

#[test]
fn arity_values_direct_as_last_arg_suppressed() {
    // (values 1 2) in last-arg position expands at runtime → no warning
    assert!(!has_warning("(fn f [a b] nil) (f (values 1 2))", "argument"));
}

#[test]
fn arity_values_with_explicit_first_arg_suppressed() {
    // (f x (values 1 2)) where f takes 3 params: x fills slot 1, values fills 2+3
    assert!(!has_warning("(fn f [a b c] nil) (local x 1) (f x (values 1 2))", "argument"));
}

#[test]
fn arity_multi_return_fn_suppresses_under_arity() {
    // (fn pair [] (values 1 2)) is the last arg — its expansion may satisfy arity
    assert!(!has_warning(
        "(fn pair [] (values 1 2)) (fn add [a b] nil) (add (pair))",
        "argument",
    ));
}

#[test]
fn arity_multi_return_fn_with_leading_arg_suppressed() {
    // (add x (pair)) — x fills slot 1, pair expands to fill slots 2+3
    assert!(!has_warning(
        "(fn pair [] (values 1 2)) (fn add [a b c] nil) (local x 1) (add x (pair))",
        "argument",
    ));
}

#[test]
fn arity_single_return_fn_still_warns() {
    // (fn f [] nil) returns one value; (g (f)) with g taking 2 should still warn
    assert!(has_warning(
        "(fn f [] nil) (fn g [a b] nil) (g (f))",
        "expects 2 arguments but got 1",
    ));
}

#[test]
fn arity_over_supply_always_warns_regardless_of_multi_return() {
    // Too many explicit args is always wrong, even if last arg is multi-return
    assert!(has_warning(
        "(fn pair [] (values 1 2)) (fn f [a] nil) (local x 1) (f x (pair))",
        "expects 1 argument but got 2",
    ));
}

#[test]
fn arity_values_in_do_body_marks_returns_multiple() {
    // A fn whose body is (do (values 1 2)) also propagates returns_multiple
    assert!(!has_warning(
        "(fn f [] (do (values 1 2))) (fn g [a b] nil) (g (f))",
        "argument",
    ));
}

#[test]
fn arity_values_in_if_branch_marks_returns_multiple() {
    // Both branches return multiple values → returns_multiple
    assert!(!has_warning(
        "(fn f [x] (if x (values 1 2) (values 3 4))) (fn g [a b] nil) (g (f true))",
        "argument",
    ));
}

#[test]
fn arity_non_last_arg_multi_return_still_warns() {
    // Lua truncates non-last arguments to 1 value; (pair) in non-last position
    // does NOT expand, so the count is still wrong.
    // (f (pair) x) where f takes 3: pair is truncated to 1, x is 1 → actual=2, expected=3
    assert!(has_warning(
        "(fn pair [] (values 1 2)) (fn f [a b c] nil) (local x 1) (f (pair) x)",
        "expects 3 arguments but got 2",
    ));
}

// ── module_bindings ───────────────────────────────────────────────────────

#[test]
fn module_binding_keyword_arg() {
    let r = analyze_src("(local utils (require :my.mod))");
    assert_eq!(r.module_bindings.get("utils").map(|s| s.as_str()), Some("my.mod"));
}

#[test]
fn module_binding_string_arg() {
    let r = analyze_src(r#"(local utils (require "my.mod"))"#);
    assert_eq!(r.module_bindings.get("utils").map(|s| s.as_str()), Some("my.mod"));
}

#[test]
fn module_binding_var_keyword() {
    let r = analyze_src("(var lib (require :lib))");
    assert_eq!(r.module_bindings.get("lib").map(|s| s.as_str()), Some("lib"));
}

#[test]
fn non_require_binding_not_recorded() {
    let r = analyze_src("(local x 42)");
    assert!(r.module_bindings.is_empty());
}

#[test]
fn destructured_binding_not_recorded_as_module() {
    let r = analyze_src("(local {:foo foo} (require :mod))");
    // Destructuring: forms[1] is a Table, not a Symbol — no module_bindings entry
    assert!(r.module_bindings.is_empty());
}

// ── Unused require warnings ───────────────────────────────────────────────

#[test]
fn unused_require_warns() {
    assert!(has_warning(
        "(local api (require :my-mod))",
        "required but never used",
    ));
}

#[test]
fn used_require_no_warn() {
    assert!(!has_warning(
        "(local api (require :my-mod)) (api.call)",
        "required but never used",
    ));
}

#[test]
fn used_require_field_access_no_warn() {
    // api.foo is a reference to the root `api` binding
    assert!(!has_warning(
        "(local api (require :mod)) api.foo",
        "required but never used",
    ));
}

#[test]
fn unused_require_not_double_warned_as_unused_local() {
    // Unused require should emit the require message, NOT "defined but never used"
    let ws = warnings_for("(local api (require :mod))");
    assert!(ws.iter().any(|w| w.contains("required but never used")));
    assert!(!ws.iter().any(|w| w.contains("defined but never used")));
}

// ── Table field completions ───────────────────────────────────────────────

#[test]
fn table_fields_extracted_from_literal() {
    let r = analyze_src("(local t {:a 1 :b 2})");
    let def = r.defs.values().find(|d| d.name == "t").unwrap();
    let fields = def.table_fields.as_deref().unwrap_or(&[]);
    assert!(fields.contains(&"a".to_string()), "expected 'a' in fields: {:?}", fields);
    assert!(fields.contains(&"b".to_string()), "expected 'b' in fields: {:?}", fields);
}

#[test]
fn table_fields_string_keys() {
    let r = analyze_src(r#"(local t {"name" 1 "age" 2})"#);
    let def = r.defs.values().find(|d| d.name == "t").unwrap();
    let fields = def.table_fields.as_deref().unwrap_or(&[]);
    assert!(fields.contains(&"name".to_string()));
    assert!(fields.contains(&"age".to_string()));
}

#[test]
fn table_fields_non_table_rhs_is_none() {
    let r = analyze_src("(local x 42)");
    let def = r.defs.values().find(|d| d.name == "x").unwrap();
    assert!(def.table_fields.is_none());
}

#[test]
fn table_fields_let_binding() {
    let r = analyze_src("(let [t {:x 10 :y 20}] t)");
    let def = r.defs.values().find(|d| d.name == "t").unwrap();
    let fields = def.table_fields.as_deref().unwrap_or(&[]);
    assert!(fields.contains(&"x".to_string()));
    assert!(fields.contains(&"y".to_string()));
}

#[test]
fn table_fields_computed_key_skipped_others_kept() {
    // Computed keys (non-keyword, non-string) are silently skipped; static ones are kept.
    let r = analyze_src("(local t {:a 1})");
    let def = r.defs.values().find(|d| d.name == "t").unwrap();
    let fields = def.table_fields.as_deref().unwrap_or(&[]);
    assert!(fields.contains(&"a".to_string()));
}

#[test]
fn defs_at_gives_the_last_definition_before_the_byte() {
    // "(local x 1) x (local x 2)": x at 7, used at 12, and again at 21
    let r = analyze_src("(local x 1) x (local x 2)");
    let before = r.defs_at(12);
    assert_eq!(before.len(), 1);
    assert_eq!(before[0].name, "x");
    assert_eq!(before[0].span.start, 7);
    let after = r.defs_at(25);
    assert_eq!(after.len(), 1);
    assert_eq!(after[0].span.start, 21);
}

#[test]
fn results_hang_together() {
    let r = analyze_src("(local a 1) (fn f [b] (let [c a] (+ b c))) (f a)");
    assert_eq!((r.scopes[0].span.start, r.scopes[0].span.end), (0, u32::MAX));
    assert!(r.scopes[0].parent.is_none());
    for (i, scope) in r.scopes.iter().enumerate().skip(1) {
        assert!(scope.parent.unwrap() < i);
    }
    for (byte, def) in &r.defs {
        assert_eq!(*byte, def.span.start);
    }
    for (byte, def) in &r.refs {
        assert!(r
            .syms
            .iter()
            .any(|s| s.span.start == *byte && !s.is_def && s.def_byte == Some(*def)));
    }
}

#[test]
fn global_shadows_nothing() {
    assert!(!has_warning("(local x 1) (do (global x 2) x) x", "shadows"));
    assert!(has_warning("(local x 1) (do (var x 2) (set x 3)) x", "shadows"));
}

#[test]
fn reference_adds_one_symbol_for_its_root() {
    // The inner `t` is nearer than the outer one.
    let r = analyze_src("(local t {}) (let [t {}] t.x:y)");
    let found: Vec<_> = r.syms.iter().filter(|s| !s.is_def && s.name == "t.x:y").collect();
    assert_eq!(found.len(), 1);
    assert_eq!(found[0].def_byte, Some(19));
    assert_eq!(r.refs.get(&found[0].span.start), Some(&19));
    let r = analyze_src("absent.x");
    assert_eq!(r.syms.len(), 1);
    assert_eq!(r.syms[0].def_byte, None);
    assert!(r.refs.is_empty());
}
