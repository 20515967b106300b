use fennel_ls::actions::{
    compute_indent, file_path_to_module, find_containing_local_form, find_local_keyword_before,
    find_var_keyword_before,
};
use fennel_ls::analyzer::{DefKind, DefinitionInfo};
use fennel_ls::calls::{
    collect_incoming, collect_inlay_hints, collect_outgoing, enclosing_call, enclosing_fn_def,
    fn_form_span,
};
use fennel_ls::changes::{apply_incremental_changes, TextDocumentContentChangeEvent};
use fennel_ls::completion::multisym_prefix_at;
use fennel_ls::config::platform_from_str;
use fennel_ls::diagnostics::{known_global, warning_code, warning_tags, DiagnosticTag};
use fennel_ls::docs::Platform;
use fennel_ls::lexer::Span;
use fennel_ls::names::NameMap;
use fennel_ls::navigation::{format_definition, require_module_at};
use fennel_ls::outline::{
    collect_enclosing_spans, collect_folds, def_kind_to_symbol_kind, doc_syms_from_nodes,
    DocumentSymbol, FoldingRange, SymbolKind,
};
use fennel_ls::semantic::{build_semantic_tokens, flat_to_tokens, tokens_to_flat, SemanticToken};
use fennel_ls::strings::split_multisym;
use fennel_ls::text::{Position, Range};
use fennel_ls::workspace::{
    require_candidates, required_modules, resolve_require_path, Found, Workspace,
};



fn dummy_span() -> Span {
    Span { start: 0, end: 1, line: 0, col: 0, end_line: 0, end_col: 1 }
}

fn make_def(
    name: &str,
    kind: DefKind,
    params: Option<Vec<String>>,
    doc: Option<String>,
) -> DefinitionInfo {
    DefinitionInfo { name: name.into(), kind, span: dummy_span(), params, doc, variadic: false, returns_multiple: false, table_fields: None, source_module: None }
}

// ── format_definition ─────────────────────────────────────────────────────

#[test]
fn format_def_fn_with_params_and_doc() {
    let def = make_def(
        "add", DefKind::Fn,
        Some(vec!["a".into(), "b".into()]),
        Some("Add two numbers.".into()),
    );
    let s = format_definition(&def);
    assert!(s.contains("(fn add [a b])"), "signature missing: {s}");
    assert!(s.contains("Add two numbers."), "doc missing: {s}");
    assert!(s.contains("```fennel"), "no fennel code block: {s}");
    assert!(s.contains("\n\n"), "doc separator must be present: {s}");
}

#[test]
fn format_def_fn_with_params_no_doc() {
    let def = make_def("f", DefKind::Fn, Some(vec!["x".into()]), None);
    let s = format_definition(&def);
    assert!(s.contains("(fn f [x])"), "signature: {s}");
    assert!(!s.contains("\n\n"), "no doc separator without doc: {s}");
}

#[test]
fn format_def_fn_empty_params() {
    let def = make_def("thunk", DefKind::Fn, Some(vec![]), None);
    let s = format_definition(&def);
    assert!(s.contains("(fn thunk [])"), "empty param list: {s}");
}

#[test]
fn format_def_no_params_variant() {
    let def = make_def("x", DefKind::Local, None, None);
    let s = format_definition(&def);
    assert!(s.contains("(local x)"), "no-param form: {s}");
    assert!(!s.contains('['), "no bracket when params is None: {s}");
}

#[test]
fn format_def_macro_uses_fn_prefix() {
    let def = make_def("my-mac", DefKind::Macro, Some(vec!["form".into()]), None);
    let s = format_definition(&def);
    assert!(s.contains("(fn my-mac [form])"), "macro signature: {s}");
}

#[test]
fn format_def_kind_str_variants() {
    let cases = [
        (DefKind::Local,       "local"),
        (DefKind::Var,         "var"),
        (DefKind::Global,      "global"),
        (DefKind::Param,       "param"),
        (DefKind::LoopVar,     "loop-var"),
        (DefKind::Destructured,"let"),
    ];
    for (kind, expected) in cases {
        let def = make_def("x", kind, None, None);
        let s = format_definition(&def);
        assert!(s.contains(expected), "kind_str for {expected}: {s}");
    }
}

#[test]
fn format_def_output_is_fennel_markdown_block() {
    let def = make_def("f", DefKind::Local, None, None);
    let s = format_definition(&def);
    assert!(s.starts_with("```fennel\n"), "must open with ```fennel: {s}");
    assert!(s.contains("\n```"), "must close code block: {s}");
}

#[test]
fn format_def_fn_with_doc_and_no_params() {
    let def = make_def("anon", DefKind::Fn, None, Some("docs".into()));
    let s = format_definition(&def);
    assert!(s.contains("(fn anon)"), "anonymous fn: {s}");
    assert!(s.contains("docs"), "doc present: {s}");
}

// ── def_kind_to_symbol_kind ───────────────────────────────────────────────

#[test]
fn symbol_kind_fn_is_function() {
    assert_eq!(def_kind_to_symbol_kind(&DefKind::Fn), SymbolKind::Function);
}

#[test]
fn symbol_kind_macro_is_operator() {
    assert_eq!(def_kind_to_symbol_kind(&DefKind::Macro), SymbolKind::Operator);
}

#[test]
fn symbol_kind_local_var_destructured_are_variable() {
    for kind in [DefKind::Local, DefKind::Var, DefKind::Destructured] {
        assert_eq!(
            def_kind_to_symbol_kind(&kind), SymbolKind::Variable,
            "{kind:?} should be VARIABLE"
        );
    }
}

#[test]
fn symbol_kind_global_param_loopvar_are_variable() {
    for kind in [DefKind::Global, DefKind::Param, DefKind::LoopVar] {
        assert_eq!(
            def_kind_to_symbol_kind(&kind), SymbolKind::Variable,
            "{kind:?} should be VARIABLE"
        );
    }
}

// ── known_global ──────────────────────────────────────────────────────────

#[test]
fn known_global_project_specific_frameworks() {
    assert!(known_global("love"), "LÖVE game framework");
    assert!(known_global("vim"),  "Neovim Lua API");
    assert!(known_global("hs"),   "Hammerspoon");
    assert!(known_global("mp"),   "mpv scripting");
}

#[test]
fn known_global_lua54_builtins_covered_by_docs_too() {
    assert!(known_global("_G"));
    assert!(known_global("_VERSION"));
    assert!(known_global("arg"));
    assert!(known_global("debug"));
    assert!(known_global("package"));
    assert!(known_global("fennel"));
    assert!(known_global("___repl___"));
    assert!(known_global("utf8"));
}

#[test]
fn known_global_platform_specific_not_in_lua54_default() {
    assert!(known_global("bit"));
    assert!(known_global("bit32"));
    assert!(known_global("jit"));
    assert!(known_global("ffi"));
}

#[test]
fn known_global_unknown_names_false() {
    assert!(!known_global("my_custom_lib"));
    assert!(!known_global("undefined_xyz"));
    assert!(!known_global(""));
    assert!(!known_global("Love")); // case-sensitive
}

#[test]
fn as_arrow_is_known_builtin() {
    // `as->` is a standard Fennel threading macro; using it must not
    // produce an "unknown identifier" diagnostic.
    let mut ws = Workspace::new();
    let builtins = ws.builtins();
    assert!(builtins.is_known("as->"),  "as-> missing from builtin set");
    // Confirm the peer threading macros are still present
    assert!(builtins.is_known("->"),    "-> must be known");
    assert!(builtins.is_known("->>"),   "->> must be known");
    assert!(builtins.is_known("-?>"),   "-?> must be known");
    assert!(builtins.is_known("-?>>"),  "-?>> must be known");
}

// ── find_var_keyword_before ───────────────────────────────────────────────

#[test]
fn find_var_before_finds_var() {
    let text = "(var x 1)";
    assert_eq!(find_var_keyword_before(text, 5), Some(1));
}

#[test]
fn find_var_before_with_extra_whitespace() {
    let text = "(var  x 1)";
    assert_eq!(find_var_keyword_before(text, 6), Some(1));
}

#[test]
fn find_var_before_not_found_for_local() {
    let text = "(local x 1)";
    assert_eq!(find_var_keyword_before(text, 7), None);
}

#[test]
fn find_var_before_not_found_when_identifier() {
    let text = "myvar x";
    assert_eq!(find_var_keyword_before(text, 6), None);
}

#[test]
fn find_var_before_at_start_of_string() {
    assert_eq!(find_var_keyword_before("x", 0), None);
}

// ── find_local_keyword_before ─────────────────────────────────────────────

#[test]
fn find_local_before_finds_local() {
    // "(local x 1)": x is at byte 7
    assert_eq!(find_local_keyword_before("(local x 1)", 7), Some(1));
}

#[test]
fn find_local_before_extra_whitespace() {
    // "(local  x 1)": x is at byte 8 due to extra space
    assert_eq!(find_local_keyword_before("(local  x 1)", 8), Some(1));
}

#[test]
fn find_local_before_not_found_for_var() {
    assert_eq!(find_local_keyword_before("(var x 1)", 5), None);
}

#[test]
fn find_local_before_requires_word_boundary() {
    // "notlocal" ends with "local" but is a single identifier — must not match
    assert_eq!(find_local_keyword_before("(notlocal x 1)", 10), None);
}

#[test]
fn find_local_before_at_start_of_string() {
    assert_eq!(find_local_keyword_before("x", 0), None);
}

// ── find_containing_local_form ────────────────────────────────────────────

#[test]
fn containing_local_form_finds_local_binding() {
    // "(local x 42)": x is at byte 7
    let ast = parse_ast("(local x 42)");
    let span = find_containing_local_form(&ast, 7);
    assert!(span.is_some(), "should find the local form");
    assert_eq!(span.unwrap().start, 0, "form starts at opening paren");
}

#[test]
fn containing_local_form_finds_var_binding() {
    // "(var y 1)": y is at byte 5
    let ast = parse_ast("(var y 1)");
    let span = find_containing_local_form(&ast, 5);
    assert!(span.is_some(), "should find the var form");
    assert_eq!(span.unwrap().start, 0);
}

#[test]
fn containing_local_form_finds_global_binding() {
    // "(global z 99)": z is at byte 8
    let ast = parse_ast("(global z 99)");
    let span = find_containing_local_form(&ast, 8);
    assert!(span.is_some(), "should find the global form");
}

#[test]
fn containing_local_form_returns_none_for_non_binding_form() {
    let ast = parse_ast("(+ 1 2)");
    assert!(find_containing_local_form(&ast, 1).is_none());
}

#[test]
fn containing_local_form_returns_none_when_byte_not_on_name() {
    // "(local x 42)": byte 9 is inside "42", not the binding name
    let ast = parse_ast("(local x 42)");
    assert!(find_containing_local_form(&ast, 9).is_none(),
        "byte inside value expression should not match");
}

// ── enclosing_fn_def ──────────────────────────────────────────────────────

#[test]
fn enclosing_fn_def_byte_inside_fn_returns_def() {
    let src = "(fn greet [name] name)";
    let ast = parse_ast(src);
    let analysis = analyze(src);
    // A byte inside the body (past the param list) should be enclosed by greet
    let inside = src.find("name)").unwrap() as u32;
    let result = enclosing_fn_def(&analysis, &ast, inside);
    assert!(result.is_some(), "should find enclosing fn");
    assert_eq!(result.unwrap().name, "greet");
}

#[test]
fn enclosing_fn_def_byte_outside_any_fn_returns_none() {
    let src = "(local x 1)";
    let ast = parse_ast(src);
    let analysis = analyze(src);
    let x_def = analysis.defs.values().find(|d| d.name == "x").unwrap();
    assert!(enclosing_fn_def(&analysis, &ast, x_def.span.start).is_none());
}

#[test]
fn enclosing_fn_def_nested_fns_returns_innermost() {
    let src = "(fn outer [] (fn inner [] nil))";
    let ast = parse_ast(src);
    let analysis = analyze(src);
    // A byte inside "nil" (inside inner) should return inner, not outer
    let inside_nil = src.find("nil").unwrap() as u32 + 1;
    let result = enclosing_fn_def(&analysis, &ast, inside_nil);
    assert_eq!(result.unwrap().name, "inner",
        "innermost enclosing fn should be returned");
}

// ── collect_incoming (via Workspace) ──────────────────────────────────────

fn ws_uri(src: &str) -> (Workspace, String) {
    let mut ws = Workspace::new();
    let uri = "file:///ch_test.fnl".to_string();
    ws.update(&uri, None, src.to_string(), 1, &Default::default(), &NameMap::new());
    (ws, uri)
}

#[test]
fn collect_incoming_finds_same_file_caller() {
    let (ws, uri) = ws_uri("(fn greet [name] nil)\n(fn main [] (greet \"world\"))");
    let callers = ws.with_file(&uri, |file| {
        let greet = file.analysis.defs.values().find(|d| d.name == "greet")?;
        let mut out = Vec::new();
        collect_incoming(file, greet.span.start, &uri, &mut out);
        Some(out.into_iter().map(|c| c.item.name).collect::<Vec<_>>())
    }).flatten().unwrap_or_default();
    assert!(callers.contains(&"main".to_string()),
        "should find main as caller; got: {callers:?}");
}

#[test]
fn collect_incoming_empty_when_no_callers() {
    let (ws, uri) = ws_uri("(fn greet [name] nil)");
    let callers = ws.with_file(&uri, |file| {
        let greet = file.analysis.defs.values().find(|d| d.name == "greet")?;
        let mut out = Vec::new();
        collect_incoming(file, greet.span.start, &uri, &mut out);
        Some(out)
    }).flatten().unwrap_or_default();
    assert!(callers.is_empty(), "no callers expected");
}

#[test]
fn collect_incoming_groups_multiple_calls_into_one_entry() {
    let (ws, uri) = ws_uri("(fn f [] nil)\n(fn caller [] (f) (f))");
    let entries = ws.with_file(&uri, |file| {
        let f_def = file.analysis.defs.values().find(|d| d.name == "f")?;
        let mut out = Vec::new();
        collect_incoming(file, f_def.span.start, &uri, &mut out);
        Some(out)
    }).flatten().unwrap_or_default();
    assert_eq!(entries.len(), 1, "two calls from same fn = one caller entry");
    assert_eq!(entries[0].from_ranges.len(), 2, "two call site ranges");
}

// ── collect_outgoing (via Workspace) ──────────────────────────────────────

#[test]
fn collect_outgoing_finds_user_fn_callee() {
    let (ws, uri) = ws_uri("(fn helper [] nil)\n(fn main [] (helper))");
    let callees = ws.with_file(&uri, |file| {
        let main = file.analysis.defs.values().find(|d| d.name == "main")?;
        let span = fn_form_span(&file.ast, main.span.start)?;
        let mut out = Vec::new();
        for node in &file.ast {
            collect_outgoing(node, &span, &file.analysis, &file.text, &file.uri, &mut out);
        }
        Some(out.into_iter().map(|c| c.item.name).collect::<Vec<_>>())
    }).flatten().unwrap_or_default();
    assert!(callees.contains(&"helper".to_string()),
        "should find helper as callee; got: {callees:?}");
}

#[test]
fn collect_outgoing_skips_builtins() {
    let (ws, uri) = ws_uri("(fn greet [name] (print name))");
    let callees = ws.with_file(&uri, |file| {
        let greet = file.analysis.defs.values().find(|d| d.name == "greet")?;
        let span = fn_form_span(&file.ast, greet.span.start)?;
        let mut out = Vec::new();
        for node in &file.ast {
            collect_outgoing(node, &span, &file.analysis, &file.text, &file.uri, &mut out);
        }
        Some(out)
    }).flatten().unwrap_or_default();
    assert!(callees.is_empty(), "builtin calls should not appear as outgoing calls");
}

#[test]
fn collect_outgoing_deduplicates_repeated_callee() {
    let (ws, uri) = ws_uri("(fn helper [] nil)\n(fn main [] (helper) (helper))");
    let out = ws.with_file(&uri, |file| {
        let main = file.analysis.defs.values().find(|d| d.name == "main")?;
        let span = fn_form_span(&file.ast, main.span.start)?;
        let mut out = Vec::new();
        for node in &file.ast {
            collect_outgoing(node, &span, &file.analysis, &file.text, &file.uri, &mut out);
        }
        Some(out)
    }).flatten().unwrap_or_default();
    assert_eq!(out.len(), 1, "two calls to helper = one outgoing entry; got: {}", out.len());
    assert_eq!(out[0].from_ranges.len(), 2, "must have two call site ranges");
}

// ── range formatting helpers ───────────────────────────────────────────────

#[test]
fn range_format_clean_form_produces_identical_output() {
    let (ws, uri) = ws_uri("(fn f [] nil)\n(fn g [] nil)\n");
    let already_clean = ws.with_file(&uri, |file| {
        let node = file.ast.first()?;
        let region = &file.text[node.span.start as usize..node.span.end as usize];
        let formatted = fennel_ls::fmt::format(region)?;
        // The formatter adds a trailing newline; strip it before comparing since
        // the range handler also strips it for non-end-of-file regions.
        Some(formatted.trim_end_matches('\n') == region)
    }).flatten().unwrap_or(false);
    assert!(already_clean, "clean form should round-trip unchanged through formatter");
}

#[test]
fn range_format_messy_form_produces_different_output() {
    let (ws, uri) = ws_uri("(fn f [] nil)\n(fn g   [] nil)\n");
    let changed = ws.with_file(&uri, |file| {
        // The second form has extra spaces — it should format differently.
        assert_eq!(file.ast.len(), 2, "should parse two top-level forms");
        let second = &file.ast[1];
        let start = second.span.start as usize;
        let end = second.span.end as usize;
        let region = &file.text[start..end];
        let formatted = fennel_ls::fmt::format(region)?;
        Some(formatted.trim_end_matches('\n') != region)
    }).flatten().unwrap_or(false);
    assert!(changed, "messy form should produce different formatted output");
}

#[test]
fn range_format_only_affects_selected_top_level_form() {
    let src = "(fn f [] nil)\n(fn g   [] nil)\n";
    let (ws, uri) = ws_uri(src);
    ws.with_file(&uri, |file| {
        // The second form starts after the first form + newline.
        let second = &file.ast[1];
        assert!(second.span.start as usize >= "(fn f [] nil)\n".len(),
            "second form must start after the first; span.start={}", second.span.start);
    });
}

// ── require_module_at ─────────────────────────────────────────────────────

fn parse_ast(src: &str) -> Vec<fennel_ls::parser::AstNode> {
    fennel_ls::parser::Parser::parse(src).0
}

#[test]
fn require_module_at_keyword_arg() {
    let src = "(require :my.mod)";
    let ast = parse_ast(src);
    assert_eq!(require_module_at(10, &ast), Some("my.mod".into()));
}

#[test]
fn require_module_at_string_arg() {
    let src = r#"(require "my.mod")"#;
    let ast = parse_ast(src);
    assert_eq!(require_module_at(10, &ast), Some("my.mod".into()));
}

#[test]
fn require_module_at_wrong_byte_returns_none() {
    let src = "(require :my.mod)";
    let ast = parse_ast(src);
    assert_eq!(require_module_at(0, &ast), None);
}

#[test]
fn require_module_at_not_a_require_returns_none() {
    let src = "(print :hello)";
    let ast = parse_ast(src);
    assert_eq!(require_module_at(8, &ast), None);
}

// ── apply_incremental_changes ─────────────────────────────────────────────

fn pos(line: u32, character: u32) -> Position {
    Position { line, character }
}

fn change(start: Position, end: Position, text: &str) -> TextDocumentContentChangeEvent {
    TextDocumentContentChangeEvent {
        range: Some(Range { start, end }),
        text: text.to_string(),
    }
}

fn full_change(text: &str) -> TextDocumentContentChangeEvent {
    TextDocumentContentChangeEvent {
        range: None,
        text: text.to_string(),
    }
}

#[test]
fn incremental_single_char_insert() {
    let result = apply_incremental_changes(
        "hello world".into(),
        vec![change(pos(0, 5), pos(0, 5), ",")],
    );
    assert_eq!(result, "hello, world");
}

#[test]
fn incremental_replace_word() {
    let result = apply_incremental_changes(
        "hello world".into(),
        vec![change(pos(0, 6), pos(0, 11), "Rust")],
    );
    assert_eq!(result, "hello Rust");
}

#[test]
fn incremental_delete_range() {
    let result = apply_incremental_changes(
        "hello world".into(),
        vec![change(pos(0, 5), pos(0, 11), "")],
    );
    assert_eq!(result, "hello");
}

#[test]
fn incremental_multiline_edit() {
    let result = apply_incremental_changes(
        "line1\nline2\nline3".into(),
        vec![change(pos(1, 0), pos(1, 5), "replaced")],
    );
    assert_eq!(result, "line1\nreplaced\nline3");
}

#[test]
fn incremental_sequential_edits_applied_in_order() {
    // First insert a comma, then replace "world" in the result
    let result = apply_incremental_changes(
        "hello world".into(),
        vec![
            change(pos(0, 5), pos(0, 5), ","),   // "hello, world"
            change(pos(0, 7), pos(0, 12), "Rust"), // "hello, Rust"
        ],
    );
    assert_eq!(result, "hello, Rust");
}

#[test]
fn incremental_full_replacement_when_no_range() {
    let result = apply_incremental_changes(
        "old content".into(),
        vec![full_change("new content")],
    );
    assert_eq!(result, "new content");
}

// ── build_semantic_tokens ─────────────────────────────────────────────────

fn analyze(src: &str) -> fennel_ls::analyzer::AnalysisResult {
    let (ast, _) = fennel_ls::parser::Parser::parse(src);
    fennel_ls::analyzer::analyze(&ast)
}

fn sem_tokens(src: &str) -> Vec<SemanticToken> {
    build_semantic_tokens(&analyze(src), src)
}

#[test]
fn semantic_tokens_fn_def_produces_function_token() {
    let tokens = sem_tokens("(fn add [a b] (+ a b))");
    // `add` is a Fn definition → token_type 0 (function), modifier has definition bit
    let fn_tok = tokens.iter().find(|t| t.token_type == 0 && t.token_modifiers_bitset & 1 != 0);
    assert!(fn_tok.is_some(), "expected a function definition token: {tokens:?}");
}

#[test]
fn semantic_tokens_param_produces_parameter_token() {
    let tokens = sem_tokens("(fn f [x] x)");
    let param_tok = tokens.iter().find(|t| t.token_type == 1);
    assert!(param_tok.is_some(), "expected a parameter token: {tokens:?}");
}

#[test]
fn semantic_tokens_local_produces_variable_token() {
    let tokens = sem_tokens("(local x 1) x");
    let var_tok = tokens.iter().find(|t| t.token_type == 2);
    assert!(var_tok.is_some(), "expected a variable token: {tokens:?}");
}

#[test]
fn semantic_tokens_unresolved_refs_skipped() {
    // `undefined` has no def_byte, so it should produce no token
    let tokens = sem_tokens("undefined");
    assert!(tokens.is_empty(), "unresolved ref should produce no token: {tokens:?}");
}

#[test]
fn semantic_tokens_delta_encoding_is_cumulative() {
    // Two defs on different lines; delta_line of second must be 1, not line number
    let tokens = sem_tokens("(local a 1)\n(local b 2)");
    assert!(tokens.len() >= 2, "need at least two tokens");
    assert_eq!(tokens[0].delta_line, 0, "first token on line 0");
    assert_eq!(tokens[1].delta_line, 1, "second token one line below first");
}

// ── Semantic token positions with non-ASCII ───────────────────────────────

#[test]
fn semantic_tokens_ascii_col_correct() {
    // Sanity: pure ASCII (byte col == UTF-16 col).
    // "(local foo 1) foo"
    //  01234567890123456
    // foo def at byte 7, foo ref at byte 14 → delta = 7
    let tokens = sem_tokens("(local foo 1) foo");
    let var_toks: Vec<_> = tokens.iter().filter(|t| t.token_type == 2).collect();
    assert_eq!(var_toks.len(), 2, "expected 2 foo tokens: {tokens:?}");
    assert_eq!(var_toks[0].delta_start, 7, "foo def at UTF-16 col 7");
    assert_eq!(var_toks[1].delta_start, 7, "foo ref delta 7");
}

#[test]
fn semantic_tokens_col_correct_after_bmp_non_ascii() {
    // "(local foo \"caf\u{E9}\") foo"
    // é = U+00E9: 2 UTF-8 bytes, 1 UTF-16 unit
    // foo def: byte 7 → UTF-16 col 7 (no non-ASCII before it)
    // foo ref: byte 20 → UTF-16 col 19 (é saves 1 unit vs bytes)
    // delta: 19 - 7 = 12
    let src = "(local foo \"caf\u{00E9}\") foo";
    let tokens = sem_tokens(src);
    let var_toks: Vec<_> = tokens.iter().filter(|t| t.token_type == 2).collect();
    assert_eq!(var_toks.len(), 2, "expected 2 foo tokens: {tokens:?}");
    assert_eq!(var_toks[0].delta_start, 7, "foo def at UTF-16 col 7");
    assert_eq!(var_toks[1].delta_start, 12, "foo ref delta 12 UTF-16 units");
}

#[test]
fn semantic_tokens_col_correct_after_supplementary_non_ascii() {
    // "\u{1F389} (local foo 1) foo"
    // 🎉 = U+1F389: 4 UTF-8 bytes, 2 UTF-16 units
    //   bytes: 🎉=0-3, ' '=4, (=5, l=6, o=7, c=8, a=9, l=10, ' '=11, f=12
    // UTF-16: 🎉=2, ' '=1, (=1, l=1, o=1, c=1, a=1, l=1, ' '=1 → col 10 for f
    let src = "\u{1F389} (local foo 1) foo";
    let tokens = sem_tokens(src);
    let var_toks: Vec<_> = tokens.iter().filter(|t| t.token_type == 2).collect();
    assert_eq!(var_toks.len(), 2, "expected 2 foo tokens: {tokens:?}");
    assert_eq!(var_toks[0].delta_start, 10, "foo def at UTF-16 col 10");
}

#[test]
fn semantic_tokens_length_correct_for_bmp_non_ascii_name() {
    // café: c(1)+a(1)+f(1)+é(2 bytes UTF-8, 1 unit UTF-16) = 5 bytes, 4 UTF-16 units
    let tokens = sem_tokens("(local caf\u{00E9} 1)");
    let var_tok = tokens.iter().find(|t| t.token_type == 2 && t.token_modifiers_bitset & 1 != 0);
    assert!(var_tok.is_some(), "expected variable definition token: {tokens:?}");
    assert_eq!(var_tok.unwrap().length, 4, "token length must be 4 UTF-16 units");
}

#[test]
fn semantic_tokens_length_correct_for_supplementary_plane_name() {
    // a🎉b: a(1)+🎉(4 bytes, 2 UTF-16 units)+b(1) = 6 bytes, 4 UTF-16 units
    let tokens = sem_tokens("(local a\u{1F389}b 1)");
    let var_tok = tokens.iter().find(|t| t.token_type == 2 && t.token_modifiers_bitset & 1 != 0);
    assert!(var_tok.is_some(), "expected variable token: {tokens:?}");
    assert_eq!(var_tok.unwrap().length, 4, "token length must be 4 UTF-16 units");
}

// ── platform_from_str ─────────────────────────────────────────────────────

#[test]
fn platform_from_str_all_variants() {
    assert!(matches!(platform_from_str("lua51"), Some(Platform::Lua51)));
    assert!(matches!(platform_from_str("lua52"), Some(Platform::Lua52)));
    assert!(matches!(platform_from_str("lua53"), Some(Platform::Lua53)));
    assert!(matches!(platform_from_str("lua54"), Some(Platform::Lua54)));
    assert!(matches!(platform_from_str("luajit"), Some(Platform::LuaJIT)));
    assert!(matches!(platform_from_str("luau"), Some(Platform::Luau)));
    assert!(platform_from_str("lua99").is_none());
    assert!(platform_from_str("").is_none());
}

// ── Completion (defs_at) ──────────────────────────────────────────────────

fn completion_names_at(src: &str, byte: u32) -> Vec<String> {
    let analysis = analyze(src);
    analysis.defs_at(byte).into_iter().map(|d| d.name.clone()).collect()
}

#[test]
fn completion_includes_locals_in_scope() {
    let src = "(local foo 1) (local bar 2) |";
    //                                             ^ byte = src.len()-1
    let byte = src.len() as u32 - 1;
    let names = completion_names_at(src, byte);
    assert!(names.contains(&"foo".to_string()), "foo must appear in completions");
    assert!(names.contains(&"bar".to_string()), "bar must appear in completions");
}

#[test]
fn completion_includes_fn_params_inside_fn() {
    // Cursor is inside the fn body (after the opening of print call)
    let src = "(fn greet [name age] (print name))";
    // byte inside the body — just before the closing paren
    let byte = src.len() as u32 - 2;
    let names = completion_names_at(src, byte);
    assert!(names.contains(&"name".to_string()), "param `name` must be offered");
    assert!(names.contains(&"age".to_string()),  "param `age` must be offered");
}

#[test]
fn completion_excludes_locals_not_yet_in_scope() {
    // `bar` is defined after the cursor position
    let src = "(local foo 1) | (local bar 2)";
    let byte = src.find('|').unwrap() as u32;
    let src = src.replace('|', " ");
    let names = completion_names_at(&src, byte);
    assert!(names.contains(&"foo".to_string()), "foo is before cursor — must appear");
    assert!(!names.contains(&"bar".to_string()), "bar is after cursor — must not appear");
}

#[test]
fn completion_excludes_params_outside_fn() {
    let src = "(fn f [x] x) |";
    let byte = src.len() as u32 - 1;
    let names = completion_names_at(src, byte);
    assert!(!names.contains(&"x".to_string()), "param must not leak outside fn");
}

#[test]
fn completion_includes_loop_var_inside_for() {
    let src = "(for [i 1 10] |)";
    let byte = src.find('|').unwrap() as u32;
    let src = src.replace('|', "i");
    let names = completion_names_at(&src, byte);
    assert!(names.contains(&"i".to_string()), "loop var must be offered inside for body");
}

#[test]
fn completion_no_duplicates() {
    let src = "(local x 1) (local x 2) |";
    let byte = src.len() as u32 - 1;
    let names = completion_names_at(src, byte);
    let x_count = names.iter().filter(|n| n.as_str() == "x").count();
    assert_eq!(x_count, 1, "shadowed name must appear exactly once");
}

// ── multisym_prefix_at ────────────────────────────────────────────────────

#[test]
fn multisym_prefix_single_dot() {
    assert_eq!(multisym_prefix_at("(Lib.", 5), Some("Lib.".into()));
}

#[test]
fn multisym_prefix_nested_dot() {
    assert_eq!(multisym_prefix_at("(Lib.mod.", 9), Some("Lib.mod.".into()));
}

#[test]
fn multisym_prefix_colon_method() {
    assert_eq!(multisym_prefix_at("(obj:", 5), Some("obj:".into()));
}

#[test]
fn multisym_prefix_partial_name_after_dot() {
    // "Lib.fo" — cursor mid-word after dot, prefix is still "Lib."
    assert_eq!(multisym_prefix_at("(Lib.fo", 7), Some("Lib.".into()));
}

#[test]
fn multisym_prefix_no_separator_returns_none() {
    assert_eq!(multisym_prefix_at("(foo", 4), None);
}

#[test]
fn multisym_prefix_empty_returns_none() {
    assert_eq!(multisym_prefix_at("", 0), None);
}

// ── collect_folds ─────────────────────────────────────────────────────────

fn folds_for(src: &str) -> Vec<FoldingRange> {
    let (ast, _) = fennel_ls::parser::Parser::parse(src);
    let mut ranges = Vec::new();
    for node in &ast {
        collect_folds(node, src, &mut ranges);
    }
    ranges
}

#[test]
fn folding_multiline_list_produces_fold() {
    let src = "(fn foo []\n  (+ 1 2))";
    let ranges = folds_for(src);
    assert_eq!(ranges.len(), 1, "one multiline list → one fold");
    assert_eq!(ranges[0].start_line, 0);
    assert_eq!(ranges[0].end_line, 1);
}

#[test]
fn folding_single_line_no_fold() {
    let src = "(fn foo [] (+ 1 2))";
    assert!(folds_for(src).is_empty(), "single-line list must not fold");
}

#[test]
fn folding_nested_multiline_both_fold() {
    let src = "(fn foo []\n  (let [x 1]\n    x))";
    let ranges = folds_for(src);
    assert_eq!(ranges.len(), 2, "outer fn and inner let both span multiple lines");
}

#[test]
fn folding_sequence_folds_when_multiline() {
    let src = "(local x [\n  1\n  2])";
    let ranges = folds_for(src);
    assert!(ranges.iter().any(|r| r.start_line < r.end_line),
        "multiline sequence must produce a fold");
}

// ── enclosing_call ────────────────────────────────────────────────────────

#[test]
fn enclosing_call_finds_head_byte() {
    let src = "(foo 1 2)";
    let ast = parse_ast(src);
    // cursor anywhere inside the call
    let (head_byte, _) = enclosing_call(&ast, 5).expect("must find enclosing call");
    // head `foo` starts at byte 1
    assert_eq!(head_byte, 1);
}

#[test]
fn enclosing_call_arg_index_first_arg() {
    let src = "(foo aaa bbb)";
    let ast = parse_ast(src);
    // cursor on `aaa` (byte 5)
    let (_, arg_idx) = enclosing_call(&ast, 5).unwrap();
    assert_eq!(arg_idx, 0, "cursor on first arg → active param 0");
}

#[test]
fn enclosing_call_arg_index_second_arg() {
    let src = "(foo aaa bbb)";
    let ast = parse_ast(src);
    // cursor on `bbb` (byte 9)
    let (_, arg_idx) = enclosing_call(&ast, 9).unwrap();
    assert_eq!(arg_idx, 1, "cursor on second arg → active param 1");
}

#[test]
fn enclosing_call_innermost_wins() {
    let src = "(outer (inner 1))";
    let ast = parse_ast(src);
    // cursor on `1` — should resolve to `inner`, not `outer`
    let (head_byte, _) = enclosing_call(&ast, 14).unwrap();
    // `inner` starts at byte 8
    assert_eq!(head_byte, 8);
}

#[test]
fn enclosing_call_bare_symbol_returns_none() {
    let ast = parse_ast("foo");
    assert!(enclosing_call(&ast, 1).is_none());
}

// ── collect_inlay_hints ───────────────────────────────────────────────────

fn inlay_hint_labels(src: &str) -> Vec<String> {
    let (ast, _) = fennel_ls::parser::Parser::parse(src);
    let analysis = fennel_ls::analyzer::analyze(&ast);
    let mut hints = Vec::new();
    for node in &ast {
        collect_inlay_hints(node, src, &analysis, &mut hints);
    }
    hints.into_iter().map(|h| h.label).collect()
}

#[test]
fn inlay_hints_emitted_for_known_fn() {
    let labels = inlay_hint_labels("(fn add [a b] (+ a b)) (add 1 2)");
    assert!(labels.contains(&"a:".to_string()));
    assert!(labels.contains(&"b:".to_string()));
}

#[test]
fn inlay_hints_skip_rest_param() {
    let labels = inlay_hint_labels("(fn f [a & rest] a) (f 1 2 3)");
    assert!(labels.contains(&"a:".to_string()), "first named param gets a hint");
    assert!(!labels.iter().any(|l| l.contains('&')), "rest param must not emit a hint");
}

#[test]
fn inlay_hints_skip_underscore_param() {
    let labels = inlay_hint_labels("(fn f [_ignored b] b) (f 1 2)");
    assert!(!labels.iter().any(|l| l.starts_with('_')), "underscore param must not emit hint");
    assert!(labels.contains(&"b:".to_string()), "named param after underscore still hints");
}

#[test]
fn inlay_hints_unknown_fn_no_hints() {
    // Call to an unresolved function — no params known, no hints
    let labels = inlay_hint_labels("(unknown-fn 1 2 3)");
    assert!(labels.is_empty());
}

#[test]
fn inlay_hints_nested_calls_both_hinted() {
    let src = "(fn add [a b] (+ a b)) (fn neg [x] (- x)) (add (neg 1) 2)";
    let labels = inlay_hint_labels(src);
    assert!(labels.contains(&"a:".to_string()));
    assert!(labels.contains(&"b:".to_string()));
    assert!(labels.contains(&"x:".to_string()));
}

// ── Cross-file require resolution (hover / goto-def / completion) ─────────
//
// These tests exercise the full pipeline: module file →
// workspace.update() with what was found → handler logic pulling from file.modules.

/// Build a Workspace with `main_src` open as `file:///main.fnl`, resolving
/// requires against the files of `dir`.
fn ws_with_require(dir: &Dir, main_src: &str) -> (Workspace, String) {
    let mut ws = Workspace::new();
    let uri = "file:///main.fnl".to_string();
    let mut disk = NameMap::new();
    for module in required_modules(main_src, &Default::default()) {
        let present = require_candidates(&module).iter().map(|c| dir.text(c).is_some()).collect();
        if let Some(path) = resolve_require_path(&module, &present) {
            disk.insert(
                &module,
                Found {
                    path: dir.path(&path),
                    uri: dir.uri(&path),
                    lua: path.ends_with(".lua"),
                    text: dir.text(&path),
                },
            );
        }
    }
    ws.update(&uri, None, main_src.to_string(), 1, &Default::default(), &disk);
    (ws, uri)
}

/// The files of a project, by their paths under its root.
struct Dir(Vec<(&'static str, &'static str)>);

impl Dir {
    fn new() -> Dir {
        Dir(Vec::new())
    }

    fn write(&mut self, path: &'static str, text: &'static str) {
        self.0.push((path, text));
    }

    fn path(&self, path: &str) -> String {
        format!("/project/{path}")
    }

    fn uri(&self, path: &str) -> String {
        format!("file:///project/{path}")
    }

    fn text(&self, path: &str) -> Option<String> {
        self.0.iter().find(|(p, _)| *p == path).map(|(_, t)| t.to_string())
    }
}

/// Return the hover markdown for the symbol at `(line, col)` in `uri`,
/// using only the cross-file module-member path (not builtins / global_docs).
fn module_hover_at(ws: &Workspace, uri: &str, line: u32, col: u32) -> Option<String> {
    ws.with_file(uri, |file| {
        let byte = fennel_ls::text::position_to_byte(
            &file.text,
            Position { line, character: col },
        )? as u32;
        let sym = file.analysis.symbol_at(byte)?;
        let (mod_root, member) = split_multisym(&sym.name)?;
        let member_root = member.split(['.', ':']).next().unwrap_or(&member);
        let def = file.modules.get(&mod_root)?.defs.get(member_root)?;
        Some(format_definition(def))
    }).flatten()
}

/// Goto-def: return `(target_uri_filename, start_col)` for module member.
fn module_goto_def_at(ws: &Workspace, uri: &str, line: u32, col: u32) -> Option<(String, u32)> {
    ws.with_file(uri, |file| {
        let byte = fennel_ls::text::position_to_byte(
            &file.text,
            Position { line, character: col },
        )? as u32;
        let sym = file.analysis.symbol_at(byte)?;
        let (mod_root, member) = split_multisym(&sym.name)?;
        let member_root = member.split(['.', ':']).next().unwrap_or(&member);
        let exports = file.modules.get(&mod_root)?;
        let def = exports.defs.get(member_root)?;
        let range = fennel_ls::text::span_to_range(&exports.text, &def.span);
        let filename = exports.uri.split('/').last().unwrap_or("").to_string();
        Some((filename, range.start.character))
    }).flatten()
}

/// Completion: labels from module exports for a given multisym prefix.
fn module_completion_labels(ws: &Workspace, uri: &str, line: u32, col: u32) -> Vec<String> {
    ws.with_file(uri, |file| {
        let byte = fennel_ls::text::position_to_byte(
            &file.text,
            Position { line, character: col },
        ).unwrap_or(0) as u32;
        let pfx = multisym_prefix_at(&file.text, byte as usize)?;
        let mut labels = Vec::new();
        for i in 0..file.modules.len() {
            let binding = file.modules.name_at(i);
            let exports = file.modules.value_at(i);
            let expected = format!("{}.", binding);
            if !pfx.starts_with(&expected) { continue; }
            for k in 0..exports.defs.len() {
                labels.push(format!("{}.{}", binding, exports.defs.name_at(k)));
            }
        }
        labels.sort();
        Some(labels)
    }).flatten().unwrap_or_default()
}

#[test]
fn module_hover_shows_member_signature_and_doc() {
    let mut dir = Dir::new();
    dir.write("utils.fnl", r#"(fn greet [name] "Say hello." (.. "Hello, " name))"#);
    // line 0: "(local utils (require :utils))"
    // line 1: "(utils.greet "world")"
    //          0123456789012 — "utils.greet" starts at col 1
    let src = "(local utils (require :utils))\n(utils.greet \"world\")";
    let (ws, uri) = ws_with_require(&dir, src);
    let hover = module_hover_at(&ws, &uri, 1, 5).unwrap();
    assert!(hover.contains("fn greet [name]"), "signature should be in hover: {hover}");
    assert!(hover.contains("Say hello."), "docstring should be in hover: {hover}");
}

#[test]
fn module_hover_none_for_non_module_symbol() {
    let dir = Dir::new();
    let src = "(local x 42) x";
    let (ws, uri) = ws_with_require(&dir, src);
    // `x` has no `.` separator — split_multisym returns None
    let hover = module_hover_at(&ws, &uri, 0, 13);
    assert!(hover.is_none());
}

#[test]
fn module_goto_def_jumps_to_module_file() {
    let mut dir = Dir::new();
    dir.write("geo.fnl", "(fn make-vec [x y] {:x x :y y})");
    // line 0: "(local geo (require :geo))"
    // line 1: "(geo.make-vec 1 2)"
    //          01234567890123
    let src = "(local geo (require :geo))\n(geo.make-vec 1 2)";
    let (ws, uri) = ws_with_require(&dir, src);
    let (filename, _col) = module_goto_def_at(&ws, &uri, 1, 5).unwrap();
    assert_eq!(filename, "geo.fnl", "should jump to geo.fnl, got: {filename}");
}

#[test]
fn module_goto_def_col_matches_def_position() {
    let mut dir = Dir::new();
    // `helper` starts at col 4: "(fn helper [x] x)"
    //                             0123456789
    dir.write("lib.fnl", "(fn helper [x] x)");
    let src = "(local lib (require :lib))\n(lib.helper 42)";
    let (ws, uri) = ws_with_require(&dir, src);
    let (_file, col) = module_goto_def_at(&ws, &uri, 1, 5).unwrap();
    assert_eq!(col, 4, "helper def starts at col 4 in lib.fnl");
}

#[test]
fn module_completion_offers_all_exports() {
    let mut dir = Dir::new();
    dir.write("math.fnl", "(fn add [a b] (+ a b)) (fn sub [a b] (- a b))");
    // Cursor is right after "math." on line 1
    // "(local math (require :math))\n(math."
    //  0         1         2         0123456
    let src = "(local math (require :math))\n(math.";
    let (ws, uri) = ws_with_require(&dir, src);
    let labels = module_completion_labels(&ws, &uri, 1, 6);
    assert!(labels.contains(&"math.add".to_string()), "add should be offered: {labels:?}");
    assert!(labels.contains(&"math.sub".to_string()), "sub should be offered: {labels:?}");
}

#[test]
fn module_completion_empty_without_prefix() {
    let mut dir = Dir::new();
    dir.write("utils.fnl", "(fn foo [] nil)");
    let src = "(local utils (require :utils))\n";
    let (ws, uri) = ws_with_require(&dir, src);
    // No "." in the text before cursor → no module completions
    let labels = module_completion_labels(&ws, &uri, 1, 0);
    assert!(labels.is_empty(), "no prefix → no module completions");
}

#[test]
fn module_diagnostics_no_unknown_identifier_for_member() {
    let mut dir = Dir::new();
    dir.write("utils.fnl", "(fn helper [x] x)");
    let src = "(local utils (require :utils))\n(utils.helper 1)";
    let (ws, uri) = ws_with_require(&dir, src);
    let warnings: Vec<String> = ws.with_file(&uri, |f| {
        f.analysis.warnings.iter().map(|w| w.message.clone()).collect()
    }).unwrap_or_default();
    assert!(
        !warnings.iter().any(|w| w.contains("utils")),
        "no unknown-identifier warning for utils or utils.helper: {warnings:?}"
    );
}

// ── workspace/symbol (all_defs) ───────────────────────────────────────────

#[test]
fn workspace_symbol_finds_def_in_open_file() {
    let mut ws = Workspace::new();
    ws.update("file:///main.fnl", None, "(fn greet [x] x) (local msg \"hi\")".to_string(), 1, &Default::default(), &NameMap::new());
    let defs = ws.all_defs("gre");
    assert!(defs.iter().any(|(_, _, d)| d.name == "greet"), "greet not found: {defs:?}");
}

#[test]
fn workspace_symbol_empty_query_returns_all() {
    let mut ws = Workspace::new();
    ws.update("file:///main.fnl", None, "(fn alpha []) (fn beta [])".to_string(), 1, &Default::default(), &NameMap::new());
    let defs = ws.all_defs("");
    let names: Vec<_> = defs.iter().map(|(_, _, d)| d.name.as_str()).collect();
    assert!(names.contains(&"alpha") && names.contains(&"beta"), "{names:?}");
}

#[test]
fn workspace_symbol_case_insensitive() {
    let mut ws = Workspace::new();
    ws.update("file:///main.fnl", None, "(fn Greet [x] x)".to_string(), 1, &Default::default(), &NameMap::new());
    let defs = ws.all_defs("greet");
    assert!(defs.iter().any(|(_, _, d)| d.name == "Greet"), "case-insensitive miss: {defs:?}");
}

#[test]
fn workspace_symbol_searches_require_cache() {
    let mut dir = Dir::new();
    dir.write("utils.fnl", "(fn helper [] nil)");
    let (ws, _) = ws_with_require(&dir, "(local utils (require :utils))");
    let defs = ws.all_defs("helper");
    assert!(defs.iter().any(|(_, _, d)| d.name == "helper"), "module def not found: {defs:?}");
}

// ── cross-file references ─────────────────────────────────────────────────

#[test]
fn cross_file_refs_finds_uses_in_consumer_file() {
    let mut dir = Dir::new();
    dir.write("utils.fnl", "(fn greet [] nil)");
    let consumer = "(local utils (require :utils))\n(utils.greet)\n(utils.greet)";
    let (ws, _) = ws_with_require(&dir, consumer);
    let def_uri = dir.uri("utils.fnl");
    let refs = ws.cross_file_refs_of(&def_uri, "greet");
    assert_eq!(refs.len(), 2, "expected 2 cross-file refs: {refs:?}");
}

#[test]
fn cross_file_refs_sym_name_is_qualified() {
    let mut dir = Dir::new();
    dir.write("utils.fnl", "(fn greet [] nil)");
    let consumer = "(local utils (require :utils))\n(utils.greet)";
    let (ws, _) = ws_with_require(&dir, consumer);
    let def_uri = dir.uri("utils.fnl");
    let refs = ws.cross_file_refs_of(&def_uri, "greet");
    assert_eq!(refs.len(), 1);
    assert_eq!(refs[0].sym_name, "utils.greet");
}

#[test]
fn cross_file_refs_no_match_for_other_member() {
    let mut dir = Dir::new();
    dir.write("utils.fnl", "(fn greet [] nil) (fn bye [] nil)");
    let consumer = "(local utils (require :utils))\n(utils.greet)";
    let (ws, _) = ws_with_require(&dir, consumer);
    let def_uri = dir.uri("utils.fnl");
    let refs = ws.cross_file_refs_of(&def_uri, "bye");
    assert!(refs.is_empty(), "bye is not called in consumer: {refs:?}");
}

// ── cross-file rename ─────────────────────────────────────────────────────

#[test]
fn cross_file_rename_generates_qualified_new_text() {
    let mut dir = Dir::new();
    dir.write("utils.fnl", "(fn greet [] nil)");
    let consumer = "(local utils (require :utils))\n(utils.greet)";
    let (ws, _) = ws_with_require(&dir, consumer);
    let def_uri = dir.uri("utils.fnl");
    let refs = ws.cross_file_refs_of(&def_uri, "greet");
    assert_eq!(refs.len(), 1);
    // Simulate rename edit: prefix + sep + new_name
    let new_name = "hello";
    let new_sym = {
        let sym = &refs[0].sym_name;
        let sep_idx = sym.find(['.', ':']).unwrap();
        let sep_char = &sym[sep_idx..=sep_idx];
        let prefix = &sym[..sep_idx];
        format!("{}{}{}", prefix, sep_char, new_name)
    };
    assert_eq!(new_sym, "utils.hello");
}

#[test]
fn cross_file_rename_preserves_colon_separator() {
    let mut dir = Dir::new();
    dir.write("obj.fnl", "(fn method [] nil)");
    // Use colon syntax for method call
    let consumer = "(local obj (require :obj))\n(obj:method)";
    let (ws, _) = ws_with_require(&dir, consumer);
    let def_uri = dir.uri("obj.fnl");
    let refs = ws.cross_file_refs_of(&def_uri, "method");
    assert_eq!(refs.len(), 1, "should find the method ref: {refs:?}");
    let sym = &refs[0].sym_name;
    let sep_idx = sym.find(['.', ':']).unwrap();
    assert_eq!(&sym[sep_idx..=sep_idx], ":", "separator should be :");
    let new_sym = format!("{}:{}", &sym[..sep_idx], "newMethod");
    assert_eq!(new_sym, "obj:newMethod");
}

// ── split_multisym ────────────────────────────────────────────────────────

#[test]
fn split_multisym_dot() {
    assert_eq!(split_multisym("utils.helper"), Some(("utils".to_string(), "helper".to_string())));
}

#[test]
fn split_multisym_colon() {
    assert_eq!(split_multisym("obj:method"), Some(("obj".to_string(), "method".to_string())));
}

#[test]
fn split_multisym_no_separator() {
    assert_eq!(split_multisym("plain"), None);
}

#[test]
fn split_multisym_nested_dot() {
    assert_eq!(split_multisym("a.b.c"), Some(("a".to_string(), "b.c".to_string())));
}

// ── collect_enclosing_spans ───────────────────────────────────────────────

#[test]
fn enclosing_spans_cursor_on_symbol() {
    // "(local x 1) x" — cursor on the trailing `x` at byte 12
    // That x has only its own span; no enclosing list.
    let src = "(local x 1) x";
    let ast = parse_ast(src);
    let mut spans = Vec::new();
    for node in &ast {
        collect_enclosing_spans(node, 12, &mut spans);
    }
    // The trailing `x` is a top-level atom — only one span
    assert_eq!(spans.len(), 1);
    assert_eq!(spans[0].start, 12);
}

#[test]
fn enclosing_spans_cursor_inside_list() {
    // "(fn f [a] a)" — cursor on `a` param at byte 7
    // Spans: the `a` symbol (7..7), the sequence `[a]` (6..8), the whole list (0..12)
    let src = "(fn f [a] a)";
    let ast = parse_ast(src);
    let mut spans = Vec::new();
    for node in &ast {
        collect_enclosing_spans(node, 7, &mut spans);
    }
    assert!(spans.len() >= 2, "should find at least the symbol and its enclosing list");
    // Sort by size: smallest first
    spans.sort_by_key(|s| s.end - s.start);
    // Innermost should be just the `a` symbol
    assert_eq!(spans[0].start, 7);
    // Outermost should be the whole fn form starting at 0
    assert_eq!(spans.last().unwrap().start, 0);
}

#[test]
fn enclosing_spans_cursor_inside_each_form() {
    // "(fn f [] nil) (fn g [] nil)" — the two fns do not overlap.
    // A byte inside only the first form should find only that form's spans.
    let src = "(fn f [] nil) (fn g [] nil)";
    let ast = parse_ast(src);
    // byte 4 is 'f' — inside the first fn only
    let mut spans = Vec::new();
    for node in &ast {
        collect_enclosing_spans(node, 4, &mut spans);
    }
    // Should find: the Symbol 'f', the Sequence '[]', the whole first List
    assert!(!spans.is_empty(), "cursor inside first fn must find enclosing spans");
    // All found spans must start at or before byte 4
    for s in &spans {
        assert!(s.start <= 4, "span starts after cursor: {:?}", s);
    }
}

// ── doc_syms_from_nodes ───────────────────────────────────────────────────

fn analyze_and_doc_syms(src: &str) -> Vec<DocumentSymbol> {
    let (ast, _) = fennel_ls::parser::Parser::parse(src);
    let analysis = fennel_ls::analyzer::analyze(&ast);
    doc_syms_from_nodes(&ast, src, &analysis)
}

#[test]
fn doc_syms_named_fn_at_top_level() {
    let syms = analyze_and_doc_syms("(fn greet [name] name)");
    assert_eq!(syms.len(), 1);
    assert_eq!(syms[0].name, "greet");
    assert_eq!(syms[0].kind, SymbolKind::Function);
    assert_eq!(syms[0].detail.as_deref(), Some("fn [name]"));
}

#[test]
fn doc_syms_local_binding() {
    let syms = analyze_and_doc_syms("(local x 42)");
    assert_eq!(syms.len(), 1);
    assert_eq!(syms[0].name, "x");
    assert_eq!(syms[0].kind, SymbolKind::Variable);
}

#[test]
fn doc_syms_multiple_top_level() {
    let syms = analyze_and_doc_syms("(fn f [] nil) (local x 1) (fn g [a] a)");
    let names: Vec<&str> = syms.iter().map(|s| s.name.as_str()).collect();
    assert!(names.contains(&"f"));
    assert!(names.contains(&"x"));
    assert!(names.contains(&"g"));
    assert_eq!(syms.len(), 3);
}

#[test]
fn doc_syms_nested_fn_is_child() {
    // An inner named fn in the body should be a child, not a sibling.
    let src = "(fn outer [] (fn inner [] nil))";
    let syms = analyze_and_doc_syms(src);
    assert_eq!(syms.len(), 1, "only outer at top level");
    assert_eq!(syms[0].name, "outer");
    let children = &syms[0].children;
    assert_eq!(children.len(), 1);
    assert_eq!(children[0].name, "inner");
}

#[test]
fn doc_syms_anonymous_fn_body_surfaced() {
    // (local f (fn [] (fn inner [] nil))) — inner fn inside anonymous fn
    // should appear as a child of f.
    let src = "(local f (fn [] (fn inner [] nil)))";
    let syms = analyze_and_doc_syms(src);
    assert_eq!(syms.len(), 1);
    assert_eq!(syms[0].name, "f");
    let children = &syms[0].children;
    assert_eq!(children[0].name, "inner");
}

#[test]
fn doc_syms_selection_range_is_name_span() {
    // selection_range should point to just the name identifier, not the whole form
    let src = "(fn greet [name] name)";
    // "greet" starts at byte 4
    let syms = analyze_and_doc_syms(src);
    assert_eq!(syms[0].selection_range.start.character, 4,
        "selection_range must start at the name token, not the opening paren");
    // range should start at 0 (the opening paren of the whole form)
    assert_eq!(syms[0].range.start.character, 0);
}

#[test]
fn doc_syms_no_symbols_for_anonymous_forms() {
    // Bare expressions and anonymous fns don't produce symbols
    let syms = analyze_and_doc_syms("(+ 1 2) (fn [x] x)");
    assert!(syms.is_empty(), "no named definitions → no symbols");
}

// ── compute_indent tests ──────────────────────────────────────────────────

#[test]
fn compute_indent_top_level_returns_zero() {
    // No open parens → top-level, indent 0
    assert_eq!(compute_indent("(fn foo [])\n", 12), 0);
}

#[test]
fn compute_indent_inside_one_level() {
    // Cursor is right after the newline in "(fn foo []\n"
    // The opening ( is at col 0, so indent = 1
    let src = "(fn foo []\n";
    assert_eq!(compute_indent(src, src.len()), 1);
}

#[test]
fn compute_indent_inside_nested_form() {
    // "(let [x 1]\n" — [x 1] is closed before the newline, so innermost
    // unclosed paren is (let at col 0 → indent 1
    let src = "(let [x 1]\n";
    assert_eq!(compute_indent(src, src.len()), 1);
}

#[test]
fn compute_indent_inside_open_bracket() {
    // "(let [x\n" — [ at col 5 is unclosed, so indent = 6
    let src = "(let [x\n";
    assert_eq!(compute_indent(src, src.len()), 6);
}

#[test]
fn compute_indent_ignores_parens_in_strings() {
    // The ( inside the string should not open a nesting level
    let src = "(local s \"(not a paren\"\n";
    assert_eq!(compute_indent(src, src.len()), 1);
}

#[test]
fn compute_indent_ignores_parens_in_comments() {
    // The ( after ; is a comment, not a real paren
    let src = "; (fake\n(fn foo []\n";
    assert_eq!(compute_indent(src, src.len()), 1);
}

#[test]
fn compute_indent_closed_form_returns_outer_indent() {
    // "(do (+ 1 2)\n" — inner ( was closed, outer ( at col 0 → indent 1
    let src = "(do (+ 1 2)\n";
    assert_eq!(compute_indent(src, src.len()), 1);
}

// ── related_information tests ─────────────────────────────────────────────

#[test]
fn shadow_warning_has_related_span() {
    let result = analyze("(local x 1)\n(local x 2)\n");
    let shadow = result.warnings.iter().find(|w| w.message.contains("already defined"));
    assert!(shadow.is_some(), "should have a shadow warning");
    assert!(shadow.unwrap().related_span.is_some(), "shadow warning must carry related_span");
}

#[test]
fn non_shadow_warnings_have_no_related_span() {
    let result = analyze("(fn foo [x] x)\n(foo 1 2)\n");
    let arity = result.warnings.iter().find(|w| w.message.contains("expects"));
    assert!(arity.is_some(), "should have an arity warning");
    assert!(arity.unwrap().related_span.is_none(), "arity warning must not carry related_span");
}

// ── warning_code / warning_tags tests ─────────────────────────────────────

#[test]
fn warning_code_shadow() {
    assert_eq!(warning_code("already defined"), Some("shadow"));
}

#[test]
fn warning_code_unused_local() {
    assert_eq!(warning_code("never used"), Some("unused-local"));
}

#[test]
fn warning_code_arity() {
    assert_eq!(warning_code("expects 2 arguments but got 3"), Some("arity"));
}

#[test]
fn warning_code_unknown() {
    assert_eq!(warning_code("unknown identifier `foo`"), Some("unknown"));
}

#[test]
fn warning_tags_unused_local_is_unnecessary() {
    assert_eq!(warning_tags("never used"), Some(vec![DiagnosticTag::Unnecessary]));
}

#[test]
fn warning_tags_unused_param_is_unnecessary() {
    assert_eq!(warning_tags("parameter `x` is unused"), Some(vec![DiagnosticTag::Unnecessary]));
}

#[test]
fn warning_tags_non_unused_is_none() {
    assert_eq!(warning_tags("already defined"), None);
    assert_eq!(warning_tags("expects 1 argument"), None);
}

// ── tokens_to_flat / flat_to_tokens tests ────────────────────────────────

#[test]
fn tokens_roundtrip_through_flat() {
    let tokens = vec![
        SemanticToken { delta_line: 0, delta_start: 3, length: 4, token_type: 0, token_modifiers_bitset: 1 },
        SemanticToken { delta_line: 1, delta_start: 0, length: 2, token_type: 2, token_modifiers_bitset: 0 },
    ];
    let flat = tokens_to_flat(&tokens);
    assert_eq!(flat.len(), 10);
    assert_eq!(flat_to_tokens(&flat), tokens);
}

#[test]
fn flat_to_tokens_ignores_incomplete_tail() {
    let flat = vec![0u32, 1, 2, 3]; // only 4 values, not a multiple of 5
    assert!(flat_to_tokens(&flat).is_empty());
}

// ── file_path_to_module tests ─────────────────────────────────────────────

/// The parts of an absolute path.
fn parts(path: &str) -> Vec<String> {
    path.split('/').map(|p| p.to_string()).collect()
}

#[test]
fn file_path_to_module_simple() {
    let root = parts("/project");
    assert_eq!(
        file_path_to_module(&parts("/project/utils.fnl"), &root),
        Some("utils".into())
    );
}

#[test]
fn file_path_to_module_nested() {
    let root = parts("/project");
    assert_eq!(
        file_path_to_module(&parts("/project/lib/math.fnl"), &root),
        Some("lib.math".into())
    );
}

#[test]
fn file_path_to_module_init() {
    let root = parts("/project");
    assert_eq!(
        file_path_to_module(&parts("/project/mymod/init.fnl"), &root),
        Some("mymod".into())
    );
}

#[test]
fn file_path_to_module_outside_root_returns_none() {
    let root = parts("/project");
    assert_eq!(file_path_to_module(&parts("/other/utils.fnl"), &root), None);
}

// ── inline_value ──────────────────────────────────────────────────────────

fn inline_value_names_at(src: &str, line: u32, col: u32) -> Vec<String> {
    let (ast, _) = fennel_ls::parser::Parser::parse(src);
    let analysis = fennel_ls::analyzer::analyze(&ast);
    let pos = Position { line, character: col };
    let Some(byte) = fennel_ls::text::position_to_byte(src, pos) else { return vec![] };
    let mut names: Vec<String> = analysis
        .defs_at(byte as u32)
        .into_iter()
        .map(|d| d.name.clone())
        .collect();
    names.sort();
    names
}

#[test]
fn inline_value_no_locals_at_top_level() {
    // Stopped on a bare expression with no user-defined bindings
    let names = inline_value_names_at("(+ 1 2)", 0, 1);
    assert!(names.is_empty());
}

#[test]
fn inline_value_single_local_in_scope() {
    // Stopped on line 1 — `x` was defined on line 0 and is visible
    let names = inline_value_names_at("(local x 1)\nx", 1, 0);
    assert_eq!(names, vec!["x"]);
}

#[test]
fn inline_value_multiple_locals_in_scope() {
    let src = "(local a 1)\n(local b 2)\nb";
    let names = inline_value_names_at(src, 2, 0);
    assert!(names.contains(&"a".to_string()));
    assert!(names.contains(&"b".to_string()));
}

#[test]
fn inline_value_defined_after_cursor_not_visible() {
    // Stopped on `x` reference — `y` is defined later and must not appear
    let src = "(local x 1)\nx\n(local y 2)";
    let names = inline_value_names_at(src, 1, 0);
    assert!(names.contains(&"x".to_string()));
    assert!(!names.contains(&"y".to_string()));
}

#[test]
fn inline_value_fn_params_visible_inside_body() {
    // Stopped on the body expression — both params should appear
    let src = "(fn f [a b]\n  (+ a b))";
    let names = inline_value_names_at(src, 1, 2);
    assert!(names.contains(&"a".to_string()));
    assert!(names.contains(&"b".to_string()));
}

#[test]
fn inline_value_fn_name_visible_inside_body() {
    // The fn name itself is in scope for recursion
    let src = "(fn fact [n]\n  n)";
    let names = inline_value_names_at(src, 1, 2);
    assert!(names.contains(&"fact".to_string()));
    assert!(names.contains(&"n".to_string()));
}

#[test]
fn inline_value_nested_scope_sees_outer_bindings() {
    // Inside the let body, both the outer local and the let binding are visible
    let src = "(local x 1)\n(let [y 2]\n  y)";
    let names = inline_value_names_at(src, 2, 2);
    assert!(names.contains(&"x".to_string()));
    assert!(names.contains(&"y".to_string()));
}

#[test]
fn inline_value_let_binding_not_visible_after_scope_ends() {
    // After the let block, `y` goes out of scope
    let src = "(let [y 2] y)\n(+ 1 2)";
    let names = inline_value_names_at(src, 1, 1);
    assert!(!names.contains(&"y".to_string()));
}

#[test]
fn inline_value_var_visible() {
    let src = "(var x 0)\nx";
    let names = inline_value_names_at(src, 1, 0);
    assert!(names.contains(&"x".to_string()));
}

#[test]
fn inline_value_shadow_shows_only_one_entry_per_name() {
    // When `x` is shadowed in an inner scope, defs_at returns only one `x`
    let src = "(local x 1)\n(let [x 2]\n  x)";
    let names = inline_value_names_at(src, 2, 2);
    assert_eq!(names.iter().filter(|n| *n == "x").count(), 1);
}

#[test]
fn inline_value_params_not_visible_outside_fn() {
    // `a` and `b` are fn params — they must not leak to the outer scope
    let src = "(fn f [a b] a)\n(+ 1 2)";
    let names = inline_value_names_at(src, 1, 1);
    assert!(!names.contains(&"a".to_string()));
    assert!(!names.contains(&"b".to_string()));
}

#[test]
fn inline_value_multiple_fns_only_current_params_visible() {
    // Stopped inside `g` — only `g`'s param `c` is visible, not `f`'s `a`/`b`
    let src = "(fn f [a b] a)\n(fn g [c]\n  c)";
    let names = inline_value_names_at(src, 2, 2);
    assert!(names.contains(&"c".to_string()));
    assert!(!names.contains(&"a".to_string()));
    assert!(!names.contains(&"b".to_string()));
}

#[test]
fn inline_value_outer_local_visible_inside_fn() {
    // A module-level local is visible inside a fn defined after it
    let src = "(local config 42)\n(fn run []\n  config)";
    let names = inline_value_names_at(src, 2, 2);
    assert!(names.contains(&"config".to_string()));
}

#[test]
fn inline_value_invalid_position_returns_empty() {
    // Line 99 doesn't exist — should return empty, not panic
    let names = inline_value_names_at("(local x 1)", 99, 0);
    assert!(names.is_empty());
}

#[test]
fn compute_indent_counts_both_characters_of_an_escape() {
    assert_eq!(compute_indent("\"\\n\" (", 6), 6);
}

#[test]
fn compute_indent_behind_a_string_on_two_lines() {
    // The string ends at column 2 of the second line
    let src = "(f \"a\n(b\" (g";
    assert_eq!(compute_indent(src, src.len()), 5);
    let src = "\"a\\\nb\" (";
    assert_eq!(compute_indent(src, src.len()), 4);
}
