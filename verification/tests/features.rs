use fennel_ls::actions::{
    code_action, collect_require_rename_edits, file_path_to_module, find_var_keyword_before,
    formatting, on_type_formatting, range_formatting, rename_file, rename_module, require_sites, CodeActionKind, Report,
};
use fennel_ls::calls::{
    enclosing_fn_def, fn_form_span, incoming_calls, inlay_hints, outgoing_calls,
    collect_outgoing, prepare_call_hierarchy, signature_help, CallHierarchyItem, HierarchyCall,
};
use fennel_ls::changes::{apply_change, TextDocumentContentChangeEvent};
use fennel_ls::completion::{completion, CompletionItemKind};
use fennel_ls::diagnostics::{check_text, diagnostics, DiagnosticSeverity};
use fennel_ls::docs::{BuiltinSet, Platform};
use fennel_ls::fmt::format as format_text;
use fennel_ls::hooks::Instruction;
use fennel_ls::lenses::{code_lens, symbol};
use fennel_ls::names::NameMap;
use fennel_ls::navigation::{
    document_highlight, goto_definition, goto_module, hover, inline_values, prepare_rename,
    references, rename, GlobalDoc,
};
use fennel_ls::outline::{
    doc_syms_from_nodes, folding_ranges, selection_ranges, selection_ranges_at, SymbolKind,
};
use fennel_ls::semantic::{
    build_semantic_tokens, semantic_tokens_range, tokens_delta, tokens_on_lines, tokens_to_flat,
    SemanticToken, TokenCache, TOKEN_MODIFIERS, TOKEN_TYPES,
};
use fennel_ls::text::{byte_to_position, position_to_byte, Position, Range};
use fennel_ls::workspace::{require_candidates, AnalyzedFile, Found, Workspace};

const URI: &str = "file:///project/main.fnl";

fn at(line: u32, character: u32) -> Position {
    Position { line, character }
}

fn range(a: (u32, u32), b: (u32, u32)) -> Range {
    Range { start: at(a.0, a.1), end: at(b.0, b.1) }
}

fn open(text: &str) -> Workspace {
    let mut ws = Workspace::new();
    ws.update(URI, None, text.to_string(), 1, &Default::default(), &NameMap::new());
    ws
}

fn with<R>(text: &str, f: impl FnOnce(&AnalyzedFile) -> R) -> R {
    open(text).with_file(URI, f).unwrap()
}

/// `main` requires `utils`, which is not open.
fn two_files(main: &str, utils: &str) -> Workspace {
    let mut ws = Workspace::new();
    let mut disk = NameMap::new();
    disk.insert(
        "utils",
        Found {
            path: "/project/utils.fnl".to_string(),
            uri: "file:///project/utils.fnl".to_string(),
            lua: false,
            text: Some(utils.to_string()),
        },
    );
    ws.update(URI, None, main.to_string(), 1, &Default::default(), &disk);
    ws
}

// ── Code actions ──────────────────────────────────────────────────────────

fn report(message: &str, start: (u32, u32), end: (u32, u32)) -> Report {
    Report { range: range(start, end), message: message.to_string() }
}

#[test]
fn var_that_is_never_mutated_becomes_local() {
    with("(var x 1)\nx", |f| {
        let reports = vec![report("`x` is never mutated", (0, 5), (0, 6))];
        let actions = code_action(Some(f), &reports, range((1, 0), (1, 0))).unwrap();
        assert_eq!(actions.len(), 1);
        assert_eq!(actions[0].title, "Change `var` to `local`");
        assert_eq!(actions[0].kind, CodeActionKind::QuickFix);
        assert_eq!(actions[0].report, Some(0));
        assert_eq!(actions[0].edit.range, range((0, 1), (0, 4)));
        assert_eq!(actions[0].edit.new_text, "local");
    });
}

#[test]
fn unknown_identifier_gets_a_stub_even_without_the_file() {
    let reports = vec![report("unknown identifier `foo`", (3, 7), (3, 10))];
    let actions = code_action(None, &reports, range((0, 0), (0, 0))).unwrap();
    assert_eq!(actions.len(), 1);
    assert_eq!(actions[0].title, "Add `(local foo nil)`");
    assert_eq!(actions[0].edit.new_text, "(local foo nil)\n");
    assert_eq!(actions[0].edit.range, range((3, 0), (3, 0)));
    assert!(code_action(None, &vec![], range((0, 0), (0, 0))).is_none());
}

#[test]
fn unused_binding_is_removed_with_its_line_break() {
    with("(local x 1)\n(print 2)", |f| {
        let reports = vec![report("local `x` is defined but never used", (0, 7), (0, 8))];
        let actions = code_action(Some(f), &reports, range((1, 0), (1, 0))).unwrap();
        assert_eq!(actions.len(), 1);
        assert_eq!(actions[0].title, "Remove unused `x`");
        assert_eq!(actions[0].edit.range, range((0, 0), (1, 0)));
        assert_eq!(actions[0].edit.new_text, "");
    });
}

#[test]
fn selection_offers_refactorings() {
    with("(local x 1)\n(print x)", |f| {
        let actions = code_action(Some(f), &vec![], range((0, 7), (1, 9))).unwrap();
        let titles: Vec<_> = actions.iter().map(|a| a.title.as_str()).collect();
        assert_eq!(titles, ["Change `local` to `var`", "Wrap in `(do ...)`"]);
        assert_eq!(actions[0].kind, CodeActionKind::Refactor);
        assert_eq!(actions[0].edit.range, range((0, 1), (0, 6)));
        assert_eq!(actions[0].edit.new_text, "var");
        assert_eq!(actions[1].edit.new_text, "(do\n  x 1)\n(print x))");
        assert_eq!(actions[1].edit.range, range((0, 7), (1, 9)));
    });
}

#[test]
fn blank_selection_offers_nothing() {
    with("a   b", |f| assert!(code_action(Some(f), &vec![], range((0, 1), (0, 4))).is_none()));
}

#[test]
fn letters_of_any_script_belong_to_a_name() {
    assert_eq!(find_var_keyword_before("(\u{e9}var x", 7), None);
    assert_eq!(find_var_keyword_before("(\u{2192}var x", 8), Some(4));
}

// ── Formatting ────────────────────────────────────────────────────────────

#[test]
fn formatting_replaces_the_whole_text() {
    let edits = formatting("(foo   1)").unwrap();
    assert_eq!(edits.len(), 1);
    assert_eq!(edits[0].range, range((0, 0), (0, 9)));
    assert_eq!(edits[0].new_text, "(foo 1)\n");
    assert!(formatting("(foo 1)\n").unwrap().is_empty());
    assert!(formatting("(foo").is_none());
}

#[test]
fn range_formatting_edits_the_forms_of_the_range() {
    with("(a 1)\n(b   2)\n(c 3)\n", |f| {
        let edits = range_formatting(f, range((1, 0), (1, 3))).unwrap();
        assert_eq!(edits.len(), 1);
        assert_eq!(edits[0].range, range((1, 0), (1, 7)));
        assert_eq!(edits[0].new_text, "(b 2)");
        assert!(range_formatting(f, range((9, 0), (9, 0))).is_none());
    });
}

#[test]
fn typed_line_break_is_indented() {
    with("(let [x 1]\n    y)", |f| {
        let edit = on_type_formatting(f, at(1, 0), "\n").unwrap();
        assert_eq!(edit.range, range((1, 0), (1, 4)));
        assert_eq!(edit.new_text, " ");
        assert!(on_type_formatting(f, at(1, 0), ")").is_none());
    });
}

#[test]
fn formatting_keeps_tokens_and_comments() {
    let src = "(foo   0xff, \"a  b\" ; why\n  :k)  ; end  \n#(bar $1)";
    let out = format_text(src).unwrap();
    assert_eq!(out, "(foo 0xff \"a  b\"\n  ; why\n  :k)\n\n; end\n#(bar $1)\n");
    let ink = |s: &str| s.chars().filter(|c| !c.is_whitespace() && *c != ',').collect::<String>();
    assert_eq!(ink(&out), ink(src));
}

// ── Modules ───────────────────────────────────────────────────────────────

#[test]
fn required_modules_are_found_and_renamed() {
    let text = "(local a (require :old.mod))\n(local b (require \"old.mod\"))\n(require :other)";
    with(text, |f| {
        let sites = require_sites(&f.ast, &f.text);
        let modules: Vec<_> = sites.iter().map(|s| s.module.as_str()).collect();
        assert_eq!(modules, ["old.mod", "old.mod", "other"]);
        assert_eq!(sites[0].range, range((0, 18), (0, 26)));
    });
    let ws = open(text);
    let files = rename_module(&ws, "old.mod", "new");
    assert_eq!(files.len(), 1);
    assert_eq!(files[0].uri, URI);
    let texts: Vec<_> = files[0].edits.iter().map(|e| e.new_text.as_str()).collect();
    assert_eq!(texts, [":new", "\"new\""]);
    let mut edits = Vec::new();
    ws.with_file(URI, |f| {
        collect_require_rename_edits(&f.ast[2], &f.text, "other", "more", &mut edits);
    });
    assert_eq!(edits.len(), 1);
    assert_eq!(edits[0].new_text, ":more");
    assert!(rename_module(&ws, "other", "other").is_empty());
    assert!(rename_module(&ws, "absent", "x").is_empty());
}

#[test]
fn forms_are_found_wherever_they_stand() {
    with("(let [a (require :m)] a)\n{:k (fn inner [] (b))}", |f| {
        assert_eq!(require_sites(&f.ast, &f.text).len(), 1);
        assert_eq!(goto_module(f, at(0, 18)).as_deref(), Some("m"));
        let inner = fn_form_span(&f.ast, 33).unwrap();
        assert_eq!(byte_to_position(&f.text, inner.start as usize), at(1, 4));
        let around = enclosing_fn_def(&f.analysis, &f.ast, 43).unwrap();
        assert_eq!(around.name, "inner");
    });
}

// ── Navigation ────────────────────────────────────────────────────────────

#[test]
fn hover_shows_builtins_documents_and_definitions() {
    let builtins = BuiltinSet::for_platform(Platform::Lua54);
    let mut docs = NameMap::new();
    docs.insert("love.draw", GlobalDoc { signature: "(love.draw)".into(), doc: Some("Draws.".into()) });
    with("(fn add [a b] a)\n(add 1 2)\n(love.draw)\n(print 1)", |f| {
        let h = hover(f, &builtins, &docs, at(1, 2)).unwrap();
        assert_eq!(h.value, "```fennel\n(fn add [a b])\n```");
        assert_eq!(h.range, range((1, 1), (1, 4)));
        let h = hover(f, &builtins, &docs, at(2, 3)).unwrap();
        assert!(h.value.contains("(love.draw)") && h.value.contains("Draws."), "{}", h.value);
        let h = hover(f, &builtins, &docs, at(3, 2)).unwrap();
        assert!(h.value.contains("print"), "{}", h.value);
        assert!(hover(f, &builtins, &docs, at(0, 0)).is_none());
        assert!(hover(f, &builtins, &docs, at(99, 0)).is_none());
    });
}

#[test]
fn definitions_are_found_in_and_across_files() {
    with("(local x 1)\n(+ x 2)", |f| {
        let loc = goto_definition(f, at(1, 3)).unwrap();
        assert_eq!(loc.uri, URI);
        assert_eq!(loc.range, range((0, 7), (0, 8)));
        assert!(goto_definition(f, at(0, 9)).is_none());
    });
    let ws = two_files("(local utils (require :utils))\n(utils.greet)", "\n(fn greet [] nil)");
    ws.with_file(URI, |f| {
        let loc = goto_definition(f, at(1, 3)).unwrap();
        assert_eq!(loc.uri, "file:///project/utils.fnl");
        assert_eq!(loc.range.start, at(1, 4));
        assert_eq!(goto_module(f, at(0, 24)).as_deref(), Some("utils"));
        assert!(goto_module(f, at(1, 3)).is_none());
    });
}

#[test]
fn highlights_mark_definition_and_uses() {
    with("(local x 1)\n(+ x x)", |f| {
        let found = document_highlight(f, at(1, 3)).unwrap();
        assert_eq!(found.len(), 3);
        assert_eq!(found[0].range, range((0, 7), (0, 8)));
        assert!(document_highlight(f, at(0, 9)).is_none());
    });
}

#[test]
fn references_and_rename_cross_files() {
    let ws = two_files("(local utils (require :utils))\n(utils.greet)", "(fn greet [] nil)");
    let found = references(&ws, URI, at(1, 3)).unwrap();
    assert!(found.iter().any(|l| l.uri == URI && l.range == range((1, 1), (1, 12))), "{found:?}");
    let ws = open("(local x 1)\n(+ x x)");
    assert_eq!(references(&ws, URI, at(0, 7)).unwrap().len(), 3);
    let edits = rename(&ws, URI, at(0, 7), "y").unwrap();
    assert_eq!(edits.len(), 1);
    assert_eq!(edits[0].edits.len(), 3);
    assert!(edits[0].edits.iter().all(|e| e.new_text == "y"));
    assert!(rename(&ws, "file:///absent.fnl", at(0, 7), "y").is_none());
    ws.with_file(URI, |f| {
        assert_eq!(prepare_rename(f, at(1, 3)), Some((range((1, 3), (1, 4)), "x".to_string())));
        assert!(prepare_rename(f, at(1, 1)).is_none());
        let names: Vec<_> = inline_values(f, at(1, 1)).iter().map(|v| v.variable_name.clone()).collect();
        assert_eq!(names, ["x"]);
    });
}

// ── Completion ────────────────────────────────────────────────────────────

#[test]
fn completion_offers_each_label_once() {
    let builtins = BuiltinSet::for_platform(Platform::Lua54);
    with("(local print 1)\n(fn add [a] a)\n(", |f| {
        let items = completion(f, &builtins, &NameMap::new(), at(2, 1));
        let labels: Vec<_> = items.iter().map(|i| i.label.as_str()).collect();
        assert_eq!(labels.iter().filter(|l| **l == "print").count(), 1);
        let add = items.iter().find(|i| i.label == "add").unwrap();
        assert_eq!(add.kind, CompletionItemKind::Function);
        assert!(labels.contains(&"pairs"));
    });
}

#[test]
fn completion_offers_members_of_modules() {
    let builtins = BuiltinSet::for_platform(Platform::Lua54);
    let ws = two_files("(local utils (require :utils))\n(utils.", "(fn greet [] nil)");
    ws.with_file(URI, |f| {
        let items = completion(f, &builtins, &NameMap::new(), at(1, 7));
        assert!(items.iter().any(|i| i.label == "utils.greet"));
    });
}

// ── Diagnostics ───────────────────────────────────────────────────────────

#[test]
fn diagnostics_report_errors_warnings_and_unknown_names() {
    let builtins = BuiltinSet::for_platform(Platform::Lua54);
    with("(local x 1)\n(foo x)\n(love.draw)\n(print 1", |f| {
        let found = diagnostics(f, &builtins, &[]);
        assert!(found.iter().any(|d| d.severity == DiagnosticSeverity::Error));
        let unknown: Vec<_> =
            found.iter().filter(|d| d.message.starts_with("unknown identifier")).collect();
        assert_eq!(unknown.len(), 1);
        assert_eq!(unknown[0].message, "unknown identifier `foo`");
        assert_eq!(unknown[0].severity, DiagnosticSeverity::Warning);
        assert_eq!(unknown[0].range, range((1, 1), (1, 4)));
        let known = diagnostics(f, &builtins, &["foo".to_string()]);
        assert!(!known.iter().any(|d| d.message.starts_with("unknown identifier")));
    });
}

#[test]
fn calls_without_a_hook_are_hints() {
    let builtins = BuiltinSet::for_platform(Platform::Lua54);
    let mut ws = open("(foo)");
    let span = ws.with_file(URI, |f| f.ast[0].span).unwrap();
    ws.set_unhooked_macros(URI, vec![(span, "foo".to_string())]);
    ws.set_macro_globals(URI, vec!["foo".to_string()]);
    ws.with_file(URI, |f| {
        let found = diagnostics(f, &builtins, &[]);
        assert_eq!(found.len(), 1);
        assert_eq!(found[0].severity, DiagnosticSeverity::Hint);
        assert_eq!(
            found[0].message,
            "macro `foo` has no hook definition; add one under :macro-hooks in .lsp.fnl for better analysis"
        );
        assert_eq!(found[0].code.as_deref(), Some("unhooked-macro"));
    });
}

#[test]
fn checked_text_lists_findings_by_line_and_column() {
    let found = check_text("(print 1)\n(foo)\n(");
    assert_eq!(found.len(), 2);
    assert_eq!(found[0].severity, DiagnosticSeverity::Error);
    assert_eq!((found[1].line, found[1].column), (2, 2));
    assert_eq!(found[1].message, "unknown identifier `foo`");
    assert!(check_text("(print 1)").is_empty());
}

// ── Calls ─────────────────────────────────────────────────────────────────

#[test]
fn signatures_and_hints_of_calls() {
    with("(fn add [a b] \"Adds.\" (+ a b))\n(add 1 2)", |f| {
        let help = signature_help(f, at(1, 7)).unwrap();
        assert_eq!(help.parameters, ["a", "b"]);
        assert_eq!(help.active_parameter, 1);
        assert_eq!(help.documentation.as_deref(), Some("Adds."));
        assert!(signature_help(f, at(0, 0)).is_none());
        let hints = inlay_hints(f);
        assert_eq!(hints.len(), 2);
        assert_eq!(hints[0].label, "a:");
        assert_eq!(hints[0].position, at(1, 5));
    });
}

#[test]
fn no_hint_for_a_rest_parameter() {
    with("(fn f [a & more] a)\n(f 1 2 3)\n(fn g [[x] b ...] b)\n(g 1 2 3)", |f| {
        let labels: Vec<String> = inlay_hints(f).into_iter().map(|h| h.label).collect();
        assert_eq!(labels, ["a:", "<destructured>:", "b:"]);
    });
}

#[test]
fn calls_around_a_function_are_not_its_calls() {
    with("(fn wrap [x] x)\n(wrap (fn g [] nil))\n(wrap (fn h [] (wrap 1)))", |f| {
        assert!(outgoing_calls(f, at(1, 10)).is_none());
        let calls = outgoing_calls(f, at(2, 10)).unwrap();
        assert_eq!(calls.len(), 1);
        assert_eq!(calls[0].from_ranges, [range((2, 16), (2, 20))]);
    });
}

#[test]
fn outgoing_calls_are_joined_by_name() {
    with("(fn f [] nil)\n(fn g [] (f))", |file| {
        let item = CallHierarchyItem {
            name: "f".to_string(),
            detail: None,
            uri: "file:///other.fnl".to_string(),
            range: range((0, 0), (0, 1)),
            selection_range: range((0, 0), (0, 1)),
        };
        let mut out = vec![HierarchyCall { item, from_ranges: vec![range((5, 0), (5, 1))] }];
        let span = fn_form_span(&file.ast, 18).unwrap();
        for node in &file.ast {
            collect_outgoing(node, &span, &file.analysis, &file.text, URI, &mut out);
        }
        assert_eq!(out.len(), 1);
        assert_eq!(out[0].item.uri, "file:///other.fnl");
        assert_eq!(out[0].from_ranges, [range((5, 0), (5, 1)), range((1, 10), (1, 11))]);
    });
}

#[test]
fn call_hierarchy_goes_both_ways() {
    let ws = open("(fn f [] nil)\n(fn g [] (f) (f))");
    let item = ws.with_file(URI, |f| prepare_call_hierarchy(f, at(1, 10))).unwrap().unwrap();
    assert_eq!(item.name, "f");
    let calls = incoming_calls(&ws, URI, "f", at(0, 4)).unwrap();
    assert_eq!(calls.len(), 1);
    assert_eq!(calls[0].item.name, "g");
    assert_eq!(calls[0].from_ranges, [range((1, 10), (1, 11)), range((1, 14), (1, 15))]);
    let calls = ws.with_file(URI, |f| outgoing_calls(f, at(1, 4))).unwrap().unwrap();
    assert_eq!(calls.len(), 1);
    assert_eq!(calls[0].item.name, "f");
    assert!(incoming_calls(&ws, URI, "g", at(1, 4)).is_none());
}

// ── Lenses and symbols ────────────────────────────────────────────────────

#[test]
fn lenses_count_references() {
    let ws = open("(fn f [] nil)\n(fn g [] (f) (f))\n(g)");
    let lenses = code_lens(&ws, URI).unwrap();
    assert_eq!(lenses.len(), 2);
    assert_eq!(lenses[0].range, range((0, 4), (0, 5)));
    assert_eq!(lenses[0].title, "2 references");
    assert_eq!(lenses[1].title, "1 reference");
    assert!(code_lens(&ws, "file:///absent.fnl").is_none());
}

#[test]
fn symbols_of_the_workspace() {
    let ws = open("(fn Greet [x] x)");
    let found = symbol(&ws, "gree").unwrap();
    assert_eq!(found.len(), 1);
    assert_eq!(found[0].name, "Greet");
    assert_eq!(found[0].kind, SymbolKind::Function);
    assert_eq!(found[0].location.range, range((0, 4), (0, 9)));
    assert!(symbol(&ws, "absent").is_none());
}

// ── Outline ───────────────────────────────────────────────────────────────

#[test]
fn selections_grow_outwards() {
    with("(a [b\n c])", |f| {
        let ranges = selection_ranges(&f.ast, &f.text, 4);
        assert_eq!(ranges[0], range((0, 4), (0, 5)));
        assert_eq!(*ranges.last().unwrap(), range((0, 0), (1, 4)));
        assert_eq!(selection_ranges_at(&f.ast, &f.text, at(0, 4)), ranges);
        let start = selection_ranges(&f.ast, &f.text, 0);
        assert_eq!(selection_ranges_at(&f.ast, &f.text, at(0, 9)), start);
        assert_eq!(folding_ranges(&f.ast, &f.text).len(), 2);
    });
}

// ── Moved files ───────────────────────────────────────────────────────────

fn path(parts: &[&str]) -> Vec<String> {
    parts.iter().map(|p| p.to_string()).collect()
}

#[test]
fn a_path_without_a_file_name_holds_no_module() {
    let module = |parts: &[&str]| file_path_to_module(&path(parts), &path(&[]));
    assert_eq!(module(&[".."]), None);
    assert_eq!(module(&["a", ".."]), None);
    assert_eq!(module(&["."]), None);
    assert_eq!(module(&["a", "..fnl"]), None);
    assert_eq!(module(&["..", "a.fnl"]).as_deref(), Some("...a"));
    assert_eq!(module(&[".fnl"]).as_deref(), Some(".fnl"));
    assert_eq!(module(&["a", "b.c.fnl"]).as_deref(), Some("a.b.c"));
}

#[test]
fn moving_a_file_renames_its_module() {
    let ws = open("(local m (require :lib.old))");
    let root = path(&["/", "p"]);
    let from = path(&["/", "p", "lib", "old.fnl"]);
    let edits = rename_file(&ws, &from, &path(&["/", "p", "new", "init.fnl"]), &root);
    assert_eq!(edits.len(), 1);
    assert_eq!(edits[0].edits[0].new_text, ":new");
    assert!(rename_file(&ws, &from, &path(&["/", "q", "new.fnl"]), &root).is_empty());
    assert!(rename_file(&ws, &from, &from, &root).is_empty());
}

// ── What hooks offer ──────────────────────────────────────────────────────

#[test]
fn hooks_offer_completions_inside_a_child() {
    let text = "(import-macros {: defnode} :lib)\n(defnode Foo ex)";
    let mut hooks = std::collections::HashMap::new();
    hooks.insert(
        33u32,
        vec![Instruction::SubFormCompletions {
            index: 3,
            completions: vec!["extends".to_string(), "signal".to_string()],
        }],
    );
    let mut ws = Workspace::new();
    ws.update(URI, None, text.to_string(), 1, &hooks, &NameMap::new());
    let labels = |line: u32, character: u32| -> Vec<String> {
        let builtins = BuiltinSet::for_platform(Platform::Lua54);
        ws.with_file(URI, |f| completion(f, &builtins, &NameMap::new(), at(line, character)))
            .unwrap()
            .into_iter()
            .map(|item| item.label)
            .collect()
    };
    let inside = labels(1, 15);
    assert!(inside.contains(&"extends".to_string()));
    assert!(inside.contains(&"signal".to_string()));
    assert!(!labels(1, 10).contains(&"extends".to_string()));
    assert!(!labels(0, 3).contains(&"signal".to_string()));
}

// ── Changes ───────────────────────────────────────────────────────────────

#[test]
fn backward_ranges_do_not_apply() {
    let c = TextDocumentContentChangeEvent {
        range: Some(range((0, 3), (0, 1))),
        text: "x".to_string(),
    };
    assert!(apply_change("hello", &c).is_none());
}

#[test]
fn changes_apply_one_after_the_other() {
    let first = TextDocumentContentChangeEvent {
        range: Some(range((0, 0), (0, 0))),
        text: "\u{1F389}".to_string(),
    };
    let second = TextDocumentContentChangeEvent {
        range: Some(range((0, 2), (0, 3))),
        text: "b".to_string(),
    };
    let one = apply_change("abc", &first).unwrap();
    assert_eq!(apply_change(&one, &second).unwrap(), "\u{1F389}bbc");
}

// ── Semantic tokens ───────────────────────────────────────────────────────

#[test]
fn delta_gives_the_new_data() {
    let old = vec![0u32, 1, 1, 2, 1, 1, 0, 1, 2, 0];
    let new = vec![0u32, 1, 1, 2, 1, 0, 5, 2, 0, 0, 1, 0, 1, 2, 0];
    let edit = tokens_delta(&old, &new).unwrap();
    assert_eq!(edit.start, 5);
    assert_eq!(edit.delete_count, 0);
    let data = tokens_to_flat(&edit.data.unwrap());
    assert_eq!(data, [0, 5, 2, 0, 0]);
    let mut patched = old[..5].to_vec();
    patched.extend(data);
    patched.extend(&old[5..]);
    assert_eq!(patched, new);
    assert!(tokens_delta(&old, &old).is_none());
}

#[test]
fn delta_covers_whole_tokens() {
    let old = vec![0u32, 7, 1, 2, 3];
    let new = vec![0u32, 8, 1, 2, 3];
    let edit = tokens_delta(&old, &new).unwrap();
    assert_eq!((edit.start, edit.delete_count), (0, 5));
    assert_eq!(tokens_to_flat(&edit.data.unwrap()), new);
    // The change lies inside the second of three tokens.
    let old = vec![0u32, 1, 1, 2, 1, 1, 0, 1, 2, 0, 0, 4, 2, 0, 0];
    let new = vec![0u32, 1, 1, 2, 1, 1, 0, 3, 2, 0, 0, 4, 2, 0, 0];
    let edit = tokens_delta(&old, &new).unwrap();
    assert_eq!((edit.start, edit.delete_count), (5, 5));
    assert_eq!(tokens_to_flat(&edit.data.unwrap()), [1, 0, 3, 2, 0]);
    // A token is gone.
    let edit = tokens_delta(&new, &new[..10].to_vec()).unwrap();
    assert_eq!((edit.start, edit.delete_count), (10, 5));
    assert!(edit.data.is_none());
}

#[test]
fn token_types_have_names() {
    assert_eq!(TOKEN_TYPES, ["function", "parameter", "variable", "macro"]);
    assert_eq!(TOKEN_MODIFIERS, ["definition", "readonly"]);
    with("(fn f [a] a)", |f| {
        let all = build_semantic_tokens(&f.analysis, &f.text);
        let names: Vec<&str> = all.iter().map(|t| TOKEN_TYPES[t.token_type as usize]).collect();
        assert_eq!(names, ["function", "parameter", "parameter"]);
    });
}

#[test]
fn tokens_of_some_lines() {
    let text = "(local a 1)\n(local b 2)\n(local c 3)";
    with(text, |f| {
        let all = build_semantic_tokens(&f.analysis, &f.text);
        let some = semantic_tokens_range(&f.analysis, &f.text, 1, 1);
        assert_eq!(some, tokens_on_lines(&all, 1, 1));
        assert_eq!(some.len(), 1);
        assert_eq!(some[0].delta_line, 1);
        assert_eq!(some[0].delta_start, 7);
    });
}

#[test]
fn token_cache_numbers_its_answers() {
    let token = SemanticToken {
        delta_line: 0,
        delta_start: 1,
        length: 2,
        token_type: 0,
        token_modifiers_bitset: 1,
    };
    let mut cache = TokenCache::new();
    assert_eq!(cache.full("a", &[token]), "1");
    let (id, edit) = cache.full_delta("a", &[token]);
    assert_eq!(id, "2");
    assert!(edit.is_none());
    cache.moved("a", "b");
    assert!(cache.full_delta("b", &[token]).1.is_none());
    cache.forget("b");
    let (_, edit) = cache.full_delta("b", &[token]);
    assert_eq!(edit.unwrap().start, 0);
}

// ── Positions ─────────────────────────────────────────────────────────────

#[test]
fn positions_follow_offsets() {
    let text = "a\u{1F389}b\nc";
    let mut last = at(0, 0);
    for byte in 0..=text.len() {
        let pos = byte_to_position(text, byte);
        assert!((last.line, last.character) <= (pos.line, pos.character));
        last = pos;
    }
    assert_eq!(byte_to_position(text, 3), at(0, 1));
    assert_eq!(position_to_byte(text, at(0, 3)), Some(5));
    assert_eq!(position_to_byte(text, at(7, 0)), None);
}

// ── Modules of the workspace ──────────────────────────────────────────────

#[test]
fn open_files_shadow_the_disk_and_the_cache() {
    let mut ws = Workspace::new();
    let found = Found {
        path: "/project/utils.fnl".to_string(),
        uri: "file:///project/utils.fnl".to_string(),
        lua: false,
        text: Some("(fn old [] nil)".to_string()),
    };
    assert!(ws.needs_disk(&found.uri, &found.path));
    assert!(ws.load_module(&found).unwrap().defs.contains_key("old"));
    assert!(!ws.needs_disk(&found.uri, &found.path));
    let text = "(fn new [] nil)".to_string();
    ws.update(&found.uri, None, text, 1, &Default::default(), &NameMap::new());
    assert!(ws.is_open(&found.uri));
    assert!(ws.load_module(&found).unwrap().defs.contains_key("new"));
    ws.remove(&found.uri);
    assert!(ws.load_module(&found).unwrap().defs.contains_key("old"));
    ws.invalidate_require_cache(&found.path);
    assert!(ws.needs_disk(&found.uri, &found.path));
    let gone = Found { text: None, ..found };
    assert!(ws.load_module(&gone).is_none());
}

#[test]
fn builtins_settle_once() {
    let mut ws = Workspace::new();
    assert!(!ws.builtins().is_known("unpack"));
    ws.configure_platform(Platform::Lua51);
    assert!(!ws.builtins().is_known("unpack"));
}

#[test]
fn open_uris_are_listed() {
    let mut ws = open("");
    ws.update("file:///b.fnl", None, String::new(), 1, &Default::default(), &NameMap::new());
    let mut uris = ws.all_open_uris();
    uris.sort();
    assert_eq!(uris, ["file:///b.fnl", URI]);
}

#[test]
fn symbols_hold_their_names_and_their_parts() {
    let text = "(fn outer [x]\n  (local inner x)\n  inner)\n";
    let found = with(text, |f| doc_syms_from_nodes(&f.ast, &f.text, &f.analysis));
    assert_eq!(found.len(), 1);
    assert_eq!(found[0].range, range((0, 0), (2, 8)));
    assert_eq!(found[0].selection_range, range((0, 4), (0, 9)));
    assert_eq!(found[0].children.len(), 1);
    assert_eq!(found[0].children[0].range, range((1, 2), (1, 17)));
    assert_eq!(found[0].children[0].selection_range, range((1, 9), (1, 14)));
}

#[test]
fn modules_lead_back_to_their_files() {
    let parts = |s: &str| s.split('/').map(str::to_string).collect::<Vec<_>>();
    let root = parts("home/project");
    let module = |s: &str| file_path_to_module(&parts(s), &root).unwrap();
    assert_eq!(module("home/project/a/b.fnl"), "a.b");
    assert_eq!(require_candidates("a.b")[0], "a/b.fnl");
    assert_eq!(module("home/project/a/init.fnl"), "a");
    assert_eq!(require_candidates("a")[1], "a/init.fnl");
}
