use std::collections::HashMap;

use fennel_ls::hooks::{
    expanded_names, hook_requests, needs_expansion, needs_second_pass, HookAnswers, HookRunner,
    Instruction, InstructionError, InstructionFields, SerialNode, SpanFields,
};
use fennel_ls::lexer::Span;
use fennel_ls::names::NameMap;
use fennel_ls::number::Number;
use fennel_ls::parser::{Form, Spanned};
use fennel_ls::workspace::Workspace;

// ── SerialNode construction ───────────────────────────────────────────────

#[test]
fn serial_node_from_list_ast() {
    let span = Span { start: 0, end: 10, line: 0, col: 0, end_line: 0, end_col: 10 };
    let node = Spanned {
        node: Form::List(vec![
            Spanned { node: Form::Symbol("foo".into()), span: span.clone() },
            Spanned { node: Form::Number(Number::Decimal("42".into())), span: span.clone() },
        ]),
        span: span.clone(),
    };
    let sn = SerialNode::from_ast(&node);
    assert_eq!(sn.kind, "list");
    assert_eq!(sn.children.len(), 2);
    assert_eq!(sn.children[0].kind, "sym");
    assert_eq!(sn.children[0].value.as_deref(), Some("foo"));
    assert_eq!(sn.children[1].kind, "num");
}

#[test]
fn serial_node_kinds() {
    let (ast, _) = fennel_ls::parser::Parser::parse("[:k \"s\" true nil ... {} `x]");
    let sn = SerialNode::from_ast(&ast[0]);
    assert_eq!(sn.kind, "seq");
    let kinds: Vec<_> = sn.children.iter().map(|c| c.kind).collect();
    assert_eq!(kinds, ["keyword", "str", "bool", "nil", "vararg", "table", "other"]);
    let values: Vec<_> = sn.children.iter().map(|c| c.value.as_deref()).collect();
    assert_eq!(values, [Some("k"), Some("s"), Some("true"), None, None, None, None]);
    assert_eq!(sn.span, ast[0].span);
}

// ── HookRunner cache ─────────────────────────────────────────────────────

#[test]
fn cache_miss_when_version_differs() {
    let mut runner = HookRunner::new();
    runner.store_results("file:///a.fnl".into(), 1, HashMap::new());
    assert!(runner.cached_results("file:///a.fnl", 2).is_none(),
        "different version should be a cache miss");
}

#[test]
fn cache_hit_when_version_matches() {
    let mut runner = HookRunner::new();
    let mut map = HashMap::new();
    map.insert(42u32, vec![Instruction::ScopeClose]);
    runner.store_results("file:///a.fnl".into(), 3, map);
    let cached = runner.cached_results("file:///a.fnl", 3).unwrap();
    assert!(cached.contains_key(&42));
}

#[test]
fn later_results_replace_earlier_ones() {
    let mut runner = HookRunner::new();
    runner.store_results("file:///a.fnl".into(), 1, HashMap::new());
    runner.store_results("file:///b.fnl".into(), 7, HashMap::new());
    runner.store_results("file:///a.fnl".into(), 2, HashMap::new());
    assert!(runner.cached_results("file:///a.fnl", 1).is_none());
    assert!(runner.cached_results("file:///a.fnl", 2).is_some());
    assert!(runner.cached_results("file:///b.fnl", 7).is_some());
    assert!(runner.cached_results("file:///c.fnl", 7).is_none());
}

// ── Instructions ─────────────────────────────────────────────────────────

fn fields(kind: &str) -> InstructionFields {
    InstructionFields {
        kind: Some(kind.to_string()),
        name: None,
        index: None,
        span: None,
        completions: None,
    }
}

fn span_fields() -> SpanFields {
    SpanFields {
        start: Some(3),
        end: Some(5),
        line: Some(1),
        col: Some(2),
        end_line: None,
        end_col: Some(4),
    }
}

#[test]
fn analyze_instruction_round_trips() {
    let t = InstructionFields { index: Some(2), ..fields("analyze") };
    assert!(matches!(Instruction::from_fields(t), Ok(Instruction::Analyze { index: 2 })));
}

#[test]
fn analyze_fn_instruction_round_trips() {
    let t = InstructionFields { index: Some(3), ..fields("analyze-fn") };
    assert!(matches!(Instruction::from_fields(t), Ok(Instruction::AnalyzeFn { index: 3 })));
}

#[test]
fn sub_form_completions_round_trips() {
    let t = InstructionFields {
        index: Some(2),
        completions: Some(vec!["extends".to_string(), "fn".to_string()]),
        ..fields("sub-form-completions")
    };
    match Instruction::from_fields(t) {
        Ok(Instruction::SubFormCompletions { index, completions }) => {
            assert_eq!(index, 2);
            assert_eq!(completions, vec!["extends", "fn"]);
        }
        other => panic!("unexpected: {other:?}"),
    }
}

#[test]
fn bind_and_scopes_are_read() {
    let t = InstructionFields {
        name: Some("x".to_string()),
        span: Some(span_fields()),
        ..fields("bind")
    };
    match Instruction::from_fields(t) {
        Ok(Instruction::Bind { name, span }) => {
            assert_eq!(name, "x");
            let want = Span { start: 3, end: 5, line: 1, col: 2, end_line: 0, end_col: 4 };
            assert_eq!(span, want);
        }
        other => panic!("unexpected: {other:?}"),
    }
    let t = InstructionFields { span: Some(span_fields()), ..fields("scope-open") };
    assert!(matches!(Instruction::from_fields(t), Ok(Instruction::ScopeOpen { .. })));
    assert!(matches!(Instruction::from_fields(fields("scope-close")), Ok(Instruction::ScopeClose)));
}

#[test]
fn broken_instructions_are_errors() {
    match Instruction::from_fields(fields("jump")) {
        Err(InstructionError::Unknown(kind)) => assert_eq!(kind, "jump"),
        other => panic!("unexpected: {other:?}"),
    }
    for (kind, field) in [
        ("bind", "name"),
        ("analyze", "index"),
        ("analyze-fn", "index"),
        ("scope-open", "span"),
        ("sub-form-completions", "completions"),
    ] {
        match Instruction::from_fields(fields(kind)) {
            Err(InstructionError::Missing(f)) => assert_eq!(f, field),
            other => panic!("unexpected: {other:?}"),
        }
    }
    let nameless = InstructionFields { kind: None, ..fields("") };
    assert!(matches!(Instruction::from_fields(nameless), Err(InstructionError::Missing("type"))));
    let mut short = span_fields();
    short.col = None;
    let t = InstructionFields { span: Some(short), ..fields("scope-open") };
    assert!(matches!(Instruction::from_fields(t), Err(InstructionError::Missing("span"))));
}

// ── Hooks of a file ──────────────────────────────────────────────────────

#[test]
fn macro_calls_are_asked_about() {
    let text = "(macro twice [x] x)\n(twice (foo))";
    let mut ws = Workspace::new();
    ws.update("file:///a.fnl", None, text.to_string(), 1, &HashMap::new(), &NameMap::new());
    let requests = ws.with_file("file:///a.fnl", hook_requests).unwrap();
    let call = text.find("(twice (foo").unwrap() as u32;
    let found = requests.iter().find(|r| r.start == call).expect("the call is asked about");
    assert_eq!(found.name, "twice");
    assert_eq!(found.module, "");
    assert_eq!(found.call.children.len(), 2);

    let mut answers = HookAnswers::new(true);
    answers.answer(found, None);
    assert!(answers.results.is_empty());
    assert_eq!(answers.unhooked.len(), 1);
    assert_eq!(answers.unhooked[0].0, found.call.span);
    assert_eq!(answers.unhooked[0].1, "twice");
    answers.answer(found, Some(vec![]));
    assert!(answers.results[&call].is_empty());

    let mut silent = HookAnswers::new(false);
    silent.answer(found, None);
    assert!(silent.unhooked.is_empty());
}

// ── Macro expansion ──────────────────────────────────────────────────────

#[test]
fn expansion_is_needed_for_macro_imports() {
    assert!(needs_expansion("(import-macros {: m} :mod)"));
    assert!(needs_expansion("(require-macros :mod)"));
    assert!(!needs_expansion("(require :macros)"));
}

#[test]
fn expanded_names_are_lines() {
    assert_eq!(expanded_names("foo\n\nbar\r\nfoo\nbaz"), vec!["foo", "bar", "baz"]);
    assert!(expanded_names("").is_empty());
    assert!(expanded_names("\n").is_empty());
}

#[test]
fn results_call_for_a_second_pass() {
    let mut results: HashMap<u32, Vec<Instruction>> = HashMap::new();
    assert!(!needs_second_pass(&results));
    results.insert(3, vec![Instruction::ScopeClose]);
    assert!(needs_second_pass(&results));
}
