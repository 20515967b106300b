//! Edits that an editor may offer or ask for: code actions, formatting, and the
//! names of required modules.
use vstd::prelude::*;
use vstd::string::*;
use vstd::utf8::*;

use crate::analyzer::opt_text;
use crate::fmt::{
    formatted, is_white, push_indent, spaces, trimmed_end, white, without_final_breaks,
};
use crate::lexer::Span;
use crate::lsp::{edit_views, file_edit_views, EditView, FileEdits, TextEdit};
use crate::outline::whole_range;
use crate::parser::{head_name, head_sym, refs_are, AstNode, Form};
use crate::scoping::text_of_key;
use crate::strings::{
    begins, byte_len, chars_of, contains, ends, holds, join, joined, same, slice, stands_at,
    text_between, texts,
};
use crate::text::{
    byte_to_position, char_start, floor_to_char, index_at, offset_of, position_of,
    position_to_byte, position_to_index, range_of, span_to_range, text_before, Position, Range,
};
use crate::walks::{reach, reach_node, reached, spans_byte, visited, Rule};
use crate::workspace::{
    candidates, countable, lists, slashed, AnalyzedFile, FileView, Workspace,
};

verus! {

// ── Keywords before a name ──────────────────────────────────────────────────

/// The characters with the Unicode properties Alphabetic or Numeric, as
/// `char::is_alphanumeric` has them.
pub uninterp spec fn alphanumeric(c: char) -> bool;

/// Wraps `char::is_alphanumeric`: the result is a function of the character alone.
#[verifier::external_body]
fn is_alphanumeric(c: char) -> (r: bool)
    ensures
        r == alphanumeric(c),
{
    c.is_alphanumeric()
}

/// A text behind which a keyword may start: it does not end in an identifier.
pub open spec fn is_break(s: Seq<char>) -> bool {
    s.len() == 0 || !(alphanumeric(s.last()) || s.last() == '_' || s.last() == '-')
}

/// The byte offset of a word that stands, but for whitespace, right before a byte.
pub open spec fn word_before(text: Seq<char>, byte: int, word: Seq<char>) -> Option<nat> {
    let b = encode_utf8(text);
    if !is_char_boundary(b, byte) {
        None
    } else {
        let t = trimmed_end(text_before(b, byte));
        let p = t.take(t.len() - word.len());
        if ends(t, word) && is_break(p) {
            Some(encode_utf8(p).len())
        } else {
            None
        }
    }
}

fn keyword_before(text: &str, byte: usize, word: &str) -> (r: Option<usize>)
    ensures
        match r {
            Some(at) => word_before(text@, byte as int, word@) == Some(at as nat),
            None => word_before(text@, byte as int, word@) is None,
        },
{
    if !text.is_char_boundary(byte) {
        return None;
    }
    proof {
        encode_utf8_valid_utf8(text@);
        is_char_boundary_start_end_of_seq(text.spec_bytes());
    }
    let chars = chars_of(slice(text, 0, byte));
    let ghost s = text_before(text.spec_bytes(), byte as int);
    let mut n: usize = chars.len();
    assert(s.take(n as int) =~= s);
    while n > 0 && white(chars[n - 1])
        invariant
            n <= chars@.len(),
            chars@ == s,
            trimmed_end(s.take(n as int)) == trimmed_end(s),
        decreases n,
    {
        assert(s.take(n as int).drop_last() =~= s.take(n - 1));
        n = n - 1;
    }
    let ghost t = s.take(n as int);
    assert(trimmed_end(s) == t);
    let w = chars_of(word);
    if n < w.len() {
        return None;
    }
    let at = n - w.len();
    let tail = vstd::slice::slice_subrange(chars.as_slice(), 0, n);
    assert(tail@ =~= t);
    if !stands_at(tail, &w, at) {
        assert(!ends(t, word@)) by {
            assert(t.skip(at as int).take(w@.len() as int) =~= t.skip(at as int));
        }
        return None;
    }
    assert(t.skip(at as int).take(w@.len() as int) =~= t.skip(at as int));
    assert(ends(t, word@));
    if at > 0 {
        let c = chars[at - 1];
        assert(t.take(at as int).last() == c);
        if is_alphanumeric(c) || c == '_' || c == '-' {
            return None;
        }
    }
    let p = text_between(&chars, 0, at);
    assert(p@ =~= t.take(at as int));
    Some(byte_len(&p))
}

/// Find the byte offset of the `var` keyword immediately before `name_byte`.
/// Returns `None` if the text before the name doesn't end with `var`.
pub fn find_var_keyword_before(text: &str, name_byte: usize) -> (r: Option<usize>)
    ensures
        match r {
            Some(at) => word_before(text@, name_byte as int, "var"@) == Some(at as nat),
            None => word_before(text@, name_byte as int, "var"@) is None,
        },
{
    keyword_before(text, name_byte, "var")
}

/// Find the byte offset of the `local` keyword immediately before `name_byte`.
/// Returns `None` if the text before the name doesn't end with `local`.
pub fn find_local_keyword_before(text: &str, name_byte: usize) -> (r: Option<usize>)
    ensures
        match r {
            Some(at) => word_before(text@, name_byte as int, "local"@) == Some(at as nat),
            None => word_before(text@, name_byte as int, "local"@) is None,
        },
{
    keyword_before(text, name_byte, "local")
}

/// A `(local …)`, `(var …)` or `(global …)` form around whose binding the byte lies.
pub open spec fn binds_at(n: AstNode, byte: u32) -> bool {
    match n.node {
        Form::List(v) => {
            let head = head_name(v@);
            &&& head == Some("local"@) || head == Some("var"@) || head == Some("global"@)
            &&& v@.len() >= 2
            &&& spans_byte(v@[1].span, byte)
        },
        _ => false,
    }
}

/// The first binding form around a byte, from index `i` on.
pub open spec fn binding_form(ast: Seq<AstNode>, byte: u32, i: int) -> Option<Span>
    decreases ast.len() - i,
{
    if !(0 <= i < ast.len()) {
        None
    } else if binds_at(ast[i], byte) {
        Some(ast[i].span)
    } else {
        binding_form(ast, byte, i + 1)
    }
}

/// Find the span of the top-level `(local …)`, `(var …)` or `(global …)` form that contains
/// the given binding-name byte. Returns `None` if not found.
pub fn find_containing_local_form(ast: &[AstNode], name_byte: u32) -> (r: Option<Span>)
    ensures
        r == binding_form(ast@, name_byte, 0),
{
    let mut i: usize = 0;
    while i < ast.len()
        invariant
            i <= ast@.len(),
            binding_form(ast@, name_byte, i as int) == binding_form(ast@, name_byte, 0),
        decreases ast@.len() - i,
    {
        if let Form::List(forms) = &ast[i].node {
            let named = match head_sym(forms) {
                Some(h) => same(h, "local") || same(h, "var") || same(h, "global"),
                None => false,
            };
            if named && forms.len() >= 2 && forms[1].span.start <= name_byte && name_byte
                <= forms[1].span.end {
                assert(binds_at(ast@[i as int], name_byte));
                return Some(ast[i].span);
            }
        }
        i = i + 1;
    }
    None
}

// ── Code actions ────────────────────────────────────────────────────────────

#[derive(Debug, Clone, Copy, PartialEq, Eq, Structural)]
pub enum CodeActionKind {
    QuickFix,
    Refactor,
}

/// A report that an editor asks actions for.
#[derive(Debug)]
pub struct Report {
    pub range: Range,
    pub message: String,
}

#[verifier::ext_equal]
pub ghost struct ReportView {
    pub range: Range,
    pub message: Seq<char>,
}

impl View for Report {
    type V = ReportView;

    open spec fn view(&self) -> ReportView {
        ReportView { range: self.range, message: self.message@ }
    }
}

pub open spec fn report_views(s: Seq<Report>) -> Seq<ReportView> {
    Seq::new(s.len(), |i: int| s[i]@)
}

/// An edit of the file, with a title to offer it under.
#[derive(Debug)]
pub struct CodeAction {
    pub title: String,
    pub kind: CodeActionKind,
    /// The report that it answers, by its index.
    pub report: Option<usize>,
    pub edit: TextEdit,
}

#[verifier::ext_equal]
pub ghost struct ActionView {
    pub title: Seq<char>,
    pub kind: CodeActionKind,
    pub report: Option<usize>,
    pub edit: EditView,
}

impl View for CodeAction {
    type V = ActionView;

    open spec fn view(&self) -> ActionView {
        ActionView {
            title: self.title@,
            kind: self.kind,
            report: self.report,
            edit: self.edit@,
        }
    }
}

pub open spec fn action_views(s: Seq<CodeAction>) -> Seq<ActionView> {
    Seq::new(s.len(), |i: int| s[i]@)
}

/// The keyword before the name at a position gives way to another one.
pub open spec fn keyword_swap(
    f: FileView,
    at: Position,
    word: Seq<char>,
    by: Seq<char>,
) -> Option<EditView> {
    let b = encode_utf8(f.text);
    match offset_of(f.text, at) {
        None => None,
        Some(byte) => match word_before(f.text, byte as int, word) {
            None => None,
            Some(start) => Some(
                EditView {
                    range: Range {
                        start: position_of(b, start as int),
                        end: position_of(b, (start + word.len()) as int),
                    },
                    new_text: by,
                },
            ),
        },
    }
}

/// A `var` that is never mutated can be a `local`.
pub open spec fn var_to_local(f: Option<FileView>, d: ReportView, i: usize) -> Option<ActionView> {
    if f is Some && holds(d.message, "never mutated"@) {
        match keyword_swap(f->0, d.range.start, "var"@, "local"@) {
            Some(edit) => Some(
                ActionView {
                    title: "Change `var` to `local`"@,
                    kind: CodeActionKind::QuickFix,
                    report: Some(i),
                    edit,
                },
            ),
            None => None,
        }
    } else {
        None
    }
}

/// The identifier that a report calls unknown.
pub open spec fn unknown_name(msg: Seq<char>) -> Option<Seq<char>> {
    let head = "unknown identifier `"@;
    if begins(msg, head) && ends(msg.skip(head.len() as int), "`"@) {
        Some(msg.subrange(head.len() as int, msg.len() - 1))
    } else {
        None
    }
}

/// A stub for an unknown identifier, on a line of its own above the report.
pub open spec fn add_local(d: ReportView, i: usize) -> Option<ActionView> {
    let at = Position { line: d.range.start.line, character: 0 };
    match unknown_name(d.message) {
        Some(name) => Some(
            ActionView {
                title: "Add `(local "@ + name + " nil)`"@,
                kind: CodeActionKind::QuickFix,
                report: Some(i),
                edit: EditView {
                    range: Range { start: at, end: at },
                    new_text: "(local "@ + name + " nil)\n"@,
                },
            },
        ),
        None => None,
    }
}

/// The first index from `i` on that holds the character, or the length.
pub open spec fn find_char(s: Seq<char>, c: char, i: int) -> int
    decreases s.len() - i,
{
    if 0 <= i < s.len() && s[i] != c {
        find_char(s, c, i + 1)
    } else {
        i
    }
}

/// What stands between the first two backticks of a message; `binding` where it
/// has none.
pub open spec fn ticked(msg: Seq<char>) -> Seq<char> {
    let i = find_char(msg, '`', 0);
    if i < msg.len() {
        msg.subrange(i + 1, find_char(msg, '`', i + 1))
    } else {
        "binding"@
    }
}

/// The end of a span, and the line break behind it.
pub open spec fn with_line_break(b: Seq<u8>, end: u32) -> int {
    if end < b.len() && b[end as int] == 0x0A {
        end + 1
    } else {
        end as int
    }
}

/// A form that binds an unused name can be taken out, with the line break behind it.
pub open spec fn remove_unused(f: Option<FileView>, d: ReportView, i: usize) -> Option<ActionView> {
    if f is Some && holds(d.message, "defined but never used"@) {
        let b = encode_utf8(f->0.text);
        match offset_of(f->0.text, d.range.start) {
            None => None,
            Some(byte) => match binding_form(f->0.ast, byte as u32, 0) {
                None => None,
                Some(span) => Some(
                    ActionView {
                        title: "Remove unused `"@ + ticked(d.message) + "`"@,
                        kind: CodeActionKind::QuickFix,
                        report: Some(i),
                        edit: EditView {
                            range: Range {
                                start: position_of(b, span.start as int),
                                end: position_of(b, with_line_break(b, span.end)),
                            },
                            new_text: Seq::empty(),
                        },
                    },
                ),
            },
        }
    } else {
        None
    }
}

/// A `local` can be a `var`.
pub open spec fn local_to_var(f: Option<FileView>, range: Range) -> Option<ActionView> {
    if f is Some {
        match keyword_swap(f->0, range.start, "local"@, "var"@) {
            Some(edit) => Some(
                ActionView {
                    title: "Change `local` to `var`"@,
                    kind: CodeActionKind::Refactor,
                    report: None,
                    edit,
                },
            ),
            None => None,
        }
    } else {
        None
    }
}

/// The text without the whitespace at its start.
pub open spec fn trimmed_start(s: Seq<char>) -> Seq<char>
    decreases s.len(),
{
    if s.len() > 0 && is_white(s[0]) {
        trimmed_start(s.drop_first())
    } else {
        s
    }
}

/// The text that a range selects; none where its start is out of bounds. Such an
/// end counts as the end of the text.
pub open spec fn selected(s: Seq<char>, range: Range) -> Option<Seq<char>> {
    match index_at(s, range.start) {
        None => None,
        Some(i) => {
            let j = match index_at(s, range.end) {
                Some(j) => j,
                None => s.len() as int,
            };
            if i < j {
                Some(s.subrange(i, j))
            } else {
                None
            }
        },
    }
}

/// A selection that holds more than whitespace can be wrapped.
pub open spec fn wrap_in_do(f: Option<FileView>, range: Range) -> Option<ActionView> {
    if f is None {
        None
    } else {
        match selected(f->0.text, range) {
            None => None,
            Some(t) => {
                let core = trimmed_start(trimmed_end(t));
                if core.len() == 0 {
                    None
                } else {
                    Some(
                        ActionView {
                            title: "Wrap in `(do ...)`"@,
                            kind: CodeActionKind::Refactor,
                            report: None,
                            edit: EditView { range, new_text: "(do\n  "@ + core + ")"@ },
                        },
                    )
                }
            },
        }
    }
}

pub open spec fn with_action(s: Seq<ActionView>, x: Option<ActionView>) -> Seq<ActionView> {
    match x {
        Some(a) => s.push(a),
        None => s,
    }
}

/// The actions for the first `k` reports.
pub open spec fn report_actions(f: Option<FileView>, reports: Seq<ReportView>, k: int) -> Seq<
    ActionView,
>
    decreases k,
{
    if 0 < k <= reports.len() {
        let d = reports[k - 1];
        let i = (k - 1) as usize;
        with_action(
            with_action(
                with_action(report_actions(f, reports, k - 1), var_to_local(f, d, i)),
                add_local(d, i),
            ),
            remove_unused(f, d, i),
        )
    } else {
        Seq::empty()
    }
}

/// All the actions for some reports and a selection.
pub open spec fn actions_for(f: Option<FileView>, reports: Seq<ReportView>, range: Range) -> Seq<
    ActionView,
> {
    with_action(
        with_action(report_actions(f, reports, reports.len() as int), local_to_var(f, range)),
        wrap_in_do(f, range),
    )
}

pub open spec fn opt_edit(x: Option<TextEdit>) -> Option<EditView> {
    match x {
        Some(e) => Some(e@),
        None => None,
    }
}

pub open spec fn opt_action(x: Option<CodeAction>) -> Option<ActionView> {
    match x {
        Some(a) => Some(a@),
        None => None,
    }
}

pub open spec fn opt_file(x: Option<&AnalyzedFile>) -> Option<FileView> {
    match x {
        Some(f) => Some(f@),
        None => None,
    }
}

fn swap_keyword(file: &AnalyzedFile, at: Position, word: &str, by: &str) -> (r: Option<TextEdit>)
    requires
        word@.len() <= 5,
    ensures
        opt_edit(r) == keyword_swap(file@, at, word@, by@),
{
    let byte = match position_to_byte(&file.text, at) {
        Some(b) => b,
        None => {
            return None;
        },
    };
    match keyword_before(&file.text, byte, word) {
        None => None,
        Some(start) => {
            let n = byte_len(&file.text);
            let len = chars_of(word).len();
            let end: usize = if start <= n && len <= n - start {
                start + len
            } else {
                n
            };
            let ghost b = encode_utf8(file@.text);
            assert(position_of(b, end as int) == position_of(b, start + word@.len()));
            Some(
                TextEdit {
                    range: Range {
                        start: byte_to_position(&file.text, start),
                        end: byte_to_position(&file.text, end),
                    },
                    new_text: by.to_owned(),
                },
            )
        },
    }
}

fn var_to_local_action(file: Option<&AnalyzedFile>, d: &Report, i: usize) -> (r: Option<CodeAction>)
    ensures
        opt_action(r) == var_to_local(opt_file(file), d@, i),
{
    let f = match file {
        Some(f) => f,
        None => {
            return None;
        },
    };
    if !contains(&d.message, "never mutated") {
        return None;
    }
    proof {
        reveal_strlit("var");
    }
    match swap_keyword(f, d.range.start, "var", "local") {
        Some(edit) => Some(
            CodeAction {
                title: "Change `var` to `local`".to_owned(),
                kind: CodeActionKind::QuickFix,
                report: Some(i),
                edit,
            },
        ),
        None => None,
    }
}

fn name_called_unknown(msg: &str) -> (r: Option<String>)
    ensures
        opt_text(r) == unknown_name(msg@),
{
    let chars = chars_of(msg);
    let head = chars_of("unknown identifier `");
    let n = chars.len();
    let h = head.len();
    assert(msg@.skip(0) =~= msg@);
    if !stands_at(&chars, &head, 0) {
        return None;
    }
    let ghost rest = msg@.skip(h as int);
    proof {
        reveal_strlit("`");
    }
    if n > h && chars[n - 1] == '`' {
        assert(rest.skip(rest.len() - 1) =~= "`"@);
        let name = text_between(&chars, h, n - 1);
        Some(name)
    } else {
        assert(!ends(rest, "`"@)) by {
            if ends(rest, "`"@) {
                assert(rest.skip(rest.len() - 1)[0] == '`');
            }
        }
        None
    }
}

fn add_local_action(d: &Report, i: usize) -> (r: Option<CodeAction>)
    ensures
        opt_action(r) == add_local(d@, i),
{
    match name_called_unknown(&d.message) {
        Some(name) => {
            let at = Position { line: d.range.start.line, character: 0 };
            let mut title = "Add `(local ".to_owned();
            title.append(&name);
            title.append(" nil)`");
            let mut new_text = "(local ".to_owned();
            new_text.append(&name);
            new_text.append(" nil)\n");
            Some(
                CodeAction {
                    title,
                    kind: CodeActionKind::QuickFix,
                    report: Some(i),
                    edit: TextEdit { range: Range { start: at, end: at }, new_text },
                },
            )
        },
        None => None,
    }
}

fn index_of_char(chars: &Vec<char>, c: char, from: usize) -> (r: usize)
    requires
        from <= chars@.len(),
    ensures
        r == find_char(chars@, c, from as int),
        from <= r <= chars@.len(),
{
    let mut i: usize = from;
    while i < chars.len() && chars[i] != c
        invariant
            from <= i <= chars@.len(),
            find_char(chars@, c, i as int) == find_char(chars@, c, from as int),
        decreases chars@.len() - i,
    {
        i = i + 1;
    }
    i
}

fn between_ticks(msg: &str) -> (r: String)
    ensures
        r@ == ticked(msg@),
{
    let chars = chars_of(msg);
    let i = index_of_char(&chars, '`', 0);
    if i < chars.len() {
        let j = index_of_char(&chars, '`', i + 1);
        text_between(&chars, i + 1, j)
    } else {
        "binding".to_owned()
    }
}

fn remove_unused_action(file: Option<&AnalyzedFile>, d: &Report, i: usize) -> (r: Option<CodeAction>)
    ensures
        opt_action(r) == remove_unused(opt_file(file), d@, i),
{
    let f = match file {
        Some(f) => f,
        None => {
            return None;
        },
    };
    if !contains(&d.message, "defined but never used") {
        return None;
    }
    let byte = match position_to_byte(&f.text, d.range.start) {
        Some(b) => b,
        None => {
            return None;
        },
    };
    match find_containing_local_form(&f.ast, byte as u32) {
        None => None,
        Some(span) => {
            let bytes = f.text.as_str().as_bytes();
            let end = span.end as usize;
            let stop: usize = if end < bytes.len() && bytes[end] == 0x0A {
                end + 1
            } else {
                end
            };
            let mut title = "Remove unused `".to_owned();
            title.append(&between_ticks(&d.message));
            title.append("`");
            let new_text = String::new();
            assert(new_text@ =~= Seq::<char>::empty());
            Some(
                CodeAction {
                    title,
                    kind: CodeActionKind::QuickFix,
                    report: Some(i),
                    edit: TextEdit {
                        range: Range {
                            start: byte_to_position(&f.text, span.start as usize),
                            end: byte_to_position(&f.text, stop),
                        },
                        new_text,
                    },
                },
            )
        },
    }
}

fn local_to_var_action(file: Option<&AnalyzedFile>, range: Range) -> (r: Option<CodeAction>)
    ensures
        opt_action(r) == local_to_var(opt_file(file), range),
{
    let f = match file {
        Some(f) => f,
        None => {
            return None;
        },
    };
    proof {
        reveal_strlit("local");
    }
    match swap_keyword(f, range.start, "local", "var") {
        Some(edit) => Some(
            CodeAction {
                title: "Change `local` to `var`".to_owned(),
                kind: CodeActionKind::Refactor,
                report: None,
                edit,
            },
        ),
        None => None,
    }
}

fn trimmed_text(chars: &Vec<char>, from: usize, to: usize) -> (r: String)
    requires
        from <= to <= chars@.len(),
    ensures
        r@ == trimmed_start(trimmed_end(chars@.subrange(from as int, to as int))),
{
    let ghost s = chars@.subrange(from as int, to as int);
    let mut e: usize = to;
    while e > from && white(chars[e - 1])
        invariant
            from <= e <= to <= chars@.len(),
            trimmed_end(chars@.subrange(from as int, e as int)) == trimmed_end(s),
        decreases e,
    {
        assert(chars@.subrange(from as int, e as int).drop_last() =~= chars@.subrange(
            from as int,
            e - 1,
        ));
        e = e - 1;
    }
    let ghost t = chars@.subrange(from as int, e as int);
    assert(trimmed_end(s) == t);
    let mut i: usize = from;
    while i < e && white(chars[i])
        invariant
            from <= i <= e <= chars@.len(),
            trimmed_start(chars@.subrange(i as int, e as int)) == trimmed_start(t),
        decreases e - i,
    {
        assert(chars@.subrange(i as int, e as int).drop_first() =~= chars@.subrange(
            i + 1,
            e as int,
        ));
        i = i + 1;
    }
    text_between(chars, i, e)
}

fn wrap_in_do_action(file: Option<&AnalyzedFile>, range: Range) -> (r: Option<CodeAction>)
    ensures
        opt_action(r) == wrap_in_do(opt_file(file), range),
{
    let f = match file {
        Some(f) => f,
        None => {
            return None;
        },
    };
    let chars = chars_of(&f.text);
    let i = match position_to_index(&chars, range.start) {
        Some(i) => i,
        None => {
            return None;
        },
    };
    let j = match position_to_index(&chars, range.end) {
        Some(j) => j,
        None => chars.len(),
    };
    if i >= j {
        return None;
    }
    let core = trimmed_text(&chars, i, j);
    if chars_of(&core).len() == 0 {
        return None;
    }
    let mut new_text = "(do\n  ".to_owned();
    new_text.append(&core);
    new_text.append(")");
    Some(
        CodeAction {
            title: "Wrap in `(do ...)`".to_owned(),
            kind: CodeActionKind::Refactor,
            report: None,
            edit: TextEdit { range, new_text },
        },
    )
}

fn push_action(out: &mut Vec<CodeAction>, x: Option<CodeAction>)
    ensures
        action_views(final(out)@) == with_action(action_views(old(out)@), opt_action(x)),
{
    let ghost s = action_views(out@);
    if let Some(a) = x {
        out.push(a);
        assert(action_views(out@) =~= s.push(a@));
    }
}

/// The code actions for some reports and a selection. Without the file, only
/// what needs no text is offered. None where there is nothing to offer.
pub fn code_action(file: Option<&AnalyzedFile>, reports: &Vec<Report>, range: Range) -> (r: Option<
    Vec<CodeAction>,
>)
    ensures
        match r {
            Some(v) => v@.len() > 0 && action_views(v@) == actions_for(
                opt_file(file),
                report_views(reports@),
                range,
            ),
            None => actions_for(opt_file(file), report_views(reports@), range).len() == 0,
        },
{
    let ghost f = opt_file(file);
    let ghost ds = report_views(reports@);
    let mut out: Vec<CodeAction> = Vec::new();
    assert(action_views(out@) =~= report_actions(f, ds, 0));
    let mut k: usize = 0;
    while k < reports.len()
        invariant
            k <= reports@.len(),
            f == opt_file(file),
            ds == report_views(reports@),
            action_views(out@) == report_actions(f, ds, k as int),
        decreases reports@.len() - k,
    {
        let d = &reports[k];
        assert(ds[k as int] == d@);
        push_action(&mut out, var_to_local_action(file, d, k));
        push_action(&mut out, add_local_action(d, k));
        push_action(&mut out, remove_unused_action(file, d, k));
        k = k + 1;
    }
    push_action(&mut out, local_to_var_action(file, range));
    push_action(&mut out, wrap_in_do_action(file, range));
    if out.len() == 0 {
        None
    } else {
        Some(out)
    }
}

// ── Formatting ──────────────────────────────────────────────────────────────

/// The edits that format a text: none where it is formatted, or else one of the
/// whole text. Nothing where the text has parse errors.
pub open spec fn formatting_of(text: Seq<char>) -> Option<Seq<EditView>> {
    match formatted(text) {
        None => None,
        Some(t) => if t == text {
            Some(Seq::empty())
        } else {
            Some(seq![EditView { range: whole_range(encode_utf8(text)), new_text: t }])
        },
    }
}

pub open spec fn opt_edits(x: Option<Vec<TextEdit>>) -> Option<Seq<EditView>> {
    match x {
        Some(v) => Some(edit_views(v@)),
        None => None,
    }
}

/// The edits that format a text.
pub fn formatting(text: &str) -> (r: Option<Vec<TextEdit>>)
    requires
        countable(text@),
    ensures
        opt_edits(r) == formatting_of(text@),
{
    match crate::fmt::format(text) {
        None => None,
        Some(t) => {
            let mut edits: Vec<TextEdit> = Vec::new();
            if !same(&t, text) {
                edits.push(
                    TextEdit {
                        range: Range {
                            start: Position { line: 0, character: 0 },
                            end: byte_to_position(text, byte_len(text)),
                        },
                        new_text: t,
                    },
                );
            }
            assert(edit_views(edits@) =~= formatting_of(text@)->0);
            Some(edits)
        },
    }
}

/// The node overlaps a stretch of bytes.
pub open spec fn overlaps(n: AstNode, start: int, end: int) -> bool {
    n.span.start < end && n.span.end > start
}

/// The index of the first node, from `i` on, that overlaps a stretch, or the length.
pub open spec fn first_overlap(ast: Seq<AstNode>, start: int, end: int, i: int) -> int
    decreases ast.len() - i,
{
    if 0 <= i < ast.len() && !overlaps(ast[i], start, end) {
        first_overlap(ast, start, end, i + 1)
    } else {
        i
    }
}

/// The index of the last of the first `k` nodes that overlaps a stretch; -1 if none does.
pub open spec fn last_overlap(ast: Seq<AstNode>, start: int, end: int, k: int) -> int
    decreases k,
{
    if 0 < k <= ast.len() {
        if overlaps(ast[k - 1], start, end) {
            k - 1
        } else {
            last_overlap(ast, start, end, k - 1)
        }
    } else {
        -1
    }
}

/// The text between two bytes.
pub open spec fn text_within(b: Seq<u8>, from: int, to: int) -> Seq<char> {
    let i = char_start(b, from);
    let j = char_start(b, to);
    if i <= j {
        decode_utf8(b.subrange(i, j))
    } else {
        Seq::empty()
    }
}

/// The stretch that a range selects, in bytes; none where its start is out of
/// bounds. Such an end counts as the end of the text.
pub open spec fn selected_bytes(text: Seq<char>, range: Range) -> Option<(int, int)> {
    match offset_of(text, range.start) {
        None => None,
        Some(start) => Some(
            (
                start as int,
                match offset_of(text, range.end) {
                    Some(end) => end as int,
                    None => encode_utf8(text).len() as int,
                },
            ),
        ),
    }
}

/// The edits that format the top-level forms that overlap a range. A region that
/// ends before the text keeps no line break at its end.
pub open spec fn range_formatting_of(f: FileView, range: Range) -> Option<Seq<EditView>> {
    let b = encode_utf8(f.text);
    match selected_bytes(f.text, range) {
        None => None,
        Some((start, end)) => {
            let first = first_overlap(f.ast, start, end, 0);
            let last = last_overlap(f.ast, start, end, f.ast.len() as int);
            if first >= f.ast.len() || last < 0 {
                Some(Seq::empty())
            } else {
                let from = f.ast[first].span.start as int;
                let to = if f.ast[last].span.end <= b.len() {
                    f.ast[last].span.end as int
                } else {
                    b.len() as int
                };
                let region = text_within(b, from, to);
                match formatted(region) {
                    None => None,
                    Some(t) => if t == region {
                        Some(Seq::empty())
                    } else {
                        Some(
                            seq![
                                EditView {
                                    range: Range {
                                        start: position_of(b, from),
                                        end: position_of(b, to),
                                    },
                                    new_text: if to < b.len() {
                                        without_final_breaks(t)
                                    } else {
                                        t
                                    },
                                },
                            ],
                        )
                    },
                }
            }
        },
    }
}

fn drop_final_breaks(text: &str) -> (r: String)
    ensures
        r@ == without_final_breaks(text@),
{
    let chars = chars_of(text);
    let mut end: usize = chars.len();
    assert(chars@.take(end as int) =~= chars@);
    while end > 0 && chars[end - 1] == '\n'
        invariant
            end <= chars@.len(),
            without_final_breaks(chars@.take(end as int)) == without_final_breaks(chars@),
        decreases end,
    {
        assert(chars@.take(end as int).drop_last() =~= chars@.take(end - 1));
        end = end - 1;
    }
    let r = text_between(&chars, 0, end);
    assert(r@ =~= chars@.take(end as int));
    r
}

fn cut_text(text: &str, from: usize, to: usize) -> (r: String)
    ensures
        r@ == text_within(text.spec_bytes(), from as int, to as int),
        encode_utf8(r@).len() <= text.spec_bytes().len(),
{
    let i = floor_to_char(text, from);
    let j = floor_to_char(text, to);
    proof {
        encode_utf8_valid_utf8(text@);
    }
    if i <= j {
        let part = slice(text, i, j);
        proof {
            encode_utf8_decode_utf8(part@);
        }
        part.to_owned()
    } else {
        let r = String::new();
        assert(r@ =~= Seq::<char>::empty());
        assert(encode_utf8(r@) =~= Seq::<u8>::empty());
        r
    }
}

/// The edits that format the top-level forms overlapping a range.
pub fn range_formatting(file: &AnalyzedFile, range: Range) -> (r: Option<Vec<TextEdit>>)
    requires
        countable(file@.text),
    ensures
        opt_edits(r) == range_formatting_of(file@, range),
{
    let ghost f = file@;
    let ghost b = encode_utf8(f.text);
    let n = byte_len(&file.text);
    let start = match position_to_byte(&file.text, range.start) {
        Some(s) => s,
        None => {
            return None;
        },
    };
    let end = match position_to_byte(&file.text, range.end) {
        Some(e) => e,
        None => n,
    };
    let mut edits: Vec<TextEdit> = Vec::new();
    let mut first: usize = 0;
    while first < file.ast.len() && !((file.ast[first].span.start as usize) < end && (
    file.ast[first].span.end as usize) > start)
        invariant
            first <= file.ast@.len(),
            f == file@,
            first_overlap(f.ast, start as int, end as int, first as int) == first_overlap(
                f.ast,
                start as int,
                end as int,
                0,
            ),
        decreases file.ast@.len() - first,
    {
        first = first + 1;
    }
    let mut k: usize = file.ast.len();
    while k > 0 && !((file.ast[k - 1].span.start as usize) < end && (
    file.ast[k - 1].span.end as usize) > start)
        invariant
            k <= file.ast@.len(),
            f == file@,
            last_overlap(f.ast, start as int, end as int, k as int) == last_overlap(
                f.ast,
                start as int,
                end as int,
                f.ast.len() as int,
            ),
        decreases k,
    {
        k = k - 1;
    }
    if first >= file.ast.len() || k == 0 {
        assert(edit_views(edits@) =~= Seq::<EditView>::empty());
        return Some(edits);
    }
    let from = file.ast[first].span.start as usize;
    let last_end = file.ast[k - 1].span.end as usize;
    let to = if last_end <= n {
        last_end
    } else {
        n
    };
    let region = cut_text(&file.text, from, to);
    match crate::fmt::format(&region) {
        None => None,
        Some(t) => {
            if !same(&t, &region) {
                edits.push(
                    TextEdit {
                        range: Range {
                            start: byte_to_position(&file.text, from),
                            end: byte_to_position(&file.text, to),
                        },
                        new_text: if to < n {
                            drop_final_breaks(&t)
                        } else {
                            t
                        },
                    },
                );
            }
            assert(edit_views(edits@) =~= range_formatting_of(f, range)->0);
            Some(edits)
        },
    }
}

// ── Indentation ─────────────────────────────────────────────────────────────

pub open spec fn is_opening(c: char) -> bool {
    c == '(' || c == '[' || c == '{'
}

pub open spec fn is_closing(c: char) -> bool {
    c == ')' || c == ']' || c == '}'
}

/// The column behind a character that stands at column `col`.
pub open spec fn column_behind(c: char, col: nat) -> nat {
    if c == '\n' {
        0
    } else {
        col + 1
    }
}

/// The end of a string whose inside starts at `i`, and the column there. A
/// string ends at its quote, on whatever line that stands; what a backslash
/// escapes does not end it.
pub open spec fn string_end(s: Seq<char>, i: int, col: nat) -> (int, nat)
    decreases s.len() - i,
{
    if !(0 <= i < s.len()) {
        (i, col)
    } else if s[i] == '"' {
        (i + 1, col + 1)
    } else if s[i] == '\\' && i + 1 < s.len() {
        string_end(s, i + 2, column_behind(s[i + 1], col + 1))
    } else {
        string_end(s, i + 1, column_behind(s[i], col))
    }
}

pub proof fn string_end_moves(s: Seq<char>, i: int, col: nat)
    requires
        0 <= i <= s.len(),
    ensures
        i <= string_end(s, i, col).0 <= s.len(),
    decreases s.len() - i,
{
    if i < s.len() && s[i] != '"' {
        if s[i] == '\\' && i + 1 < s.len() {
            string_end_moves(s, i + 2, column_behind(s[i + 1], col + 1));
        } else {
            string_end_moves(s, i + 1, column_behind(s[i], col));
        }
    }
}

/// The columns behind the brackets that are open at the end of a text, read from
/// index `i` on.
pub open spec fn open_columns(s: Seq<char>, i: int, col: nat, stack: Seq<nat>) -> Seq<nat>
    decreases s.len() - i,
    via open_columns_ends
{
    if !(0 <= i < s.len()) {
        stack
    } else if s[i] == '\n' {
        open_columns(s, i + 1, 0, stack)
    } else if s[i] == ';' {
        open_columns(s, find_char(s, '\n', i + 1), col, stack)
    } else if s[i] == '"' {
        let (j, c) = string_end(s, i + 1, col + 1);
        open_columns(s, j, c, stack)
    } else if is_opening(s[i]) {
        open_columns(s, i + 1, col + 1, stack.push(col + 1))
    } else if is_closing(s[i]) {
        open_columns(
            s,
            i + 1,
            col + 1,
            if stack.len() > 0 {
                stack.drop_last()
            } else {
                stack
            },
        )
    } else {
        open_columns(s, i + 1, col + 1, stack)
    }
}

#[via_fn]
proof fn open_columns_ends(s: Seq<char>, i: int, col: nat, stack: Seq<nat>) {
    if 0 <= i < s.len() {
        find_char_moves(s, '\n', i + 1);
        string_end_moves(s, i + 1, col + 1);
    }
}

proof fn find_char_moves(s: Seq<char>, c: char, i: int)
    ensures
        i <= find_char(s, c, i),
        0 <= i <= s.len() ==> find_char(s, c, i) <= s.len(),
    decreases s.len() - i,
{
    if 0 <= i < s.len() && s[i] != c {
        find_char_moves(s, c, i + 1);
    }
}

/// The column behind the innermost bracket that is open before a byte; 0 at top level.
pub open spec fn indent_at(text: Seq<char>, byte: int) -> nat {
    let b = encode_utf8(text);
    let stack = open_columns(text_before(b, char_start(b, byte)), 0, 0, Seq::empty());
    if stack.len() > 0 {
        stack.last()
    } else {
        0
    }
}

pub open spec fn as_nats(v: Seq<usize>) -> Seq<nat> {
    Seq::new(v.len(), |i: int| v[i] as nat)
}

/// Compute the indentation column for a new line at `cursor_byte`.
/// Scans forward through `text[..cursor_byte]`, tracking paren nesting.
/// Returns the column of the innermost unclosed `(` + 1, or 0 if at top level.
pub fn compute_indent(text: &str, cursor_byte: usize) -> (r: u32)
    ensures
        r == indent_at(text@, cursor_byte as int) as u32,
{
    let at = floor_to_char(text, cursor_byte);
    proof {
        encode_utf8_valid_utf8(text@);
        is_char_boundary_start_end_of_seq(text.spec_bytes());
    }
    let chars = chars_of(slice(text, 0, at));
    let ghost s = text_before(text.spec_bytes(), at as int);
    let ghost want = open_columns(s, 0, 0, Seq::empty());
    let mut stack: Vec<usize> = Vec::new();
    let mut col: usize = 0;
    let mut i: usize = 0;
    assert(as_nats(stack@) =~= Seq::<nat>::empty());
    while i < chars.len()
        invariant
            i <= chars@.len(),
            chars@ == s,
            col <= i,
            open_columns(s, i as int, col as nat, as_nats(stack@)) == want,
        decreases chars@.len() - i,
    {
        let c = chars[i];
        let ghost st = as_nats(stack@);
        if c == '\n' {
            col = 0;
            i = i + 1;
        } else if c == ';' {
            i = index_of_char(&chars, '\n', i + 1);
        } else if c == '"' {
            let (j, k) = skip_string(&chars, i + 1, col + 1);
            i = j;
            col = k;
        } else {
            if c == '(' || c == '[' || c == '{' {
                stack.push(col + 1);
                assert(as_nats(stack@) =~= st.push((col + 1) as nat));
            } else if c == ')' || c == ']' || c == '}' {
                let _ = stack.pop();
                proof {
                    if st.len() > 0 {
                        assert(as_nats(stack@) =~= st.drop_last());
                    } else {
                        assert(as_nats(stack@) =~= st);
                    }
                }
            }
            col = col + 1;
            i = i + 1;
        }
    }
    if stack.len() > 0 {
        assert(as_nats(stack@).last() == stack@.last() as nat);
        stack[stack.len() - 1] as u32
    } else {
        0
    }
}

fn skip_string(chars: &Vec<char>, from: usize, col: usize) -> (r: (usize, usize))
    requires
        from <= chars@.len(),
        col <= from,
    ensures
        (r.0 as int, r.1 as nat) == string_end(chars@, from as int, col as nat),
        from <= r.0 <= chars@.len(),
        r.1 <= r.0,
{
    let mut i: usize = from;
    let mut c: usize = col;
    while i < chars.len()
        invariant
            from <= i <= chars@.len(),
            c <= i,
            string_end(chars@, i as int, c as nat) == string_end(chars@, from as int, col as nat),
        decreases chars@.len() - i,
    {
        if chars[i] == '"' {
            return (i + 1, c + 1);
        }
        if chars[i] == '\\' && i < chars.len() - 1 {
            i = i + 1;
            c = c + 1;
        }
        c = if chars[i] == '\n' {
            0
        } else {
            c + 1
        };
        i = i + 1;
    }
    (i, c)
}

/// The number of blanks and tabs from index `i` on.
pub open spec fn blanks_from(s: Seq<char>, i: int) -> nat
    decreases s.len() - i,
{
    if 0 <= i < s.len() && (s[i] == ' ' || s[i] == '\t') {
        1 + blanks_from(s, i + 1)
    } else {
        0
    }
}

/// The edit that indents the line of a position where a line break was typed:
/// the blanks at the start of the line give way to the indentation.
pub open spec fn indentation_at(text: Seq<char>, pos: Position) -> EditView {
    let cursor = match offset_of(text, pos) {
        Some(b) => b as int,
        None => 0,
    };
    let start = Position { line: pos.line, character: 0 };
    let line = match index_at(text, start) {
        Some(i) => i,
        None => 0,
    };
    EditView {
        range: Range {
            start,
            end: Position { line: pos.line, character: blanks_from(text, line) as u32 },
        },
        new_text: spaces(indent_at(text, cursor) as u32 as int),
    }
}

/// The edit after a character was typed. Only a line break asks for one.
pub fn on_type_formatting(file: &AnalyzedFile, pos: Position, typed: &str) -> (r: Option<TextEdit>)
    ensures
        opt_edit(r) == (if typed@ == "\n"@ {
            Some(indentation_at(file@.text, pos))
        } else {
            None
        }),
{
    if !same(typed, "\n") {
        return None;
    }
    let cursor = match position_to_byte(&file.text, pos) {
        Some(b) => b,
        None => 0,
    };
    let indent = compute_indent(&file.text, cursor);
    let mut new_text = String::new();
    push_indent(&mut new_text, indent as u64);
    assert(new_text@ =~= spaces(indent as int));
    let start = Position { line: pos.line, character: 0 };
    let chars = chars_of(&file.text);
    let line = match position_to_index(&chars, start) {
        Some(i) => i,
        None => 0,
    };
    let mut i: usize = line;
    while i < chars.len() && (chars[i] == ' ' || chars[i] == '\t')
        invariant
            line <= i <= chars@.len(),
            blanks_from(chars@, line as int) == (i - line) + blanks_from(chars@, i as int),
        decreases chars@.len() - i,
    {
        i = i + 1;
    }
    Some(
        TextEdit {
            range: Range {
                start,
                end: Position { line: pos.line, character: (i - line) as u32 },
            },
            new_text,
        },
    )
}

// ── Required modules ────────────────────────────────────────────────────────

/// The module that a `(require …)` form names.
pub open spec fn required_by(n: AstNode) -> Option<(Span, Seq<char>)> {
    match n.node {
        Form::List(v) => if head_name(v@) == Some("require"@) && v@.len() >= 2 {
            match text_of_key(v@[1]) {
                Some(m) => Some((v@[1].span, m)),
                None => None,
            }
        } else {
            None
        },
        _ => None,
    }
}

/// The module that a `(require …)` form names, and where.
pub fn required_module(n: &AstNode) -> (r: Option<(Span, &String)>)
    ensures
        match r {
            Some((span, m)) => required_by(*n) == Some((span, m@)),
            None => required_by(*n) is None,
        },
{
    if let Form::List(forms) = &n.node {
        let named = match head_sym(forms) {
            Some(h) => same(h, "require"),
            None => false,
        };
        if named && forms.len() >= 2 {
            return match &forms[1].node {
                Form::Keyword(s) => Some((forms[1].span, s)),
                Form::Str(s) => Some((forms[1].span, s)),
                _ => None,
            };
        }
    }
    None
}

/// A place that may link to the file of a module.
#[derive(Debug)]
pub struct RequireSite {
    pub range: Range,
    pub module: String,
}

impl View for RequireSite {
    type V = (Range, Seq<char>);

    open spec fn view(&self) -> (Range, Seq<char>) {
        (self.range, self.module@)
    }
}

pub open spec fn site_views(s: Seq<RequireSite>) -> Seq<(Range, Seq<char>)> {
    Seq::new(s.len(), |i: int| s[i]@)
}

/// The modules that the first `k` of some nodes require, and where.
pub open spec fn sites_of(nodes: Seq<AstNode>, b: Seq<u8>, k: int) -> Seq<(Range, Seq<char>)>
    decreases k,
{
    if 0 < k <= nodes.len() {
        let before = sites_of(nodes, b, k - 1);
        match required_by(nodes[k - 1]) {
            Some((span, m)) => before.push((range_of(b, span), m)),
            None => before,
        }
    } else {
        Seq::empty()
    }
}

/// Walk the AST of a file and collect every `(require :mod)` form: the places
/// that link to a file where the module resolves to one.
pub fn require_sites(ast: &[AstNode], text: &str) -> (r: Vec<RequireSite>)
    ensures
        site_views(r@) == sites_of(
            reached(Rule::All, ast@),
            text.spec_bytes(),
            reached(Rule::All, ast@).len() as int,
        ),
{
    let nodes = reach(Rule::All, ast);
    let ghost all = reached(Rule::All, ast@);
    let ghost b = text.spec_bytes();
    let mut out: Vec<RequireSite> = Vec::new();
    assert(site_views(out@) =~= sites_of(all, b, 0));
    let mut k: usize = 0;
    while k < nodes.len()
        invariant
            k <= nodes@.len(),
            refs_are(nodes@, all),
            b == text.spec_bytes(),
            site_views(out@) == sites_of(all, b, k as int),
        decreases nodes@.len() - k,
    {
        assert(*nodes@[k as int] == all[k as int]);
        if let Some((span, m)) = required_module(nodes[k]) {
            let ghost before = site_views(out@);
            let site = RequireSite { range: span_to_range(text, &span), module: m.clone() };
            out.push(site);
            assert(site_views(out@) =~= before.push(site@));
        }
        k = k + 1;
    }
    out
}

/// The character at a byte, as a text; nothing at the end.
pub open spec fn char_at(b: Seq<u8>, byte: int) -> Seq<char> {
    let t = decode_utf8(b.skip(char_start(b, byte)));
    if t.len() > 0 {
        seq![t[0]]
    } else {
        Seq::empty()
    }
}

fn text_at(text: &str, byte: usize) -> (r: String)
    ensures
        r@ == char_at(text.spec_bytes(), byte as int),
{
    let at = floor_to_char(text, byte);
    let n = byte_len(text);
    proof {
        encode_utf8_valid_utf8(text@);
        is_char_boundary_start_end_of_seq(text.spec_bytes());
    }
    let chars = chars_of(slice(text, at, n));
    let ghost b = text.spec_bytes();
    assert(b.subrange(at as int, n as int) =~= b.skip(at as int));
    let mut r = String::new();
    if chars.len() > 0 {
        r.push(chars[0]);
    }
    assert(r@ =~= char_at(b, byte as int));
    r
}

/// The edit that renames a required module; the sign before the name, and the
/// quote behind it, stay as they are.
pub open spec fn rename_require(
    n: AstNode,
    b: Seq<u8>,
    from: Seq<char>,
    to: Seq<char>,
) -> Option<EditView> {
    match required_by(n) {
        Some((span, m)) => if m == from {
            let sign = char_at(b, span.start as int);
            Some(
                EditView {
                    range: range_of(b, span),
                    new_text: sign + to + (if sign == "\""@ {
                        "\""@
                    } else {
                        Seq::empty()
                    }),
                },
            )
        } else {
            None
        },
        None => None,
    }
}

/// The edits that rename a module in the first `k` of some nodes.
pub open spec fn rename_requires(
    nodes: Seq<AstNode>,
    b: Seq<u8>,
    from: Seq<char>,
    to: Seq<char>,
    k: int,
) -> Seq<EditView>
    decreases k,
{
    if 0 < k <= nodes.len() {
        let before = rename_requires(nodes, b, from, to, k - 1);
        match rename_require(nodes[k - 1], b, from, to) {
            Some(e) => before.push(e),
            None => before,
        }
    } else {
        Seq::empty()
    }
}

fn push_renames(
    nodes: &Vec<&AstNode>,
    text: &str,
    old_mod: &str,
    new_mod: &str,
    out: &mut Vec<TextEdit>,
    all: Ghost<Seq<AstNode>>,
)
    requires
        refs_are(nodes@, all@),
    ensures
        edit_views(final(out)@) == edit_views(old(out)@) + rename_requires(
            all@,
            text.spec_bytes(),
            old_mod@,
            new_mod@,
            all@.len() as int,
        ),
{
    let ghost b = text.spec_bytes();
    let ghost o = edit_views(out@);
    assert(o =~= o + rename_requires(all@, b, old_mod@, new_mod@, 0));
    let mut k: usize = 0;
    while k < nodes.len()
        invariant
            k <= nodes@.len(),
            refs_are(nodes@, all@),
            b == text.spec_bytes(),
            edit_views(out@) == o + rename_requires(all@, b, old_mod@, new_mod@, k as int),
        decreases nodes@.len() - k,
    {
        assert(*nodes@[k as int] == all@[k as int]);
        if let Some((span, m)) = required_module(nodes[k]) {
            if same(m, old_mod) {
                let sign = text_at(text, span.start as usize);
                let mut new_text = sign.clone();
                new_text.append(new_mod);
                if same(&sign, "\"") {
                    new_text.append("\"");
                }
                let edit = TextEdit { range: span_to_range(text, &span), new_text };
                let ghost want = rename_require(all@[k as int], b, old_mod@, new_mod@);
                assert(edit@.new_text =~= want->0.new_text);
                assert(want == Some(edit@));
                let ghost so_far = edit_views(out@);
                let ghost before = rename_requires(all@, b, old_mod@, new_mod@, k as int);
                out.push(edit);
                assert(edit_views(out@) =~= so_far.push(edit@));
                assert(so_far.push(edit@) =~= o + before.push(edit@));
            }
        }
        k = k + 1;
    }
}

/// Walk the AST and collect `TextEdit`s that rename `(require :old_mod)` →
/// `(require :new_mod)`.  Preserves the original delimiter (`:` or `"`).
pub fn collect_require_rename_edits(
    node: &AstNode,
    text: &str,
    old_mod: &str,
    new_mod: &str,
    out: &mut Vec<TextEdit>,
)
    ensures
        edit_views(final(out)@) == edit_views(old(out)@) + rename_requires(
            visited(Rule::All, *node),
            text.spec_bytes(),
            old_mod@,
            new_mod@,
            visited(Rule::All, *node).len() as int,
        ),
{
    let nodes = reach_node(Rule::All, node);
    push_renames(&nodes, text, old_mod, new_mod, out, Ghost(visited(Rule::All, *node)));
}

/// The edits of a file that rename a module it requires.
pub fn require_rename_edits(file: &AnalyzedFile, old_mod: &str, new_mod: &str) -> (r: Vec<TextEdit>)
    ensures
        edit_views(r@) == rename_requires(
            reached(Rule::All, file@.ast),
            encode_utf8(file@.text),
            old_mod@,
            new_mod@,
            reached(Rule::All, file@.ast).len() as int,
        ),
{
    let nodes = reach(Rule::All, &file.ast);
    let ghost all = reached(Rule::All, file@.ast);
    let mut out: Vec<TextEdit> = Vec::new();
    push_renames(&nodes, &file.text, old_mod, new_mod, &mut out, Ghost(all));
    assert(edit_views(out@) =~= rename_requires(
        all,
        encode_utf8(file@.text),
        old_mod@,
        new_mod@,
        all.len() as int,
    ));
    out
}

/// The edits of a file that rename a module.
pub open spec fn module_edits(f: FileView, from: Seq<char>, to: Seq<char>) -> Seq<EditView> {
    let nodes = reached(Rule::All, f.ast);
    rename_requires(nodes, encode_utf8(f.text), from, to, nodes.len() as int)
}

/// The edits of the first `k` of some files that rename a module; files without
/// an edit are left out.
pub open spec fn module_edits_in(
    files: Map<Seq<char>, AnalyzedFile>,
    order: Seq<Seq<char>>,
    from: Seq<char>,
    to: Seq<char>,
    k: int,
) -> Seq<(Seq<char>, Seq<EditView>)>
    decreases k,
{
    if 0 < k <= order.len() {
        let before = module_edits_in(files, order, from, to, k - 1);
        let edits = module_edits(files[order[k - 1]]@, from, to);
        if edits.len() > 0 {
            before.push((order[k - 1], edits))
        } else {
            before
        }
    } else {
        Seq::empty()
    }
}

pub type Edits = Vec<TextEdit>;

/// The edits of the open files, in any order of the files, that rename a module
/// after its file was moved.
pub fn rename_module(ws: &Workspace, old_mod: &str, new_mod: &str) -> (r: Vec<FileEdits>)
    ensures
        exists|order: Seq<Seq<char>>| #[trigger]
            lists(order, ws.open_files().dom()) && file_edit_views(r@) == (if old_mod@ == new_mod@ {
                Seq::empty()
            } else {
                module_edits_in(ws.open_files(), order, old_mod@, new_mod@, order.len() as int)
            }),
{
    let uris = ws.all_open_uris();
    let ghost order = texts(uris@);
    let ghost files = ws.open_files();
    let mut out: Vec<FileEdits> = Vec::new();
    assert(file_edit_views(out@) =~= module_edits_in(files, order, old_mod@, new_mod@, 0));
    if same(old_mod, new_mod) {
        return out;
    }
    let mut i: usize = 0;
    while i < uris.len()
        invariant
            i <= uris@.len(),
            order == texts(uris@),
            files == ws.open_files(),
            lists(order, files.dom()),
            file_edit_views(out@) == module_edits_in(files, order, old_mod@, new_mod@, i as int),
        decreases uris@.len() - i,
    {
        let look = |f: &AnalyzedFile| -> (v: Edits)
            ensures
                edit_views(v@) == module_edits(f@, old_mod@, new_mod@),
        {
            require_rename_edits(f, old_mod, new_mod)
        };
        assert(order[i as int] == uris@[i as int]@);
        assert(order.contains(order[i as int]));
        if let Some(edits) = ws.with_file(&uris[i], look) {
            if edits.len() > 0 {
                let ghost before = file_edit_views(out@);
                let entry = FileEdits { uri: uris[i].clone(), edits };
                out.push(entry);
                assert(file_edit_views(out@) =~= before.push(entry@));
            }
        }
        i = i + 1;
    }
    out
}

/// A file name without its extension; a dot at its start opens none.
pub open spec fn stem(name: Seq<char>) -> Seq<char> {
    match last_dot(name) {
        Some(i) => if i > 0 {
            name.take(i)
        } else {
            name
        },
        None => name,
    }
}

/// The index of the last dot.
pub open spec fn last_dot(s: Seq<char>) -> Option<int>
    decreases s.len(),
{
    if s.len() == 0 {
        None
    } else if s.last() == '.' {
        Some(s.len() - 1)
    } else {
        last_dot(s.drop_last())
    }
}

/// The last part of a path names a file: it is neither the directory itself nor the
/// one around it, with its extension or without.
pub open spec fn names_file(part: Seq<char>) -> bool {
    &&& part.len() > 0
    &&& part != "."@ && part != ".."@
    &&& stem(part) != "."@ && stem(part) != ".."@
}

/// The module that the file with the given path, part by part, holds. An `init`
/// file holds the module of its directory. A path that ends in `..` names no file.
pub open spec fn module_of(parts: Seq<Seq<char>>) -> Option<Seq<char>> {
    if parts.len() == 0 || !names_file(parts.last()) {
        None
    } else {
        let name = stem(parts.last());
        let outer = parts.drop_last();
        let all = if name == "init"@ {
            outer
        } else {
            outer.push(name)
        };
        Some(joined(all, "."@, all.len() as int))
    }
}

/// The path starts with the parts of the root.
pub open spec fn lies_under(path: Seq<Seq<char>>, root: Seq<Seq<char>>) -> bool {
    path.len() >= root.len() && path.take(root.len() as int) == root
}

/// The module that the file with the given path holds, seen from the root.
pub open spec fn module_under(path: Seq<Seq<char>>, root: Seq<Seq<char>>) -> Option<Seq<char>> {
    if lies_under(path, root) {
        module_of(path.skip(root.len() as int))
    } else {
        None
    }
}

fn file_stem(name: &str) -> (r: String)
    ensures
        r@ == stem(name@),
{
    let chars = chars_of(name);
    let mut i: usize = chars.len();
    assert(chars@.take(i as int) =~= chars@);
    while i > 0
        invariant
            i <= chars@.len(),
            chars@ == name@,
            last_dot(chars@.take(i as int)) == last_dot(chars@),
        decreases i,
    {
        assert(chars@.take(i as int).drop_last() =~= chars@.take(i - 1));
        if chars[i - 1] == '.' {
            if i > 1 {
                let r = text_between(&chars, 0, i - 1);
                assert(r@ =~= name@.take(i - 1));
                return r;
            }
            return name.to_owned();
        }
        i = i - 1;
    }
    name.to_owned()
}

/// Compute the Fennel module name for a file path relative to the root, both
/// given part by part. `path/to/mod.fnl` under the root → `"path.to.mod"`,
/// `mod/init.fnl` → `"mod"`. None for a path outside the root, for the root, and for
/// a path without a file name, such as one that ends in `..`.
pub fn file_path_to_module(path: &Vec<String>, root: &Vec<String>) -> (r: Option<String>)
    ensures
        opt_text(r) == module_under(texts(path@), texts(root@)),
{
    let n = path.len();
    let m = root.len();
    let ghost ps = texts(path@);
    let ghost rs = texts(root@);
    if n < m {
        return None;
    }
    let mut i: usize = 0;
    while i < m
        invariant
            i <= m <= n,
            m == root@.len(),
            n == path@.len(),
            ps == texts(path@),
            rs == texts(root@),
            forall|j: int| 0 <= j < i ==> #[trigger] ps[j] == rs[j],
        decreases m - i,
    {
        if !same(&path[i], &root[i]) {
            assert(ps[i as int] != rs[i as int]);
            assert(ps.take(m as int)[i as int] != rs[i as int]);
            return None;
        }
        assert(ps[i as int] == rs[i as int]);
        i = i + 1;
    }
    assert(ps.take(m as int) =~= rs);
    let ghost p = ps.skip(m as int);
    if n == m {
        return None;
    }
    let last = &path[n - 1];
    let name = file_stem(last);
    assert(p.last() == path@[n - 1]@);
    if chars_of(last).len() == 0 || same(last, ".") || same(last, "..") || same(&name, ".")
        || same(&name, "..") {
        return None;
    }
    let mut all: Vec<String> = Vec::new();
    let mut i: usize = m;
    while i < n - 1
        invariant
            m <= i <= n - 1,
            n == path@.len(),
            all@.len() == i - m,
            forall|j: int| 0 <= j < i - m ==> (#[trigger] all@[j])@ == path@[j + m]@,
        decreases n - i,
    {
        all.push(path[i].clone());
        i = i + 1;
    }
    assert(texts(all@) =~= p.drop_last());
    if !same(&name, "init") {
        let ghost outer = texts(all@);
        all.push(name);
        assert(texts(all@) =~= outer.push(name@));
    }
    Some(join(&all, "."))
}

/// The edits of the open files, in any order of the files, after a file was moved from
/// one path to another. None are needed where one of them holds no module.
pub fn rename_file(
    ws: &Workspace,
    old_path: &Vec<String>,
    new_path: &Vec<String>,
    root: &Vec<String>,
) -> (r: Vec<FileEdits>)
    ensures
        match (
            module_under(texts(old_path@), texts(root@)),
            module_under(texts(new_path@), texts(root@)),
        ) {
            (Some(from), Some(to)) => exists|order: Seq<Seq<char>>| #[trigger]
                lists(order, ws.open_files().dom()) && file_edit_views(r@) == (if from == to {
                    Seq::empty()
                } else {
                    module_edits_in(ws.open_files(), order, from, to, order.len() as int)
                }),
            _ => r@.len() == 0,
        },
{
    match (file_path_to_module(old_path, root), file_path_to_module(new_path, root)) {
        (Some(from), Some(to)) => rename_module(ws, &from, &to),
        _ => Vec::new(),
    }
}

// ── Laws ────────────────────────────────────────────────────────────────────

/// The name holds no dot.
pub open spec fn dotless(name: Seq<char>) -> bool {
    !name.contains('.')
}

proof fn slashed_parts(parts: Seq<Seq<char>>, k: int)
    requires
        forall|i: int| 0 <= i < parts.len() ==> dotless(#[trigger] parts[i]),
        0 <= k <= parts.len(),
    ensures
        slashed(joined(parts, "."@, k)) == joined(parts, "/"@, k),
    decreases k,
{
    reveal_strlit(".");
    reveal_strlit("/");
    if k > 0 {
        assert(dotless(parts[k - 1]));
        assert(slashed(parts[k - 1]) =~= parts[k - 1]);
        if k > 1 {
            slashed_parts(parts, k - 1);
            let before = joined(parts, "."@, k - 1);
            assert(slashed(before + "."@ + parts[k - 1]) =~= slashed(before) + "/"@ + slashed(
                parts[k - 1],
            ));
        }
    } else {
        assert(slashed(Seq::<char>::empty()) =~= Seq::<char>::empty());
    }
}

proof fn stem_of_source(name: Seq<char>)
    requires
        name.len() > 0,
    ensures
        stem(name + ".fnl"@) == name,
{
    reveal_strlit(".fnl");
    reveal_with_fuel(last_dot, 5);
    let s = name + ".fnl"@;
    let n = name.len() as int;
    assert(s.drop_last().drop_last().drop_last() =~= name.push('.'));
    assert(s.take(n) =~= name);
}

proof fn dotless_is_file(name: Seq<char>)
    requires
        dotless(name),
        name.len() > 0,
    ensures
        names_file(name + ".fnl"@),
{
    stem_of_source(name);
    reveal_strlit(".");
    reveal_strlit("..");
    reveal_strlit(".fnl");
    assert(name.contains(name[0]));
}

proof fn joined_start(a: Seq<Seq<char>>, b: Seq<Seq<char>>, sep: Seq<char>, k: int)
    requires
        0 <= k <= a.len(),
        k <= b.len(),
        forall|i: int| 0 <= i < k ==> #[trigger] a[i] == b[i],
    ensures
        joined(a, sep, k) == joined(b, sep, k),
    decreases k,
{
    if k > 0 {
        assert(a[k - 1] == b[k - 1]);
        joined_start(a, b, sep, k - 1);
    }
}

/// The module of a Fennel file leads back to the file: a file `dir/name.fnl` is the
/// first candidate for its module, and `dir/init.fnl` is the second one for the
/// module of the directory. No directory or name may hold a dot.
pub proof fn modules_lead_back_to_their_files(dirs: Seq<Seq<char>>, name: Seq<char>)
    requires
        forall|i: int| 0 <= i < dirs.len() ==> dotless(#[trigger] dirs[i]),
        dotless(name),
        name.len() > 0,
        name == "init"@ ==> dirs.len() > 0,
    ensures
        ({
            let path = dirs.push(name + ".fnl"@);
            let file = joined(path, "/"@, path.len() as int);
            module_of(path) matches Some(module) && file == candidates(module)[if name == "init"@ {
                1int
            } else {
                0
            }]
        }),
{
    let path = dirs.push(name + ".fnl"@);
    let n = path.len() as int;
    stem_of_source(name);
    dotless_is_file(name);
    assert(path.drop_last() =~= dirs);
    reveal_strlit("/");
    if name == "init"@ {
        slashed_parts(dirs, dirs.len() as int);
        joined_start(path, dirs, "/"@, n - 1);
        reveal_strlit("init");
        reveal_strlit(".fnl");
        reveal_strlit("/init.fnl");
        assert("/"@ + (name + ".fnl"@) =~= "/init.fnl"@);
        let before = joined(dirs, "/"@, n - 1);
        assert(before + "/"@ + (name + ".fnl"@) =~= before + "/init.fnl"@);
    } else {
        let all = dirs.push(name);
        assert forall|i: int| 0 <= i < all.len() implies dotless(#[trigger] all[i]) by {
            if i < dirs.len() {
                assert(all[i] == dirs[i]);
            }
        }
        slashed_parts(all, n);
        joined_start(path, all, "/"@, n - 1);
        if n > 1 {
            let before = joined(all, "/"@, n - 1);
            assert(before + "/"@ + (name + ".fnl"@) =~= before + "/"@ + name + ".fnl"@);
        }
    }
}

} // verus!
