//! Lua to Fennel, statement by statement, with a line-level source map.
use vstd::prelude::*;

use crate::lua_text::{
    ends_in_comment_behind_shebang, has_bare_backtick, has_open_comment_behind_shebang,
    no_bare_backtick,
};
use crate::lua::{
    lua_tree, parse_lua, LuaArgs, LuaBinOp, LuaBlock, LuaChain, LuaExpr, LuaField, LuaFunction,
    LuaLast, LuaParam, LuaPrefix, LuaStmt, LuaSuffix, LuaToken, LuaUnOp, LuaVar,
};
use crate::lua_words::{block_words, in_order, words_of_file_are_kept};
use crate::strings::{chars_of, join, joined, texts};
use crate::text::breaks;

verus! {

/// Sourcemap: `source_map[i]` = Lua line (1-indexed) for Fennel output line `i+1`.
#[derive(Debug)]
pub struct TranspileOutput {
    pub fennel: String,
    pub source_map: Vec<u32>,
}

// ── Texts of tokens and operators ───────────────────────────────────────────

pub open spec fn token_text(t: LuaToken) -> Seq<char> {
    match t {
        LuaToken::Identifier(s) => s@,
        LuaToken::Number(s) => s@,
        LuaToken::Symbol(s) => s@,
        LuaToken::Str(s) => "\""@ + s@ + "\""@,
        LuaToken::Other => Seq::empty(),
    }
}

pub open spec fn token_texts(s: Seq<LuaToken>) -> Seq<Seq<char>> {
    Seq::new(s.len(), |i: int| token_text(s[i]))
}

pub open spec fn binop_text(op: LuaBinOp) -> Seq<char> {
    match op {
        LuaBinOp::And => "and"@,
        LuaBinOp::Or => "or"@,
        LuaBinOp::Plus => "+"@,
        LuaBinOp::Minus => "-"@,
        LuaBinOp::Star => "*"@,
        LuaBinOp::Slash => "/"@,
        LuaBinOp::Percent => "%"@,
        LuaBinOp::Caret => "^"@,
        LuaBinOp::TwoDots => ".."@,
        LuaBinOp::TwoEqual => "="@,
        LuaBinOp::TildeEqual => "not="@,
        LuaBinOp::LessThan => "<"@,
        LuaBinOp::LessThanEqual => "<="@,
        LuaBinOp::GreaterThan => ">"@,
        LuaBinOp::GreaterThanEqual => ">="@,
        LuaBinOp::Other => "+"@,
    }
}

pub open spec fn unop_text(op: LuaUnOp) -> Seq<char> {
    match op {
        LuaUnOp::Minus => "-"@,
        LuaUnOp::Not => "not"@,
        LuaUnOp::Hash => "#"@,
        LuaUnOp::Other => "-"@,
    }
}

pub open spec fn param_text(p: LuaParam) -> Seq<char> {
    match p {
        LuaParam::Ellipsis => "..."@,
        LuaParam::Name(t) => token_text(t),
        LuaParam::Other => "_"@,
    }
}

pub open spec fn param_texts(s: Seq<LuaParam>) -> Seq<Seq<char>> {
    Seq::new(s.len(), |i: int| param_text(s[i]))
}

/// Texts with blanks between them.
pub open spec fn spaced(s: Seq<Seq<char>>) -> Seq<char> {
    joined(s, " "@, s.len() as int)
}

/// Several values where one is asked for: none is `nil`, one stands for itself.
pub open spec fn multi_text(s: Seq<Seq<char>>) -> Seq<char> {
    if s.len() == 0 {
        "nil"@
    } else if s.len() == 1 {
        s[0]
    } else {
        "(values "@ + spaced(s) + ")"@
    }
}

/// One name stands for itself, several are a pattern.
pub open spec fn pattern_text(s: Seq<Seq<char>>) -> Seq<char> {
    if s.len() == 1 {
        s[0]
    } else {
        "["@ + spaced(s) + "]"@
    }
}

pub open spec fn function_name(names: Seq<LuaToken>, method: Option<LuaToken>) -> Seq<char> {
    let dotted = joined(token_texts(names), "."@, names.len() as int);
    match method {
        Some(m) => dotted + ":"@ + token_text(m),
        None => dotted,
    }
}

// ── Texts of statements and expressions ─────────────────────────────────────

pub open spec fn expr_text(e: LuaExpr) -> Seq<char>
    decreases e, 0int,
{
    match e {
        LuaExpr::Number(t) => token_text(t),
        LuaExpr::Str(t) => token_text(t),
        LuaExpr::Symbol(t) => token_text(t),
        LuaExpr::Var(v) => var_text(v),
        LuaExpr::FunctionCall(c) => chain_text(c),
        LuaExpr::Function(f) => "(fn ["@ + spaced(param_texts(f.params@)) + "] "@ + inline_text(f.body)
            + ")"@,
        LuaExpr::Table(fields) => table_text(fields@),
        LuaExpr::Binary(op, lhs, rhs) => "("@ + binop_text(op) + " "@ + expr_text(*lhs) + " "@
            + expr_text(*rhs) + ")"@,
        LuaExpr::Unary(op, operand) => "("@ + unop_text(op) + " "@ + expr_text(*operand) + ")"@,
        LuaExpr::Parentheses(inner) => expr_text(*inner),
        LuaExpr::Other => "; unsupported-expr"@,
    }
}

pub open spec fn expr_texts(s: Seq<LuaExpr>) -> Seq<Seq<char>>
    decreases s, 0int,
{
    Seq::new(
        s.len(),
        |i: int|
            if 0 <= i < s.len() {
                expr_text(s[i])
            } else {
                Seq::empty()
            },
    )
}

pub open spec fn var_text(v: LuaVar) -> Seq<char>
    decreases v, 0int,
{
    match v {
        LuaVar::Name(t) => token_text(t),
        LuaVar::Chain(c) => chain_text(c),
        LuaVar::Other => "; unsupported-var"@,
    }
}

pub open spec fn var_texts(s: Seq<LuaVar>) -> Seq<Seq<char>>
    decreases s, 0int,
{
    Seq::new(
        s.len(),
        |i: int|
            if 0 <= i < s.len() {
                var_text(s[i])
            } else {
                Seq::empty()
            },
    )
}

/// A prefix, wrapped by its suffixes from the first to the last.
pub open spec fn chain_text(c: LuaChain) -> Seq<char>
    decreases c, 0int,
{
    match c.prefix {
        LuaPrefix::Name(t) => suffixed(token_text(t), c.suffixes@, c.suffixes@.len() as int),
        LuaPrefix::Expr(e) => suffixed(expr_text(*e), c.suffixes@, c.suffixes@.len() as int),
        LuaPrefix::Other => "; unsupported-prefix"@,
    }
}

/// A base with its first `k` suffixes.
pub open spec fn suffixed(base: Seq<char>, s: Seq<LuaSuffix>, k: int) -> Seq<char>
    decreases s, k,
{
    if 0 < k <= s.len() {
        let inner = suffixed(base, s, k - 1);
        match s[k - 1] {
            LuaSuffix::Dot(t) => inner + "."@ + token_text(t),
            LuaSuffix::Brackets(e) => "(. "@ + inner + " "@ + expr_text(e) + ")"@,
            LuaSuffix::Call(args) => "("@ + inner + spread(args_texts(args)) + ")"@,
            LuaSuffix::Method(t, args) => "(: "@ + inner + " :"@ + token_text(t) + spread(
                args_texts(args),
            ) + ")"@,
            LuaSuffix::Other => inner,
        }
    } else {
        base
    }
}

/// Arguments, set off by a blank where there are any.
pub open spec fn spread(args: Seq<Seq<char>>) -> Seq<char> {
    if args.len() == 0 {
        Seq::empty()
    } else {
        " "@ + spaced(args)
    }
}

pub open spec fn args_texts(args: LuaArgs) -> Seq<Seq<char>>
    decreases args, 0int,
{
    match args {
        LuaArgs::List(list) => expr_texts(list@),
        LuaArgs::Str(t) => seq![token_text(t)],
        LuaArgs::Table(fields) => seq![table_text(fields@)],
        LuaArgs::Other => Seq::empty(),
    }
}

pub open spec fn is_keyed(f: LuaField) -> bool {
    f is Named || f is Keyed
}

pub open spec fn field_text(f: LuaField) -> Seq<char>
    decreases f, 0int,
{
    match f {
        LuaField::Named(t, value) => ":"@ + token_text(t) + " "@ + expr_text(value),
        LuaField::Keyed(key, value) => expr_text(key) + " "@ + expr_text(value),
        LuaField::Plain(value) => expr_text(value),
        LuaField::Other => Seq::empty(),
    }
}

pub open spec fn field_texts(s: Seq<LuaField>) -> Seq<Seq<char>>
    decreases s, 0int,
{
    Seq::new(
        s.len(),
        |i: int|
            if 0 <= i < s.len() {
                field_text(s[i])
            } else {
                Seq::empty()
            },
    )
}

/// A table without keys is a sequence; one with a key keeps its braces.
pub open spec fn table_text(s: Seq<LuaField>) -> Seq<char>
    decreases s, 1int,
{
    if s.len() == 0 {
        "{}"@
    } else if exists|i: int| 0 <= i < s.len() && is_keyed(#[trigger] s[i]) {
        "{"@ + spaced(field_texts(s)) + "}"@
    } else {
        "["@ + spaced(field_texts(s)) + "]"@
    }
}

/// The text of a statement; none for statements that Fennel has no form for.
pub open spec fn stmt_text(s: LuaStmt) -> Option<Seq<char>>
    decreases s, 0int,
{
    match s {
        LuaStmt::LocalAssignment(names, exprs) => Some(
            "(local "@ + pattern_text(token_texts(names@)) + " "@ + multi_text(expr_texts(exprs@))
                + ")"@,
        ),
        LuaStmt::LocalFunction(name, f) => Some(
            "(fn "@ + token_text(name) + " ["@ + spaced(param_texts(f.params@)) + "] "@ + inline_text(
                f.body,
            ) + ")"@,
        ),
        LuaStmt::FunctionDeclaration(names, method, f) => Some(
            "(fn "@ + function_name(names@, method) + " ["@ + spaced(param_texts(f.params@)) + "] "@
                + inline_text(f.body) + ")"@,
        ),
        LuaStmt::Assignment(vars, exprs) => Some(
            "(set "@ + pattern_text(var_texts(vars@)) + " "@ + multi_text(expr_texts(exprs@)) + ")"@,
        ),
        LuaStmt::Do(block) => Some("(do "@ + inline_text(block) + ")"@),
        LuaStmt::FunctionCall(c) => Some(chain_text(c)),
        LuaStmt::If(cond, block, more, other) => {
            let arms = seq![expr_text(cond), inline_text(block)] + arm_texts(
                more@,
                more@.len() as int,
            );
            match other {
                Some(b) => Some("(if "@ + spaced(arms.push(inline_text(b))) + ")"@),
                None => if more@.len() == 0 {
                    Some("(when "@ + spaced(arms) + ")"@)
                } else {
                    Some("(if "@ + spaced(arms) + ")"@)
                },
            }
        },
        LuaStmt::While(cond, block) => Some(
            "(while "@ + expr_text(cond) + " "@ + inline_text(block) + ")"@,
        ),
        LuaStmt::NumericFor(var, start, end, step, block) => {
            let by = match step {
                Some(e) => " "@ + expr_text(e),
                None => Seq::empty(),
            };
            Some(
                "(for ["@ + token_text(var) + " "@ + expr_text(start) + " "@ + expr_text(end) + by
                    + "] "@ + inline_text(block) + ")"@,
            )
        },
        LuaStmt::GenericFor(names, exprs, block) => Some(
            "(each ["@ + spaced(token_texts(names@)) + " "@ + multi_text(expr_texts(exprs@)) + "] "@
                + inline_text(block) + ")"@,
        ),
        LuaStmt::Repeat(block, until) => Some(
            "(while true "@ + inline_text(block) + " (when "@ + expr_text(until)
                + " (lua \"break\")))"@,
        ),
        LuaStmt::Other => None,
    }
}

/// The conditions and blocks of the first `k` `elseif`s.
pub open spec fn arm_texts(s: Seq<(LuaExpr, LuaBlock)>, k: int) -> Seq<Seq<char>>
    decreases s, k,
{
    if 0 < k <= s.len() {
        arm_texts(s, k - 1) + seq![expr_text(s[k - 1].0), inline_text(s[k - 1].1)]
    } else {
        Seq::empty()
    }
}

pub open spec fn last_text(s: LuaLast) -> Option<Seq<char>>
    decreases s, 0int,
{
    match s {
        LuaLast::Return(exprs) => Some(multi_text(expr_texts(exprs@))),
        LuaLast::Break => Some("(lua \"break\")"@),
        LuaLast::Other => None,
    }
}

/// The texts of the first `k` statements, those without one left out.
pub open spec fn stmt_texts(s: Seq<(Option<usize>, LuaStmt)>, k: int) -> Seq<Seq<char>>
    decreases s, k,
{
    if 0 < k <= s.len() {
        match stmt_text(s[k - 1].1) {
            Some(t) => stmt_texts(s, k - 1).push(t),
            None => stmt_texts(s, k - 1),
        }
    } else {
        Seq::empty()
    }
}

/// A block on one line.
pub open spec fn inline_text(b: LuaBlock) -> Seq<char>
    decreases b, 0int,
{
    let parts = stmt_texts(b.stmts@, b.stmts@.len() as int);
    match b.last {
        Some((_, s)) => match last_text(s) {
            Some(t) => spaced(parts.push(t)),
            None => spaced(parts),
        },
        None => spaced(parts),
    }
}

// ── Whole files ─────────────────────────────────────────────────────────────

/// The line of a statement; 0 where it is not known.
pub open spec fn line_number(line: Option<usize>) -> u32 {
    match line {
        Some(n) => n as u32,
        None => 0,
    }
}

/// The forms of the first `k` statements, each with its Lua line.
pub open spec fn forms_of(s: Seq<(Option<usize>, LuaStmt)>, k: int) -> Seq<(Seq<char>, u32)>
    decreases k,
{
    if 0 < k <= s.len() {
        match stmt_text(s[k - 1].1) {
            Some(t) => forms_of(s, k - 1).push((t, line_number(s[k - 1].0))),
            None => forms_of(s, k - 1),
        }
    } else {
        Seq::empty()
    }
}

/// The forms of a file, each with its Lua line.
pub open spec fn file_forms(b: LuaBlock) -> Seq<(Seq<char>, u32)> {
    let forms = forms_of(b.stmts@, b.stmts@.len() as int);
    match b.last {
        Some((line, s)) => match last_text(s) {
            Some(t) => forms.push((t, line_number(line))),
            None => forms,
        },
        None => forms,
    }
}

/// Forms, a line break behind each.
pub open spec fn lines_text(forms: Seq<(Seq<char>, u32)>) -> Seq<char>
    decreases forms.len(),
{
    if forms.len() == 0 {
        Seq::empty()
    } else {
        lines_text(forms.drop_last()) + forms.last().0 + "\n"@
    }
}

/// The Lua line of each output line: of every line of a form, that of the form.
pub open spec fn line_map(forms: Seq<(Seq<char>, u32)>) -> Seq<u32>
    decreases forms.len(),
{
    if forms.len() == 0 {
        Seq::empty()
    } else {
        let (form, line) = forms.last();
        line_map(forms.drop_last()) + Seq::new(breaks(form) + 1, |i: int| line)
    }
}

/// The error for a text with a backtick that stands in no string or comment.
pub open spec fn backtick_message() -> Seq<char> {
    "unexpected character `"@
}

/// The error for a text that holds nothing but a `#!` line and comments, of which the
/// last is not closed.
pub open spec fn open_comment_message() -> Seq<char> {
    "unclosed comment"@
}

/// Transpile Lua source to Fennel with a line-level source map.
pub fn transpile(lua: &str) -> (r: Result<TranspileOutput, String>)
    ensures
        match r {
            Ok(out) => {
                &&& no_bare_backtick(lua@)
                &&& !ends_in_comment_behind_shebang(lua@)
                &&& lua_tree(lua@) is Ok
                &&& out.fennel@ == lines_text(file_forms(lua_tree(lua@)->Ok_0))
                &&& out.source_map@ == line_map(file_forms(lua_tree(lua@)->Ok_0))
                &&& out.source_map@.len() == breaks(out.fennel@)
                &&& in_order(block_words(lua_tree(lua@)->Ok_0), out.fennel@)
            },
            Err(message) => if !no_bare_backtick(lua@) {
                message@ == backtick_message()
            } else if ends_in_comment_behind_shebang(lua@) {
                message@ == open_comment_message()
            } else {
                &&& lua_tree(lua@) is Err
                &&& message@ == joined(
                    lua_tree(lua@)->Err_0,
                    "; "@,
                    lua_tree(lua@)->Err_0.len() as int,
                )
            },
        },
{
    let chars = chars_of(lua);
    if has_bare_backtick(&chars) {
        return Err("unexpected character `".to_owned());
    }
    if has_open_comment_behind_shebang(&chars) {
        return Err("unclosed comment".to_owned());
    }
    match parse_lua(lua) {
        Ok(block) => Ok(transpile_block(&block)),
        Err(messages) => Err(join(&messages, "; ")),
    }
}

/// The Fennel forms of a parsed Lua file, each on a line or lines of its own, and
/// the Lua line of each of these lines.
pub fn transpile_block(block: &LuaBlock) -> (r: TranspileOutput)
    ensures
        r.fennel@ == lines_text(file_forms(*block)),
        r.source_map@ == line_map(file_forms(*block)),
        in_order(block_words(*block), r.fennel@),
        r.source_map@.len() == breaks(r.fennel@),
{
    let mut out = TranspileOutput { fennel: String::new(), source_map: Vec::new() };
    let ghost mut done = Seq::<(Seq<char>, u32)>::empty();
    assert(out.source_map@ =~= line_map(done));
    let mut i: usize = 0;
    while i < block.stmts.len()
        invariant
            i <= block.stmts@.len(),
            done == forms_of(block.stmts@, i as int),
            out.fennel@ == lines_text(done),
            out.source_map@ == line_map(done),
        decreases block.stmts@.len() - i,
    {
        if let Some(t) = stmt(&block.stmts[i].1) {
            let line = number_of(&block.stmts[i].0);
            push_form(&mut out, &t, line, Ghost(done));
            proof {
                done = done.push((t@, line));
            }
        }
        i = i + 1;
    }
    if let Some(pair) = &block.last {
        if let Some(t) = last_stmt(&pair.1) {
            let line = number_of(&pair.0);
            push_form(&mut out, &t, line, Ghost(done));
        }
    }
    proof {
        every_line_is_mapped(file_forms(*block));
        words_of_file_are_kept(*block);
    }
    out
}

fn number_of(line: &Option<usize>) -> (r: u32)
    ensures
        r == line_number(*line),
{
    match line {
        Some(n) => *n as u32,
        None => 0,
    }
}

fn push_form(
    out: &mut TranspileOutput,
    form: &str,
    lua_line: u32,
    Ghost(done): Ghost<Seq<(Seq<char>, u32)>>,
)
    requires
        old(out).fennel@ == lines_text(done),
        old(out).source_map@ == line_map(done),
    ensures
        final(out).fennel@ == lines_text(done.push((form@, lua_line))),
        final(out).source_map@ == line_map(done.push((form@, lua_line))),
{
    let ghost next = done.push((form@, lua_line));
    assert(next.drop_last() =~= done);
    out.fennel.append(form);
    out.fennel.append("\n");
    assert(out.fennel@ =~= lines_text(next));
    let chars = chars_of(form);
    let ghost before = out.source_map@;
    let ghost mut n: nat = 0;
    let mut i: usize = 0;
    while i < chars.len()
        invariant
            i <= chars@.len(),
            chars@ == form@,
            n == breaks(form@.take(i as int)),
            out.fennel@ == lines_text(next),
            out.source_map@ == before + Seq::new(n, |j: int| lua_line),
        decreases chars@.len() - i,
    {
        assert(form@.take(i + 1).drop_last() =~= form@.take(i as int));
        if chars[i] == '\n' {
            out.source_map.push(lua_line);
            proof {
                n = n + 1;
            }
            assert(out.source_map@ =~= before + Seq::new(n, |j: int| lua_line));
        }
        i = i + 1;
    }
    assert(form@.take(form@.len() as int) =~= form@);
    out.source_map.push(lua_line);
    assert(out.source_map@ =~= line_map(next));
}

fn token(t: &LuaToken) -> (r: String)
    ensures
        r@ == token_text(*t),
{
    match t {
        LuaToken::Identifier(s) => s.clone(),
        LuaToken::Number(s) => s.clone(),
        LuaToken::Symbol(s) => s.clone(),
        LuaToken::Str(s) => {
            let mut out = "\"".to_owned();
            out.append(s);
            out.append("\"");
            out
        },
        LuaToken::Other => String::new(),
    }
}

fn tokens(v: &Vec<LuaToken>) -> (r: Vec<String>)
    ensures
        texts(r@) == token_texts(v@),
{
    let mut out: Vec<String> = Vec::new();
    let mut i: usize = 0;
    while i < v.len()
        invariant
            i <= v@.len(),
            out@.len() == i,
            forall|j: int| 0 <= j < i ==> (#[trigger] out@[j])@ == token_text(v@[j]),
        decreases v@.len() - i,
    {
        out.push(token(&v[i]));
        i = i + 1;
    }
    assert(texts(out@) =~= token_texts(v@));
    out
}

fn binop(op: LuaBinOp) -> (r: &'static str)
    ensures
        r@ == binop_text(op),
{
    match op {
        LuaBinOp::And => "and",
        LuaBinOp::Or => "or",
        LuaBinOp::Plus => "+",
        LuaBinOp::Minus => "-",
        LuaBinOp::Star => "*",
        LuaBinOp::Slash => "/",
        LuaBinOp::Percent => "%",
        LuaBinOp::Caret => "^",
        LuaBinOp::TwoDots => "..",
        LuaBinOp::TwoEqual => "=",
        LuaBinOp::TildeEqual => "not=",
        LuaBinOp::LessThan => "<",
        LuaBinOp::LessThanEqual => "<=",
        LuaBinOp::GreaterThan => ">",
        LuaBinOp::GreaterThanEqual => ">=",
        LuaBinOp::Other => "+",
    }
}

fn unop(op: LuaUnOp) -> (r: &'static str)
    ensures
        r@ == unop_text(op),
{
    match op {
        LuaUnOp::Minus => "-",
        LuaUnOp::Not => "not",
        LuaUnOp::Hash => "#",
        LuaUnOp::Other => "-",
    }
}

fn params(v: &Vec<LuaParam>) -> (r: String)
    ensures
        r@ == spaced(param_texts(v@)),
{
    let mut out: Vec<String> = Vec::new();
    let mut i: usize = 0;
    while i < v.len()
        invariant
            i <= v@.len(),
            out@.len() == i,
            forall|j: int| 0 <= j < i ==> (#[trigger] out@[j])@ == param_text(v@[j]),
        decreases v@.len() - i,
    {
        let t = match &v[i] {
            LuaParam::Ellipsis => "...".to_owned(),
            LuaParam::Name(t) => token(t),
            LuaParam::Other => "_".to_owned(),
        };
        out.push(t);
        i = i + 1;
    }
    assert(texts(out@) =~= param_texts(v@));
    join(&out, " ")
}

fn multi_val(exprs: &Vec<String>) -> (r: String)
    ensures
        r@ == multi_text(texts(exprs@)),
{
    if exprs.len() == 0 {
        "nil".to_owned()
    } else if exprs.len() == 1 {
        exprs[0].clone()
    } else {
        let mut out = "(values ".to_owned();
        out.append(&join(exprs, " "));
        out.append(")");
        out
    }
}

fn pattern(names: &Vec<String>) -> (r: String)
    ensures
        r@ == pattern_text(texts(names@)),
{
    if names.len() == 1 {
        names[0].clone()
    } else {
        let mut out = "[".to_owned();
        out.append(&join(names, " "));
        out.append("]");
        out
    }
}

fn fname(names: &Vec<LuaToken>, method: &Option<LuaToken>) -> (r: String)
    ensures
        r@ == function_name(names@, *method),
{
    let parts = tokens(names);
    assert(texts(parts@).len() == names@.len());
    let mut out = join(&parts, ".");
    if let Some(m) = method {
        out.append(":");
        out.append(&token(m));
    }
    out
}

fn expr(e: &LuaExpr) -> (r: String)
    ensures
        r@ == expr_text(*e),
    decreases e, 0int,
{
    match e {
        LuaExpr::Number(t) => token(t),
        LuaExpr::Str(t) => token(t),
        LuaExpr::Symbol(t) => token(t),
        LuaExpr::Var(v) => var(v),
        LuaExpr::FunctionCall(c) => chain(c),
        LuaExpr::Function(f) => {
            let mut out = "(fn [".to_owned();
            out.append(&params(&f.params));
            out.append("] ");
            out.append(&inline_block(&f.body));
            out.append(")");
            out
        },
        LuaExpr::Table(fields) => table(fields),
        LuaExpr::Binary(op, lhs, rhs) => {
            let mut out = "(".to_owned();
            out.append(binop(*op));
            out.append(" ");
            out.append(&expr(lhs));
            out.append(" ");
            out.append(&expr(rhs));
            out.append(")");
            out
        },
        LuaExpr::Unary(op, operand) => {
            let mut out = "(".to_owned();
            out.append(unop(*op));
            out.append(" ");
            out.append(&expr(operand));
            out.append(")");
            out
        },
        LuaExpr::Parentheses(inner) => expr(inner),
        LuaExpr::Other => "; unsupported-expr".to_owned(),
    }
}

fn exprs(v: &Vec<LuaExpr>) -> (r: Vec<String>)
    ensures
        texts(r@) == expr_texts(v@),
    decreases v@, 0int,
{
    let mut out: Vec<String> = Vec::new();
    let mut i: usize = 0;
    while i < v.len()
        invariant
            i <= v@.len(),
            out@.len() == i,
            forall|j: int| 0 <= j < i ==> (#[trigger] out@[j])@ == expr_text(v@[j]),
        decreases v@.len() - i,
    {
        out.push(expr(&v[i]));
        i = i + 1;
    }
    assert(texts(out@) =~= expr_texts(v@));
    out
}

fn var(v: &LuaVar) -> (r: String)
    ensures
        r@ == var_text(*v),
    decreases v, 0int,
{
    match v {
        LuaVar::Name(t) => token(t),
        LuaVar::Chain(c) => chain(c),
        LuaVar::Other => "; unsupported-var".to_owned(),
    }
}

fn vars(v: &Vec<LuaVar>) -> (r: Vec<String>)
    ensures
        texts(r@) == var_texts(v@),
    decreases v@, 0int,
{
    let mut out: Vec<String> = Vec::new();
    let mut i: usize = 0;
    while i < v.len()
        invariant
            i <= v@.len(),
            out@.len() == i,
            forall|j: int| 0 <= j < i ==> (#[trigger] out@[j])@ == var_text(v@[j]),
        decreases v@.len() - i,
    {
        out.push(var(&v[i]));
        i = i + 1;
    }
    assert(texts(out@) =~= var_texts(v@));
    out
}

fn chain(c: &LuaChain) -> (r: String)
    ensures
        r@ == chain_text(*c),
    decreases c, 0int,
{
    match &c.prefix {
        LuaPrefix::Name(t) => apply_suffixes(token(t), &c.suffixes),
        LuaPrefix::Expr(e) => apply_suffixes(expr(e), &c.suffixes),
        LuaPrefix::Other => "; unsupported-prefix".to_owned(),
    }
}

fn apply_suffixes(base: String, s: &Vec<LuaSuffix>) -> (r: String)
    ensures
        r@ == suffixed(base@, s@, s@.len() as int),
    decreases s@, 1int,
{
    let mut out = base.clone();
    let mut i: usize = 0;
    while i < s.len()
        invariant
            i <= s@.len(),
            out@ == suffixed(base@, s@, i as int),
        decreases s@.len() - i,
    {
        let ghost inner = out@;
        let next = match &s[i] {
            LuaSuffix::Dot(t) => {
                let mut next = out;
                next.append(".");
                next.append(&token(t));
                next
            },
            LuaSuffix::Brackets(e) => {
                let mut next = "(. ".to_owned();
                next.append(&out);
                next.append(" ");
                next.append(&expr(e));
                next.append(")");
                next
            },
            LuaSuffix::Call(args) => {
                let mut next = "(".to_owned();
                next.append(&out);
                next.append(&spread_args(&fn_args(args)));
                next.append(")");
                next
            },
            LuaSuffix::Method(t, args) => {
                let mut next = "(: ".to_owned();
                next.append(&out);
                next.append(" :");
                next.append(&token(t));
                next.append(&spread_args(&fn_args(args)));
                next.append(")");
                next
            },
            LuaSuffix::Other => out,
        };
        out = next;
        i = i + 1;
        assert(out@ =~= suffixed(base@, s@, i as int));
    }
    out
}

fn spread_args(args: &Vec<String>) -> (r: String)
    ensures
        r@ == spread(texts(args@)),
{
    if args.len() == 0 {
        String::new()
    } else {
        let mut out = " ".to_owned();
        out.append(&join(args, " "));
        out
    }
}

fn fn_args(args: &LuaArgs) -> (r: Vec<String>)
    ensures
        texts(r@) == args_texts(*args),
    decreases args, 0int,
{
    match args {
        LuaArgs::List(list) => exprs(list),
        LuaArgs::Str(t) => {
            let r = vec![token(t)];
            assert(texts(r@) =~= args_texts(*args));
            r
        },
        LuaArgs::Table(fields) => {
            let r = vec![table(fields)];
            assert(texts(r@) =~= args_texts(*args));
            r
        },
        LuaArgs::Other => {
            let r: Vec<String> = Vec::new();
            assert(texts(r@) =~= args_texts(*args));
            r
        },
    }
}

fn field(f: &LuaField) -> (r: String)
    ensures
        r@ == field_text(*f),
    decreases f, 0int,
{
    match f {
        LuaField::Named(t, value) => {
            let mut out = ":".to_owned();
            out.append(&token(t));
            out.append(" ");
            out.append(&expr(value));
            out
        },
        LuaField::Keyed(key, value) => {
            let mut out = expr(key);
            out.append(" ");
            out.append(&expr(value));
            out
        },
        LuaField::Plain(value) => expr(value),
        LuaField::Other => String::new(),
    }
}

fn table(fields: &Vec<LuaField>) -> (r: String)
    ensures
        r@ == table_text(fields@),
    decreases fields@, 1int,
{
    if fields.len() == 0 {
        return "{}".to_owned();
    }
    let mut parts: Vec<String> = Vec::new();
    let mut keyed = false;
    let mut i: usize = 0;
    while i < fields.len()
        invariant
            i <= fields@.len(),
            parts@.len() == i,
            forall|j: int| 0 <= j < i ==> (#[trigger] parts@[j])@ == field_text(fields@[j]),
            keyed == (exists|j: int| 0 <= j < i && is_keyed(#[trigger] fields@[j])),
        decreases fields@.len() - i,
    {
        parts.push(field(&fields[i]));
        let ghost before = keyed;
        match &fields[i] {
            LuaField::Named(_, _) => {
                assert(is_keyed(fields@[i as int]));
                keyed = true;
            },
            LuaField::Keyed(_, _) => {
                assert(is_keyed(fields@[i as int]));
                keyed = true;
            },
            _ => {},
        }
        i = i + 1;
    }
    assert(texts(parts@) =~= field_texts(fields@));
    let body = join(&parts, " ");
    let mut out = if keyed {
        "{".to_owned()
    } else {
        "[".to_owned()
    };
    out.append(&body);
    if keyed {
        out.append("}");
    } else {
        out.append("]");
    }
    out
}

fn function_form(name: &str, f: &LuaFunction) -> (r: String)
    ensures
        r@ == "(fn "@ + name@ + " ["@ + spaced(param_texts(f.params@)) + "] "@ + inline_text(f.body)
            + ")"@,
    decreases f, 1int,
{
    let mut out = "(fn ".to_owned();
    out.append(name);
    out.append(" [");
    out.append(&params(&f.params));
    out.append("] ");
    out.append(&inline_block(&f.body));
    out.append(")");
    out
}

fn binding(head: &str, names: &Vec<String>, values: &Vec<String>) -> (r: String)
    ensures
        r@ == head@ + pattern_text(texts(names@)) + " "@ + multi_text(texts(values@)) + ")"@,
{
    let mut out = head.to_owned();
    out.append(&pattern(names));
    out.append(" ");
    out.append(&multi_val(values));
    out.append(")");
    out
}

fn stmt(s: &LuaStmt) -> (r: Option<String>)
    ensures
        match r {
            Some(t) => stmt_text(*s) == Some(t@),
            None => stmt_text(*s) is None,
        },
    decreases s, 0int,
{
    match s {
        LuaStmt::LocalAssignment(names, values) => {
            Some(binding("(local ", &tokens(names), &exprs(values)))
        },
        LuaStmt::LocalFunction(name, f) => Some(function_form(&token(name), f)),
        LuaStmt::FunctionDeclaration(names, method, f) => {
            Some(function_form(&fname(names, method), f))
        },
        LuaStmt::Assignment(targets, values) => {
            Some(binding("(set ", &vars(targets), &exprs(values)))
        },
        LuaStmt::Do(block) => {
            let mut out = "(do ".to_owned();
            out.append(&inline_block(block));
            out.append(")");
            Some(out)
        },
        LuaStmt::FunctionCall(c) => Some(chain(c)),
        LuaStmt::If(cond, block, more, other) => {
            let mut arms = arms_of(more);
            let first = vec![expr(cond), inline_block(block)];
            let ghost tail = arm_texts(more@, more@.len() as int);
            let mut parts = first;
            let ghost head = texts(parts@);
            let when = more.len() == 0;
            assert(head =~= seq![expr_text(*cond), inline_text(*block)]);
            parts.append(&mut arms);
            assert(texts(parts@) =~= head + tail);
            if let Some(b) = other {
                let ghost before = texts(parts@);
                parts.push(inline_block(b));
                assert(texts(parts@) =~= before.push(inline_text(*b)));
                Some(wrapped("(if ", &parts))
            } else if when {
                Some(wrapped("(when ", &parts))
            } else {
                Some(wrapped("(if ", &parts))
            }
        },
        LuaStmt::While(cond, block) => {
            let mut out = "(while ".to_owned();
            out.append(&expr(cond));
            out.append(" ");
            out.append(&inline_block(block));
            out.append(")");
            Some(out)
        },
        LuaStmt::NumericFor(name, start, end, step, block) => {
            let mut out = "(for [".to_owned();
            out.append(&token(name));
            out.append(" ");
            out.append(&expr(start));
            out.append(" ");
            out.append(&expr(end));
            let ghost o = out@;
            let by = match step {
                Some(e) => {
                    let mut by = " ".to_owned();
                    by.append(&expr(e));
                    by
                },
                None => String::new(),
            };
            out.append(&by);
            out.append("] ");
            out.append(&inline_block(block));
            out.append(")");
            Some(out)
        },
        LuaStmt::GenericFor(names, values, block) => {
            let parts = tokens(names);
            let mut out = "(each [".to_owned();
            out.append(&join(&parts, " "));
            out.append(" ");
            out.append(&multi_val(&exprs(values)));
            out.append("] ");
            out.append(&inline_block(block));
            out.append(")");
            Some(out)
        },
        LuaStmt::Repeat(block, until) => {
            let mut out = "(while true ".to_owned();
            out.append(&inline_block(block));
            out.append(" (when ");
            out.append(&expr(until));
            out.append(" (lua \"break\")))");
            Some(out)
        },
        LuaStmt::Other => None,
    }
}

/// `head`, the parts with blanks between them, a closing parenthesis.
fn wrapped(head: &str, parts: &Vec<String>) -> (r: String)
    ensures
        r@ == head@ + spaced(texts(parts@)) + ")"@,
{
    let mut out = head.to_owned();
    out.append(&join(parts, " "));
    out.append(")");
    out
}

fn arms_of(v: &Vec<(LuaExpr, LuaBlock)>) -> (r: Vec<String>)
    ensures
        texts(r@) == arm_texts(v@, v@.len() as int),
    decreases v@, 0int,
{
    let mut out: Vec<String> = Vec::new();
    assert(texts(out@) =~= Seq::<Seq<char>>::empty());
    let mut i: usize = 0;
    while i < v.len()
        invariant
            i <= v@.len(),
            texts(out@) == arm_texts(v@, i as int),
        decreases v@.len() - i,
    {
        let ghost before = texts(out@);
        out.push(expr(&v[i].0));
        out.push(inline_block(&v[i].1));
        assert(texts(out@) =~= before + seq![expr_text(v@[i as int].0), inline_text(v@[i as int].1)]);
        i = i + 1;
    }
    out
}

fn last_stmt(s: &LuaLast) -> (r: Option<String>)
    ensures
        match r {
            Some(t) => last_text(*s) == Some(t@),
            None => last_text(*s) is None,
        },
    decreases s, 0int,
{
    match s {
        LuaLast::Return(values) => Some(multi_val(&exprs(values))),
        LuaLast::Break => Some("(lua \"break\")".to_owned()),
        LuaLast::Other => None,
    }
}

fn stmts(v: &Vec<(Option<usize>, LuaStmt)>) -> (r: Vec<String>)
    ensures
        texts(r@) == stmt_texts(v@, v@.len() as int),
    decreases v@, 0int,
{
    let mut out: Vec<String> = Vec::new();
    assert(texts(out@) =~= Seq::<Seq<char>>::empty());
    let mut i: usize = 0;
    while i < v.len()
        invariant
            i <= v@.len(),
            texts(out@) == stmt_texts(v@, i as int),
        decreases v@.len() - i,
    {
        if let Some(t) = stmt(&v[i].1) {
            let ghost before = texts(out@);
            out.push(t);
            assert(texts(out@) =~= before.push(t@));
        }
        i = i + 1;
    }
    out
}

fn inline_block(b: &LuaBlock) -> (r: String)
    ensures
        r@ == inline_text(*b),
    decreases b, 0int,
{
    let mut parts = stmts(&b.stmts);
    if let Some(pair) = &b.last {
        if let Some(t) = last_stmt(&pair.1) {
            let ghost before = texts(parts@);
            parts.push(t);
            assert(texts(parts@) =~= before.push(t@));
        }
    }
    join(&parts, " ")
}

// ── Laws ────────────────────────────────────────────────────────────────────

/// The source map has an entry for each line of the output.
pub proof fn every_line_is_mapped(forms: Seq<(Seq<char>, u32)>)
    ensures
        line_map(forms).len() == breaks(lines_text(forms)),
    decreases forms.len(),
{
    if forms.len() > 0 {
        every_line_is_mapped(forms.drop_last());
        let a = lines_text(forms.drop_last());
        let b = forms.last().0;
        reveal_strlit("\n");
        breaks_of_concat(a, b);
        breaks_of_concat(a + b, "\n"@);
        assert("\n"@.drop_last() =~= Seq::<char>::empty());
        assert("\n"@.last() == '\n');
        reveal_with_fuel(breaks, 2);
    } else {
        assert(breaks(lines_text(forms)) == 0);
    }
}

/// Every line of a form is mapped to the Lua line of the form: form `k` starts
/// behind the lines of the forms before it, and what stands there are these
/// forms.
pub proof fn forms_are_lines(forms: Seq<(Seq<char>, u32)>, k: int, j: int)
    requires
        0 <= k < forms.len(),
        0 <= j <= breaks(forms[k].0),
    ensures
        lines_text(forms.take(k)).is_prefix_of(lines_text(forms)),
        breaks(lines_text(forms.take(k))) + j < line_map(forms).len(),
        line_map(forms)[breaks(lines_text(forms.take(k))) + j] == forms[k].1,
    decreases forms.len(),
{
    let t = forms.drop_last();
    prefix_of_lines(forms, k);
    every_line_is_mapped(forms.take(k));
    if k < t.len() {
        forms_are_lines(t, k, j);
        assert(t.take(k) =~= forms.take(k));
    } else {
        assert(forms.take(k) =~= t);
    }
}

proof fn prefix_of_lines(forms: Seq<(Seq<char>, u32)>, k: int)
    requires
        0 <= k <= forms.len(),
    ensures
        lines_text(forms.take(k)).is_prefix_of(lines_text(forms)),
    decreases forms.len(),
{
    if k == forms.len() {
        assert(forms.take(k) =~= forms);
        assert(lines_text(forms).take(lines_text(forms).len() as int) =~= lines_text(forms));
    } else {
        let t = forms.drop_last();
        prefix_of_lines(t, k);
        assert(t.take(k) =~= forms.take(k));
        let a = lines_text(forms.take(k));
        assert(lines_text(forms).subrange(0, a.len() as int) =~= lines_text(t).subrange(
            0,
            a.len() as int,
        ));
    }
}

/// The line breaks of a text are those of its parts.
pub proof fn breaks_of_concat(a: Seq<char>, b: Seq<char>)
    ensures
        breaks(a + b) == breaks(a) + breaks(b),
    decreases b.len(),
{
    if b.len() == 0 {
        assert(a + b =~= a);
    } else {
        assert((a + b).drop_last() =~= a + b.drop_last());
        breaks_of_concat(a, b.drop_last());
    }
}

} // verus!
