//! Lua syntax trees, as plain values, and their parsing by `full_moon`.
use full_moon::ast::punctuated::Punctuated;
use full_moon::ast::{
    BinOp, Block, Call, Expression, Field, FunctionArgs, FunctionBody, Index, LastStmt, Parameter,
    Prefix, Stmt, Suffix, UnOp, Var,
};
use full_moon::node::Node;
use full_moon::tokenizer::{TokenReference, TokenType};
use vstd::prelude::*;

use crate::lua_text::{ends_in_comment_behind_shebang, no_bare_backtick};

verus! {

/// A token, by its kind, with the text it stands for.
#[derive(Debug)]
pub enum LuaToken {
    Identifier(String),
    Number(String),
    Symbol(String),
    /// A string literal; the text between the quotes, as it is written.
    Str(String),
    Other,
}

/// Statements, each with the line it starts on (from 1) where that is known.
#[derive(Debug)]
pub struct LuaBlock {
    pub stmts: Vec<(Option<usize>, LuaStmt)>,
    /// The `return` or `break` at the end.
    pub last: Option<(Option<usize>, LuaLast)>,
}

#[derive(Debug)]
pub enum LuaStmt {
    LocalAssignment(Vec<LuaToken>, Vec<LuaExpr>),
    LocalFunction(LuaToken, LuaFunction),
    /// The names between the dots, the name behind the colon, the function.
    FunctionDeclaration(Vec<LuaToken>, Option<LuaToken>, LuaFunction),
    Assignment(Vec<LuaVar>, Vec<LuaExpr>),
    Do(LuaBlock),
    FunctionCall(LuaChain),
    /// The condition, the block, the `elseif`s, the `else`.
    If(LuaExpr, LuaBlock, Vec<(LuaExpr, LuaBlock)>, Option<LuaBlock>),
    While(LuaExpr, LuaBlock),
    /// The variable, the start, the end, the step, the block.
    NumericFor(LuaToken, LuaExpr, LuaExpr, Option<LuaExpr>, LuaBlock),
    GenericFor(Vec<LuaToken>, Vec<LuaExpr>, LuaBlock),
    Repeat(LuaBlock, LuaExpr),
    Other,
}

#[derive(Debug)]
pub enum LuaLast {
    Return(Vec<LuaExpr>),
    Break,
    Other,
}

#[derive(Debug)]
pub struct LuaFunction {
    pub params: Vec<LuaParam>,
    pub body: LuaBlock,
}

#[derive(Debug)]
pub enum LuaParam {
    Ellipsis,
    Name(LuaToken),
    Other,
}

#[derive(Debug)]
pub enum LuaExpr {
    Number(LuaToken),
    Str(LuaToken),
    Symbol(LuaToken),
    Var(LuaVar),
    FunctionCall(LuaChain),
    Function(LuaFunction),
    Table(Vec<LuaField>),
    Binary(LuaBinOp, Box<LuaExpr>, Box<LuaExpr>),
    Unary(LuaUnOp, Box<LuaExpr>),
    Parentheses(Box<LuaExpr>),
    Other,
}

#[derive(Debug)]
pub enum LuaVar {
    Name(LuaToken),
    Chain(LuaChain),
    Other,
}

/// A prefix with the indices and calls behind it.
#[derive(Debug)]
pub struct LuaChain {
    pub prefix: LuaPrefix,
    pub suffixes: Vec<LuaSuffix>,
}

#[derive(Debug)]
pub enum LuaPrefix {
    Name(LuaToken),
    Expr(Box<LuaExpr>),
    Other,
}

#[derive(Debug)]
pub enum LuaSuffix {
    Dot(LuaToken),
    Brackets(LuaExpr),
    Call(LuaArgs),
    Method(LuaToken, LuaArgs),
    Other,
}

#[derive(Debug)]
pub enum LuaArgs {
    List(Vec<LuaExpr>),
    Str(LuaToken),
    Table(Vec<LuaField>),
    Other,
}

#[derive(Debug)]
pub enum LuaField {
    /// `name = value`
    Named(LuaToken, LuaExpr),
    /// `[key] = value`
    Keyed(LuaExpr, LuaExpr),
    Plain(LuaExpr),
    Other,
}

#[derive(Debug, Clone, Copy)]
pub enum LuaBinOp {
    And,
    Or,
    Plus,
    Minus,
    Star,
    Slash,
    Percent,
    Caret,
    TwoDots,
    TwoEqual,
    TildeEqual,
    LessThan,
    LessThanEqual,
    GreaterThan,
    GreaterThanEqual,
    Other,
}

#[derive(Debug, Clone, Copy)]
pub enum LuaUnOp {
    Minus,
    Not,
    Hash,
    Other,
}

// The types of `full_moon` that the functions below read.

#[verifier::external_type_specification]
#[verifier::external_body]
pub struct ExTokenReference(full_moon::tokenizer::TokenReference);

#[verifier::external_type_specification]
#[verifier::external_body]
pub struct ExBlock(full_moon::ast::Block);

#[verifier::external_type_specification]
#[verifier::external_body]
pub struct ExStmt(full_moon::ast::Stmt);

#[verifier::external_type_specification]
#[verifier::external_body]
pub struct ExLastStmt(full_moon::ast::LastStmt);

#[verifier::external_type_specification]
#[verifier::external_body]
pub struct ExFunctionBody(full_moon::ast::FunctionBody);

#[verifier::external_type_specification]
#[verifier::external_body]
pub struct ExExpression(full_moon::ast::Expression);

#[verifier::external_type_specification]
#[verifier::external_body]
pub struct ExVar(full_moon::ast::Var);

#[verifier::external_type_specification]
#[verifier::external_body]
pub struct ExPrefix(full_moon::ast::Prefix);

#[verifier::external_type_specification]
#[verifier::external_body]
pub struct ExSuffix(full_moon::ast::Suffix);

#[verifier::external_type_specification]
#[verifier::external_body]
pub struct ExFunctionArgs(full_moon::ast::FunctionArgs);

#[verifier::external_type_specification]
#[verifier::external_body]
pub struct ExField(full_moon::ast::Field);

#[verifier::external_type_specification]
#[verifier::external_body]
pub struct ExBinOp(full_moon::ast::BinOp);

#[verifier::external_type_specification]
#[verifier::external_body]
pub struct ExUnOp(full_moon::ast::UnOp);

#[verifier::external_type_specification]
#[verifier::external_body]
#[verifier::reject_recursive_types(T)]
pub struct ExPunctuated<T>(full_moon::ast::punctuated::Punctuated<T>);

/// What `full_moon::parse` makes of a text: its syntax tree, or the messages of
/// its errors.
pub uninterp spec fn lua_tree(src: Seq<char>) -> Result<LuaBlock, Seq<Seq<char>>>;

/// Wraps `full_moon::parse`, which parses Lua 5.1: the result is a function of
/// the text alone. It claims nothing of which tree a text has. The tree is
/// handed out node by node, as plain values. It would panic at a token that starts
/// with a backtick, and where a comment is not closed and nothing but a `#!` line and
/// other comments stands before it.
#[verifier::external_body]
pub(crate) fn parse_lua(src: &str) -> (r: Result<LuaBlock, Vec<String>>)
    requires
        no_bare_backtick(src@),
        !ends_in_comment_behind_shebang(src@),
    ensures
        match r {
            Ok(block) => lua_tree(src@) == Ok::<LuaBlock, Seq<Seq<char>>>(block),
            Err(messages) => lua_tree(src@) == Err::<LuaBlock, Seq<Seq<char>>>(
                crate::strings::texts(messages@),
            ),
        },
{
    match full_moon::parse(src) {
        Ok(ast) => Ok(lua_block(ast.nodes())),
        Err(errors) => Err(errors.iter().map(|e| e.to_string()).collect()),
    }
}

/// The kind and the text of a token (`TokenReference::token`, `Token::token_type`).
#[verifier::external_body]
fn lua_token(t: &TokenReference) -> LuaToken {
    match t.token().token_type() {
        TokenType::Identifier { identifier } => LuaToken::Identifier(identifier.to_string()),
        TokenType::Number { text } => LuaToken::Number(text.to_string()),
        TokenType::Symbol { symbol } => LuaToken::Symbol(symbol.to_string()),
        TokenType::StringLiteral { literal, .. } => LuaToken::Str(literal.to_string()),
        _ => LuaToken::Other,
    }
}

/// The statements of a block (`Block::stmts`, `Block::last_stmt`), with the lines
/// they start on (`Node::start_position`).
#[verifier::external_body]
fn lua_block(b: &Block) -> LuaBlock {
    LuaBlock {
        stmts: b.stmts().map(|s| (s.start_position().map(|p| p.line()), lua_stmt(s))).collect(),
        last: b.last_stmt().map(|s| (s.start_position().map(|p| p.line()), lua_last(s))),
    }
}

/// A statement, by its variant; the parts come from the accessors of its type.
#[verifier::external_body]
fn lua_stmt(s: &Stmt) -> LuaStmt {
    match s {
        Stmt::LocalAssignment(a) => LuaStmt::LocalAssignment(
            a.names().iter().map(lua_token).collect(),
            lua_exprs(a.expressions()),
        ),
        Stmt::LocalFunction(f) => LuaStmt::LocalFunction(lua_token(f.name()), lua_function(f.body())),
        Stmt::Do(d) => LuaStmt::Do(lua_block(d.block())),
        Stmt::While(w) => LuaStmt::While(lua_expr(w.condition()), lua_block(w.block())),
        _ => lua_stmt_more(s),
    }
}

/// The rest of the variants of a statement.
#[verifier::external_body]
fn lua_stmt_more(s: &Stmt) -> LuaStmt {
    match s {
        Stmt::FunctionCall(c) => LuaStmt::FunctionCall(lua_chain(c.prefix(), c.suffixes().collect())),
        Stmt::FunctionDeclaration(f) => LuaStmt::FunctionDeclaration(
            f.name().names().iter().map(lua_token).collect(),
            f.name().method_name().map(lua_token),
            lua_function(f.body()),
        ),
        Stmt::Assignment(a) => LuaStmt::Assignment(
            a.variables().iter().map(lua_var).collect(),
            lua_exprs(a.expressions()),
        ),
        _ => lua_loop(s),
    }
}

/// The loops among the variants of a statement, but for `while`.
#[verifier::external_body]
fn lua_loop(s: &Stmt) -> LuaStmt {
    match s {
        Stmt::GenericFor(f) => LuaStmt::GenericFor(
            f.names().iter().map(lua_token).collect(),
            lua_exprs(f.expressions()),
            lua_block(f.block()),
        ),
        Stmt::Repeat(r) => LuaStmt::Repeat(lua_block(r.block()), lua_expr(r.until())),
        _ => lua_branch(s),
    }
}

/// A counting loop among the variants of a statement.
#[verifier::external_body]
fn lua_branch(s: &Stmt) -> LuaStmt {
    match s {
        Stmt::NumericFor(f) => LuaStmt::NumericFor(
            lua_token(f.index_variable()),
            lua_expr(f.start()),
            lua_expr(f.end()),
            f.step().map(lua_expr),
            lua_block(f.block()),
        ),
        _ => lua_if(s),
    }
}

/// A conditional; the `elseif`s come from `If::else_if`, the `else` from `If::else_block`.
#[verifier::external_body]
fn lua_if(s: &Stmt) -> LuaStmt {
    match s {
        Stmt::If(i) => LuaStmt::If(
            lua_expr(i.condition()),
            lua_block(i.block()),
            i.else_if().into_iter().flatten().map(
                |e| (lua_expr(e.condition()), lua_block(e.block())),
            ).collect(),
            i.else_block().map(lua_block),
        ),
        _ => LuaStmt::Other,
    }
}

/// The `return` or `break` at the end of a block.
#[verifier::external_body]
fn lua_last(s: &LastStmt) -> LuaLast {
    match s {
        LastStmt::Return(r) => LuaLast::Return(lua_exprs(r.returns())),
        LastStmt::Break(_) => LuaLast::Break,
        _ => LuaLast::Other,
    }
}

/// The parameters and the block of a function (`FunctionBody::parameters`,
/// `FunctionBody::block`).
#[verifier::external_body]
fn lua_function(f: &FunctionBody) -> LuaFunction {
    LuaFunction {
        params: f.parameters().iter().map(
            |p| match p {
                Parameter::Ellipsis(_) => LuaParam::Ellipsis,
                Parameter::Name(n) => LuaParam::Name(lua_token(n)),
                _ => LuaParam::Other,
            },
        ).collect(),
        body: lua_block(f.block()),
    }
}

/// The expressions of a list (`Punctuated::iter`).
#[verifier::external_body]
fn lua_exprs(list: &Punctuated<Expression>) -> Vec<LuaExpr> {
    list.iter().map(lua_expr).collect()
}

/// An expression, by its variant.
#[verifier::external_body]
fn lua_expr(e: &Expression) -> LuaExpr {
    match e {
        Expression::Number(t) => LuaExpr::Number(lua_token(t)),
        Expression::String(t) => LuaExpr::Str(lua_token(t)),
        Expression::Symbol(t) => LuaExpr::Symbol(lua_token(t)),
        Expression::Var(v) => LuaExpr::Var(lua_var(v)),
        Expression::FunctionCall(c) => LuaExpr::FunctionCall(
            lua_chain(c.prefix(), c.suffixes().collect()),
        ),
        Expression::Function(f) => LuaExpr::Function(lua_function(f.body())),
        Expression::TableConstructor(t) => LuaExpr::Table(t.fields().iter().map(lua_field).collect()),
        _ => lua_operation(e),
    }
}

/// The operators among the variants of an expression.
#[verifier::external_body]
fn lua_operation(e: &Expression) -> LuaExpr {
    match e {
        Expression::BinaryOperator { lhs, binop, rhs } => LuaExpr::Binary(
            lua_binop(binop),
            Box::new(lua_expr(lhs)),
            Box::new(lua_expr(rhs)),
        ),
        Expression::UnaryOperator { unop, expression } => LuaExpr::Unary(
            lua_unop(unop),
            Box::new(lua_expr(expression)),
        ),
        Expression::Parentheses { expression, .. } => LuaExpr::Parentheses(Box::new(lua_expr(expression))),
        _ => LuaExpr::Other,
    }
}

/// A variable, by its variant.
#[verifier::external_body]
fn lua_var(v: &Var) -> LuaVar {
    match v {
        Var::Name(t) => LuaVar::Name(lua_token(t)),
        Var::Expression(e) => LuaVar::Chain(lua_chain(e.prefix(), e.suffixes().collect())),
        _ => LuaVar::Other,
    }
}

/// A prefix, by its variant, with its suffixes.
#[verifier::external_body]
fn lua_chain(prefix: &Prefix, suffixes: Vec<&Suffix>) -> LuaChain {
    LuaChain {
        prefix: match prefix {
            Prefix::Name(t) => LuaPrefix::Name(lua_token(t)),
            Prefix::Expression(e) => LuaPrefix::Expr(Box::new(lua_expr(e))),
            _ => LuaPrefix::Other,
        },
        suffixes: suffixes.into_iter().map(lua_suffix).collect(),
    }
}

/// A suffix, by its variant.
#[verifier::external_body]
fn lua_suffix(s: &Suffix) -> LuaSuffix {
    match s {
        Suffix::Index(Index::Dot { name, .. }) => LuaSuffix::Dot(lua_token(name)),
        Suffix::Index(Index::Brackets { expression, .. }) => LuaSuffix::Brackets(
            lua_expr(expression),
        ),
        Suffix::Call(Call::AnonymousCall(args)) => LuaSuffix::Call(lua_args(args)),
        Suffix::Call(Call::MethodCall(m)) => LuaSuffix::Method(
            lua_token(m.name()),
            lua_args(m.args()),
        ),
        _ => LuaSuffix::Other,
    }
}

/// The arguments of a call, by their variant.
#[verifier::external_body]
fn lua_args(args: &FunctionArgs) -> LuaArgs {
    match args {
        FunctionArgs::Parentheses { arguments, .. } => LuaArgs::List(lua_exprs(arguments)),
        FunctionArgs::String(t) => LuaArgs::Str(lua_token(t)),
        FunctionArgs::TableConstructor(t) => LuaArgs::Table(t.fields().iter().map(lua_field).collect()),
        _ => LuaArgs::Other,
    }
}

/// A field of a table, by its variant.
#[verifier::external_body]
fn lua_field(f: &Field) -> LuaField {
    match f {
        Field::NameKey { key, value, .. } => LuaField::Named(lua_token(key), lua_expr(value)),
        Field::ExpressionKey { key, value, .. } => LuaField::Keyed(lua_expr(key), lua_expr(value)),
        Field::NoKey(e) => LuaField::Plain(lua_expr(e)),
        _ => LuaField::Other,
    }
}

/// A binary operator, by its variant.
#[verifier::external_body]
fn lua_binop(op: &BinOp) -> LuaBinOp {
    match op {
        BinOp::And(_) => LuaBinOp::And,
        BinOp::Or(_) => LuaBinOp::Or,
        BinOp::Plus(_) => LuaBinOp::Plus,
        BinOp::Minus(_) => LuaBinOp::Minus,
        BinOp::Star(_) => LuaBinOp::Star,
        BinOp::Slash(_) => LuaBinOp::Slash,
        BinOp::Percent(_) => LuaBinOp::Percent,
        BinOp::Caret(_) => LuaBinOp::Caret,
        BinOp::TwoDots(_) => LuaBinOp::TwoDots,
        _ => lua_comparison(op),
    }
}

/// The comparisons among the binary operators.
#[verifier::external_body]
fn lua_comparison(op: &BinOp) -> LuaBinOp {
    match op {
        BinOp::TwoEqual(_) => LuaBinOp::TwoEqual,
        BinOp::TildeEqual(_) => LuaBinOp::TildeEqual,
        BinOp::LessThan(_) => LuaBinOp::LessThan,
        BinOp::LessThanEqual(_) => LuaBinOp::LessThanEqual,
        BinOp::GreaterThan(_) => LuaBinOp::GreaterThan,
        BinOp::GreaterThanEqual(_) => LuaBinOp::GreaterThanEqual,
        _ => LuaBinOp::Other,
    }
}

/// A unary operator, by its variant.
#[verifier::external_body]
fn lua_unop(op: &UnOp) -> LuaUnOp {
    match op {
        UnOp::Minus(_) => LuaUnOp::Minus,
        UnOp::Not(_) => LuaUnOp::Not,
        UnOp::Hash(_) => LuaUnOp::Hash,
        _ => LuaUnOp::Other,
    }
}

} // verus!
