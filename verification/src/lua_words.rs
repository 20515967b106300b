//! What transpiling keeps: every name, number, string and operator of a Lua file comes
//! out, in the order of the file, and every statement at its line.
use vstd::prelude::*;

use crate::lua::{
    LuaArgs, LuaBinOp, LuaBlock, LuaChain, LuaExpr, LuaField, LuaFunction, LuaLast, LuaParam,
    LuaPrefix, LuaStmt, LuaSuffix, LuaToken, LuaUnOp, LuaVar,
};
use crate::lua_to_fennel::{
    arm_texts, args_texts, binop_text, chain_text, expr_text, expr_texts, field_text, field_texts,
    file_forms, forms_of, function_name, inline_text, last_text, line_number, lines_text,
    multi_text, param_texts, pattern_text, spaced, spread, stmt_text, stmt_texts, suffixed,
    table_text, token_text, token_texts, unop_text, var_text, var_texts,
};
use crate::strings::joined;

verus! {

// ── Words in a text ─────────────────────────────────────────────────────────

/// The word stands in the text at index `i`.
pub open spec fn stands_at(w: Seq<char>, t: Seq<char>, i: int) -> bool {
    0 <= i && i + w.len() <= t.len() && t.subrange(i, i + w.len()) == w
}

/// The words stand in the text one behind the other, in their order.
pub open spec fn in_order(ws: Seq<Seq<char>>, t: Seq<char>) -> bool
    decreases ws.len(),
{
    ws.len() == 0 || exists|i: int|
        #[trigger] stands_at(ws[0], t, i) && in_order(ws.drop_first(), t.skip(i + ws[0].len()))
}

proof fn in_wider(ws: Seq<Seq<char>>, t: Seq<char>, a: Seq<char>, b: Seq<char>)
    requires
        in_order(ws, t),
    ensures
        in_order(ws, a + t + b),
    decreases ws.len(),
{
    if ws.len() > 0 {
        let w = ws[0];
        let i = choose|i: int|
            #[trigger] stands_at(w, t, i) && in_order(ws.drop_first(), t.skip(i + w.len()));
        let all = a + t + b;
        let j = a.len() + i;
        assert(all.subrange(j, j + w.len()) =~= t.subrange(i, i + w.len()));
        assert(stands_at(w, all, j));
        let rest = t.skip(i + w.len());
        in_wider(ws.drop_first(), rest, Seq::empty(), b);
        assert(all.skip(j + w.len()) =~= Seq::<char>::empty() + rest + b);
    }
}

/// Words of a text, and words of a text behind it.
proof fn one_behind_other(
    u: Seq<Seq<char>>,
    s: Seq<char>,
    gap: Seq<char>,
    v: Seq<Seq<char>>,
    t: Seq<char>,
)
    requires
        in_order(u, s),
        in_order(v, t),
    ensures
        in_order(u + v, s + gap + t),
    decreases u.len(),
{
    let all = s + gap + t;
    if u.len() == 0 {
        in_wider(v, t, s + gap, Seq::empty());
        assert(u + v =~= v);
        assert(s + gap + t + Seq::<char>::empty() =~= all);
    } else {
        let w = u[0];
        let i = choose|i: int|
            #[trigger] stands_at(w, s, i) && in_order(u.drop_first(), s.skip(i + w.len()));
        assert(all.subrange(i, i + w.len()) =~= s.subrange(i, i + w.len()));
        assert(stands_at(w, all, i));
        one_behind_other(u.drop_first(), s.skip(i + w.len()), gap, v, t);
        assert(all.skip(i + w.len()) =~= s.skip(i + w.len()) + gap + t);
        assert((u + v).drop_first() =~= u.drop_first() + v);
        assert((u + v)[0] == w);
    }
}

/// The words of a text, with more text behind it.
proof fn and_more(u: Seq<Seq<char>>, s: Seq<char>, e: Seq<char>)
    requires
        in_order(u, s),
    ensures
        in_order(u, s + e),
{
    in_wider(u, s, Seq::empty(), e);
    assert(Seq::<char>::empty() + s + e =~= s + e);
}

/// The words of a text, with more text before it.
proof fn more_and(s: Seq<char>, u: Seq<Seq<char>>, t: Seq<char>)
    requires
        in_order(u, t),
    ensures
        in_order(u, s + t),
{
    in_wider(u, t, s, Seq::empty());
    assert(s + t + Seq::<char>::empty() =~= s + t);
}

proof fn one_word(w: Seq<char>, t: Seq<char>, i: int)
    requires
        stands_at(w, t, i),
    ensures
        in_order(seq![w], t),
{
    assert(seq![w][0] == w);
    assert(in_order(seq![w].drop_first(), t.skip(i + w.len())));
}

/// The words of all the parts, one part behind the other.
pub open spec fn flat(ws: Seq<Seq<Seq<char>>>, k: int) -> Seq<Seq<char>>
    decreases k,
{
    if 0 < k <= ws.len() {
        flat(ws, k - 1) + ws[k - 1]
    } else {
        Seq::empty()
    }
}

/// The words of parts with a separator between them.
proof fn joined_kept(
    ws: Seq<Seq<Seq<char>>>,
    ts: Seq<Seq<char>>,
    sep: Seq<char>,
    k: int,
)
    requires
        0 <= k <= ws.len() == ts.len(),
        forall|i: int| 0 <= i < ts.len() ==> in_order(#[trigger] ws[i], ts[i]),
    ensures
        in_order(flat(ws, k), joined(ts, sep, k)),
    decreases k,
{
    if k > 0 {
        joined_kept(ws, ts, sep, k - 1);
        assert(in_order(ws[k - 1], ts[k - 1]));
        if k == 1 {
            assert(flat(ws, 0) + ws[0] =~= ws[0]);
        } else {
            one_behind_other(
                flat(ws, k - 1),
                joined(ts, sep, k - 1),
                sep,
                ws[k - 1],
                ts[k - 1],
            );
        }
    }
}

// ── The words of a Lua file, in its order ───────────────────────────────────

pub open spec fn token_words(t: LuaToken) -> Seq<Seq<char>> {
    match t {
        LuaToken::Identifier(s) => seq![s@],
        LuaToken::Number(s) => seq![s@],
        LuaToken::Symbol(s) => seq![s@],
        LuaToken::Str(s) => seq![seq!['"'] + s@ + seq!['"']],
        LuaToken::Other => Seq::empty(),
    }
}

pub open spec fn tokens_words(s: Seq<LuaToken>) -> Seq<Seq<Seq<char>>> {
    Seq::new(s.len(), |i: int| token_words(s[i]))
}

pub open spec fn param_words(p: LuaParam) -> Seq<Seq<char>> {
    match p {
        LuaParam::Ellipsis => seq!["..."@],
        LuaParam::Name(t) => token_words(t),
        LuaParam::Other => Seq::empty(),
    }
}

pub open spec fn params_words(s: Seq<LuaParam>) -> Seq<Seq<Seq<char>>> {
    Seq::new(s.len(), |i: int| param_words(s[i]))
}

/// The name that an operator has in Fennel.
pub open spec fn binop_word(op: LuaBinOp) -> Seq<Seq<char>> {
    match op {
        LuaBinOp::And => seq!["and"@],
        LuaBinOp::Or => seq!["or"@],
        LuaBinOp::Plus => seq!["+"@],
        LuaBinOp::Minus => seq!["-"@],
        LuaBinOp::Star => seq!["*"@],
        LuaBinOp::Slash => seq!["/"@],
        LuaBinOp::Percent => seq!["%"@],
        LuaBinOp::Caret => seq!["^"@],
        LuaBinOp::TwoDots => seq![".."@],
        LuaBinOp::TwoEqual => seq!["="@],
        LuaBinOp::TildeEqual => seq!["not="@],
        LuaBinOp::LessThan => seq!["<"@],
        LuaBinOp::LessThanEqual => seq!["<="@],
        LuaBinOp::GreaterThan => seq![">"@],
        LuaBinOp::GreaterThanEqual => seq![">="@],
        LuaBinOp::Other => Seq::empty(),
    }
}

pub open spec fn unop_word(op: LuaUnOp) -> Seq<Seq<char>> {
    match op {
        LuaUnOp::Minus => seq!["-"@],
        LuaUnOp::Not => seq!["not"@],
        LuaUnOp::Hash => seq!["#"@],
        LuaUnOp::Other => Seq::empty(),
    }
}

pub open spec fn expr_words(e: LuaExpr) -> Seq<Seq<char>>
    decreases e, 0int,
{
    match e {
        LuaExpr::Number(t) => token_words(t),
        LuaExpr::Str(t) => token_words(t),
        LuaExpr::Symbol(t) => token_words(t),
        LuaExpr::Var(v) => var_words(v),
        LuaExpr::FunctionCall(c) => chain_words(c),
        LuaExpr::Function(f) => seq!["fn"@] + function_words(f),
        LuaExpr::Table(fields) => fields_words(fields@),
        LuaExpr::Binary(op, lhs, rhs) => binop_word(op) + expr_words(*lhs) + expr_words(*rhs),
        LuaExpr::Unary(op, operand) => unop_word(op) + expr_words(*operand),
        LuaExpr::Parentheses(inner) => expr_words(*inner),
        LuaExpr::Other => Seq::empty(),
    }
}

/// The parameters and the body of a function.
pub open spec fn function_words(f: LuaFunction) -> Seq<Seq<char>>
    decreases f, 0int,
{
    flat(params_words(f.params@), f.params@.len() as int) + block_words(f.body)
}

pub open spec fn exprs_words(s: Seq<LuaExpr>) -> Seq<Seq<Seq<char>>>
    decreases s, 0int,
{
    Seq::new(
        s.len(),
        |i: int|
            if 0 <= i < s.len() {
                expr_words(s[i])
            } else {
                Seq::empty()
            },
    )
}

/// Values where one is asked for: none is `nil`, several are marked as such.
pub open spec fn values_words(s: Seq<LuaExpr>) -> Seq<Seq<char>>
    decreases s, 1int,
{
    if s.len() == 0 {
        seq!["nil"@]
    } else if s.len() == 1 {
        expr_words(s[0])
    } else {
        seq!["values"@] + flat(exprs_words(s), s.len() as int)
    }
}

pub open spec fn var_words(v: LuaVar) -> Seq<Seq<char>>
    decreases v, 0int,
{
    match v {
        LuaVar::Name(t) => token_words(t),
        LuaVar::Chain(c) => chain_words(c),
        LuaVar::Other => Seq::empty(),
    }
}

pub open spec fn vars_words(s: Seq<LuaVar>) -> Seq<Seq<Seq<char>>>
    decreases s, 0int,
{
    Seq::new(
        s.len(),
        |i: int|
            if 0 <= i < s.len() {
                var_words(s[i])
            } else {
                Seq::empty()
            },
    )
}

pub open spec fn chain_words(c: LuaChain) -> Seq<Seq<char>>
    decreases c, 0int,
{
    match c.prefix {
        LuaPrefix::Name(t) => token_words(t) + suffixes_words(c.suffixes@, c.suffixes@.len() as int),
        LuaPrefix::Expr(e) => expr_words(*e) + suffixes_words(c.suffixes@, c.suffixes@.len() as int),
        LuaPrefix::Other => Seq::empty(),
    }
}

pub open spec fn suffixes_words(s: Seq<LuaSuffix>, k: int) -> Seq<Seq<char>>
    decreases s, k,
{
    if 0 < k <= s.len() {
        suffixes_words(s, k - 1) + (match s[k - 1] {
            LuaSuffix::Dot(t) => token_words(t),
            LuaSuffix::Brackets(e) => expr_words(e),
            LuaSuffix::Call(args) => args_words(args),
            LuaSuffix::Method(t, args) => token_words(t) + args_words(args),
            LuaSuffix::Other => Seq::empty(),
        })
    } else {
        Seq::empty()
    }
}

pub open spec fn args_words(args: LuaArgs) -> Seq<Seq<char>>
    decreases args, 0int,
{
    match args {
        LuaArgs::List(list) => flat(exprs_words(list@), list@.len() as int),
        LuaArgs::Str(t) => token_words(t),
        LuaArgs::Table(fields) => fields_words(fields@),
        LuaArgs::Other => Seq::empty(),
    }
}

pub open spec fn field_words(f: LuaField) -> Seq<Seq<char>>
    decreases f, 0int,
{
    match f {
        LuaField::Named(t, value) => token_words(t) + expr_words(value),
        LuaField::Keyed(key, value) => expr_words(key) + expr_words(value),
        LuaField::Plain(value) => expr_words(value),
        LuaField::Other => Seq::empty(),
    }
}

pub open spec fn each_field_words(s: Seq<LuaField>) -> Seq<Seq<Seq<char>>>
    decreases s, 0int,
{
    Seq::new(
        s.len(),
        |i: int|
            if 0 <= i < s.len() {
                field_words(s[i])
            } else {
                Seq::empty()
            },
    )
}

pub open spec fn fields_words(s: Seq<LuaField>) -> Seq<Seq<char>>
    decreases s, 1int,
{
    flat(each_field_words(s), s.len() as int)
}

/// The words of a statement: the head of its form, then what it holds.
pub open spec fn stmt_words(s: LuaStmt) -> Seq<Seq<char>>
    decreases s, 0int,
{
    match s {
        LuaStmt::LocalAssignment(names, exprs) => seq!["local"@] + flat(
            tokens_words(names@),
            names@.len() as int,
        ) + values_words(exprs@),
        LuaStmt::LocalFunction(name, f) => seq!["fn"@] + token_words(name) + function_words(f),
        LuaStmt::FunctionDeclaration(names, method, f) => seq!["fn"@] + flat(
            tokens_words(names@),
            names@.len() as int,
        ) + method_words(method) + function_words(f),
        LuaStmt::Assignment(vars, exprs) => seq!["set"@] + flat(
            vars_words(vars@),
            vars@.len() as int,
        ) + values_words(exprs@),
        LuaStmt::Do(block) => seq!["do"@] + block_words(block),
        LuaStmt::FunctionCall(c) => chain_words(c),
        LuaStmt::If(cond, block, more, other) => seq![
            if more@.len() == 0 && other is None {
                "when"@
            } else {
                "if"@
            },
        ] + expr_words(cond) + block_words(block) + arms_words(more@, more@.len() as int) + (
        match other {
            Some(b) => block_words(b),
            None => Seq::empty(),
        }),
        LuaStmt::While(cond, block) => seq!["while"@] + expr_words(cond) + block_words(block),
        LuaStmt::NumericFor(var, start, end, step, block) => seq!["for"@] + token_words(var)
            + expr_words(start) + expr_words(end) + (match step {
            Some(e) => expr_words(e),
            None => Seq::empty(),
        }) + block_words(block),
        LuaStmt::GenericFor(names, exprs, block) => seq!["each"@] + flat(
            tokens_words(names@),
            names@.len() as int,
        ) + values_words(exprs@) + block_words(block),
        LuaStmt::Repeat(block, until) => seq!["while"@] + block_words(block) + expr_words(until)
            + seq!["break"@],
        LuaStmt::Other => Seq::empty(),
    }
}

pub open spec fn method_words(method: Option<LuaToken>) -> Seq<Seq<char>> {
    match method {
        Some(t) => token_words(t),
        None => Seq::empty(),
    }
}

pub open spec fn arms_words(s: Seq<(LuaExpr, LuaBlock)>, k: int) -> Seq<Seq<char>>
    decreases s, k,
{
    if 0 < k <= s.len() {
        arms_words(s, k - 1) + expr_words(s[k - 1].0) + block_words(s[k - 1].1)
    } else {
        Seq::empty()
    }
}

pub open spec fn last_words(s: LuaLast) -> Seq<Seq<char>>
    decreases s, 0int,
{
    match s {
        LuaLast::Return(exprs) => values_words(exprs@),
        LuaLast::Break => seq!["break"@],
        LuaLast::Other => Seq::empty(),
    }
}

/// The words of the first `k` statements.
pub open spec fn stmts_words(s: Seq<(Option<usize>, LuaStmt)>, k: int) -> Seq<Seq<char>>
    decreases s, k,
{
    if 0 < k <= s.len() {
        stmts_words(s, k - 1) + stmt_words(s[k - 1].1)
    } else {
        Seq::empty()
    }
}

/// The words of a block: those of all its statements, then those of its last one.
pub open spec fn block_words(b: LuaBlock) -> Seq<Seq<char>>
    decreases b, 0int,
{
    stmts_words(b.stmts@, b.stmts@.len() as int) + (match b.last {
        Some((_, s)) => last_words(s),
        None => Seq::empty(),
    })
}

// ── Nothing is lost ─────────────────────────────────────────────────────────

proof fn token_kept(t: LuaToken)
    ensures
        in_order(token_words(t), token_text(t)),
{
    reveal_strlit("\"");
    let x = token_text(t);
    if !(t is Other) {
        assert("\""@ =~= seq!['"']);
        assert(x.subrange(0, x.len() as int) =~= x);
        one_word(x, x, 0);
    }
}

proof fn tokens_kept(s: Seq<LuaToken>, sep: Seq<char>)
    ensures
        in_order(flat(tokens_words(s), s.len() as int), joined(token_texts(s), sep, s.len() as int)),
{
    assert forall|i: int| 0 <= i < s.len() implies in_order(
        #[trigger] tokens_words(s)[i],
        token_texts(s)[i],
    ) by {
        token_kept(s[i]);
    }
    joined_kept(tokens_words(s), token_texts(s), sep, s.len() as int);
}

proof fn pattern_kept(ws: Seq<Seq<Seq<char>>>, ts: Seq<Seq<char>>)
    requires
        ws.len() == ts.len(),
        forall|i: int| 0 <= i < ts.len() ==> in_order(#[trigger] ws[i], ts[i]),
    ensures
        in_order(flat(ws, ws.len() as int), pattern_text(ts)),
{
    let n = ts.len() as int;
    joined_kept(ws, ts, " "@, n);
    if n == 1 {
        assert(in_order(ws[0], ts[0]));
        assert(flat(ws, 0) + ws[0] =~= ws[0]);
        assert(flat(ws, 1) == flat(ws, 0) + ws[0]);
    } else {
        in_wider(flat(ws, n), spaced(ts), "["@, "]"@);
    }
}

proof fn params_kept(s: Seq<LuaParam>)
    ensures
        in_order(flat(params_words(s), s.len() as int), spaced(param_texts(s))),
{
    assert forall|i: int| 0 <= i < s.len() implies in_order(
        #[trigger] params_words(s)[i],
        param_texts(s)[i],
    ) by {
        match s[i] {
            LuaParam::Ellipsis => {
                let x = "..."@;
                assert(x.subrange(0, x.len() as int) =~= x);
                one_word(x, x, 0);
            },
            LuaParam::Name(t) => token_kept(t),
            LuaParam::Other => {},
        }
    }
    joined_kept(params_words(s), param_texts(s), " "@, s.len() as int);
}

proof fn whole_word(w: Seq<char>)
    ensures
        in_order(seq![w], w),
{
    assert(w.subrange(0, w.len() as int) =~= w);
    one_word(w, w, 0);
}

proof fn binop_kept(op: LuaBinOp)
    ensures
        in_order(binop_word(op), binop_text(op)),
{
    whole_word(binop_text(op));
}

proof fn unop_kept(op: LuaUnOp)
    ensures
        in_order(unop_word(op), unop_text(op)),
{
    whole_word(unop_text(op));
}

/// The parameters and the body of a function, as they are written behind its name.
proof fn function_kept(f: LuaFunction)
    ensures
        in_order(
            function_words(f),
            spaced(param_texts(f.params@)) + "] "@ + inline_text(f.body),
        ),
    decreases f, 1int,
{
    params_kept(f.params@);
    block_kept(f.body);
    one_behind_other(
        flat(params_words(f.params@), f.params@.len() as int),
        spaced(param_texts(f.params@)),
        "] "@,
        block_words(f.body),
        inline_text(f.body),
    );
}

proof fn expr_kept(e: LuaExpr)
    ensures
        in_order(expr_words(e), expr_text(e)),
    decreases e, 1int,
{
    match e {
        LuaExpr::Number(t) => token_kept(t),
        LuaExpr::Str(t) => token_kept(t),
        LuaExpr::Symbol(t) => token_kept(t),
        LuaExpr::Var(v) => var_kept(v),
        LuaExpr::FunctionCall(c) => chain_kept(c),
        LuaExpr::Function(f) => {
            function_kept(f);
            reveal_strlit("(fn [");
            reveal_strlit("fn");
            let head = "(fn ["@;
            assert(head.subrange(1, 3) =~= "fn"@);
            one_word("fn"@, head, 1);
            let inner = spaced(param_texts(f.params@)) + "] "@ + inline_text(f.body);
            one_behind_other(seq!["fn"@], head, Seq::empty(), function_words(f), inner);
            and_more(seq!["fn"@] + function_words(f), head + Seq::empty() + inner, ")"@);
            assert(head + Seq::<char>::empty() + inner + ")"@ =~= expr_text(e));
        },
        LuaExpr::Table(fields) => fields_kept(fields@),
        LuaExpr::Binary(op, lhs, rhs) => {
            binop_kept(op);
            expr_kept(*lhs);
            expr_kept(*rhs);
            let o = binop_text(op);
            one_behind_other(binop_word(op), o, " "@, expr_words(*lhs), expr_text(*lhs));
            let left = o + " "@ + expr_text(*lhs);
            one_behind_other(
                binop_word(op) + expr_words(*lhs),
                left,
                " "@,
                expr_words(*rhs),
                expr_text(*rhs),
            );
            in_wider(expr_words(e), left + " "@ + expr_text(*rhs), "("@, ")"@);
            assert("("@ + (left + " "@ + expr_text(*rhs)) + ")"@ =~= expr_text(e));
        },
        LuaExpr::Unary(op, operand) => {
            unop_kept(op);
            expr_kept(*operand);
            let o = unop_text(op);
            one_behind_other(unop_word(op), o, " "@, expr_words(*operand), expr_text(*operand));
            in_wider(expr_words(e), o + " "@ + expr_text(*operand), "("@, ")"@);
            assert("("@ + (o + " "@ + expr_text(*operand)) + ")"@ =~= expr_text(e));
        },
        LuaExpr::Parentheses(inner) => expr_kept(*inner),
        LuaExpr::Other => {},
    }
}

proof fn exprs_kept(s: Seq<LuaExpr>)
    ensures
        forall|i: int|
            0 <= i < s.len() ==> in_order(#[trigger] exprs_words(s)[i], expr_texts(s)[i]),
        exprs_words(s).len() == s.len() == expr_texts(s).len(),
        in_order(flat(exprs_words(s), s.len() as int), spaced(expr_texts(s))),
    decreases s, 1int,
{
    assert forall|i: int| 0 <= i < s.len() implies in_order(
        #[trigger] exprs_words(s)[i],
        expr_texts(s)[i],
    ) by {
        expr_kept(s[i]);
    }
    joined_kept(exprs_words(s), expr_texts(s), " "@, s.len() as int);
}

proof fn values_kept(s: Seq<LuaExpr>)
    ensures
        in_order(values_words(s), multi_text(expr_texts(s))),
    decreases s, 2int,
{
    exprs_kept(s);
    if s.len() == 0 {
        whole_word("nil"@);
    } else if s.len() == 1 {
        assert(in_order(exprs_words(s)[0], expr_texts(s)[0]));
    } else {
        reveal_strlit("(values ");
        reveal_strlit("values");
        let head = "(values "@;
        assert(head.subrange(1, 7) =~= "values"@);
        one_word("values"@, head, 1);
        let inner = spaced(expr_texts(s));
        one_behind_other(
            seq!["values"@],
            head,
            Seq::empty(),
            flat(exprs_words(s), s.len() as int),
            inner,
        );
        and_more(values_words(s), head + Seq::empty() + inner, ")"@);
        assert(head + Seq::<char>::empty() + inner + ")"@ =~= multi_text(expr_texts(s)));
    }
}

proof fn var_kept(v: LuaVar)
    ensures
        in_order(var_words(v), var_text(v)),
    decreases v, 1int,
{
    match v {
        LuaVar::Name(t) => token_kept(t),
        LuaVar::Chain(c) => chain_kept(c),
        LuaVar::Other => {},
    }
}

proof fn chain_kept(c: LuaChain)
    ensures
        in_order(chain_words(c), chain_text(c)),
    decreases c, 1int,
{
    let n = c.suffixes@.len() as int;
    match c.prefix {
        LuaPrefix::Name(t) => {
            token_kept(t);
            suffixed_kept(token_words(t), token_text(t), c.suffixes@, n);
        },
        LuaPrefix::Expr(e) => {
            expr_kept(*e);
            suffixed_kept(expr_words(*e), expr_text(*e), c.suffixes@, n);
        },
        LuaPrefix::Other => {},
    }
}

proof fn suffixed_kept(ws: Seq<Seq<char>>, base: Seq<char>, s: Seq<LuaSuffix>, k: int)
    requires
        in_order(ws, base),
        0 <= k <= s.len(),
    ensures
        in_order(ws + suffixes_words(s, k), suffixed(base, s, k)),
    decreases s, k,
{
    if k == 0 {
        assert(ws + suffixes_words(s, 0) =~= ws);
    } else {
        suffixed_kept(ws, base, s, k - 1);
        let before = ws + suffixes_words(s, k - 1);
        let inner = suffixed(base, s, k - 1);
        let now = suffixed(base, s, k);
        let words = ws + suffixes_words(s, k);
        match s[k - 1] {
            LuaSuffix::Dot(t) => {
                token_kept(t);
                one_behind_other(before, inner, "."@, token_words(t), token_text(t));
                assert(before + token_words(t) =~= words);
            },
            LuaSuffix::Brackets(e) => {
                expr_kept(e);
                one_behind_other(before, inner, " "@, expr_words(e), expr_text(e));
                in_wider(before + expr_words(e), inner + " "@ + expr_text(e), "(. "@, ")"@);
                assert("(. "@ + (inner + " "@ + expr_text(e)) + ")"@ =~= now);
                assert(before + expr_words(e) =~= words);
            },
            LuaSuffix::Call(args) => {
                args_kept(args);
                let a = spread(args_texts(args));
                one_behind_other(before, inner, Seq::empty(), args_words(args), a);
                in_wider(before + args_words(args), inner + Seq::empty() + a, "("@, ")"@);
                assert("("@ + (inner + Seq::<char>::empty() + a) + ")"@ =~= now);
                assert(before + args_words(args) =~= words);
            },
            LuaSuffix::Method(t, args) => {
                token_kept(t);
                args_kept(args);
                let a = spread(args_texts(args));
                one_behind_other(before, inner, " :"@, token_words(t), token_text(t));
                let named = inner + " :"@ + token_text(t);
                one_behind_other(
                    before + token_words(t),
                    named,
                    Seq::empty(),
                    args_words(args),
                    a,
                );
                in_wider(
                    before + token_words(t) + args_words(args),
                    named + Seq::empty() + a,
                    "(: "@,
                    ")"@,
                );
                assert("(: "@ + (named + Seq::<char>::empty() + a) + ")"@ =~= now);
                assert(before + token_words(t) + args_words(args) =~= words);
            },
            LuaSuffix::Other => {
                assert(words =~= before);
            },
        }
    }
}

proof fn args_kept(args: LuaArgs)
    ensures
        in_order(args_words(args), spread(args_texts(args))),
    decreases args, 1int,
{
    match args {
        LuaArgs::List(list) => {
            exprs_kept(list@);
            if list@.len() > 0 {
                more_and(" "@, args_words(args), spaced(expr_texts(list@)));
            }
        },
        LuaArgs::Str(t) => {
            token_kept(t);
            let one = seq![token_text(t)];
            assert(spaced(one) == token_text(t));
            more_and(" "@, args_words(args), token_text(t));
        },
        LuaArgs::Table(fields) => {
            fields_kept(fields@);
            let one = seq![table_text(fields@)];
            assert(spaced(one) == table_text(fields@));
            more_and(" "@, args_words(args), table_text(fields@));
        },
        LuaArgs::Other => {},
    }
}

proof fn field_kept(f: LuaField)
    ensures
        in_order(field_words(f), field_text(f)),
    decreases f, 1int,
{
    match f {
        LuaField::Named(t, value) => {
            token_kept(t);
            expr_kept(value);
            more_and(":"@, token_words(t), token_text(t));
            one_behind_other(
                token_words(t),
                ":"@ + token_text(t),
                " "@,
                expr_words(value),
                expr_text(value),
            );
        },
        LuaField::Keyed(key, value) => {
            expr_kept(key);
            expr_kept(value);
            one_behind_other(
                expr_words(key),
                expr_text(key),
                " "@,
                expr_words(value),
                expr_text(value),
            );
        },
        LuaField::Plain(value) => expr_kept(value),
        LuaField::Other => {},
    }
}

proof fn fields_kept(s: Seq<LuaField>)
    ensures
        in_order(fields_words(s), table_text(s)),
    decreases s, 1int,
{
    assert forall|i: int| 0 <= i < s.len() implies in_order(
        #[trigger] each_field_words(s)[i],
        field_texts(s)[i],
    ) by {
        field_kept(s[i]);
    }
    joined_kept(each_field_words(s), field_texts(s), " "@, s.len() as int);
    in_wider(fields_words(s), spaced(field_texts(s)), "{"@, "}"@);
    in_wider(fields_words(s), spaced(field_texts(s)), "["@, "]"@);
}

/// A form: its head, then what it holds.
proof fn headed(open: Seq<char>, w: Seq<char>, ws: Seq<Seq<char>>, inner: Seq<char>)
    requires
        stands_at(w, open, 1),
        in_order(ws, inner),
    ensures
        in_order(seq![w] + ws, open + inner + ")"@),
{
    one_word(w, open, 1);
    one_behind_other(seq![w], open, Seq::empty(), ws, inner);
    assert(open + Seq::<char>::empty() + inner =~= open + inner);
    and_more(seq![w] + ws, open + inner, ")"@);
}

proof fn flat_of_both(a: Seq<Seq<Seq<char>>>, b: Seq<Seq<Seq<char>>>, k: int)
    requires
        0 <= k <= b.len(),
    ensures
        flat(a + b, a.len() + k) == flat(a, a.len() as int) + flat(b, k),
    decreases k,
{
    if k == 0 {
        flat_of_start(a, b, a.len() as int);
        assert(flat(a, a.len() as int) + flat(b, 0) =~= flat(a, a.len() as int));
    } else {
        flat_of_both(a, b, k - 1);
        assert((a + b)[a.len() + k - 1] == b[k - 1]);
        assert(flat(a, a.len() as int) + flat(b, k - 1) + b[k - 1] =~= flat(a, a.len() as int) + (
        flat(b, k - 1) + b[k - 1]));
    }
}

proof fn flat_of_start(a: Seq<Seq<Seq<char>>>, b: Seq<Seq<Seq<char>>>, k: int)
    requires
        0 <= k <= a.len(),
    ensures
        flat(a + b, k) == flat(a, k),
    decreases k,
{
    if k > 0 {
        flat_of_start(a, b, k - 1);
        assert((a + b)[k - 1] == a[k - 1]);
    }
}

/// The words of the conditions and blocks of `elseif`s, each by itself.
spec fn arm_parts(s: Seq<(LuaExpr, LuaBlock)>, k: int) -> Seq<Seq<Seq<char>>>
    decreases k,
{
    if 0 < k <= s.len() {
        arm_parts(s, k - 1) + seq![expr_words(s[k - 1].0), block_words(s[k - 1].1)]
    } else {
        Seq::empty()
    }
}

proof fn arms_kept(s: Seq<(LuaExpr, LuaBlock)>, k: int)
    requires
        0 <= k <= s.len(),
    ensures
        arm_parts(s, k).len() == arm_texts(s, k).len(),
        forall|i: int|
            0 <= i < arm_parts(s, k).len() ==> in_order(
                #[trigger] arm_parts(s, k)[i],
                arm_texts(s, k)[i],
            ),
        flat(arm_parts(s, k), arm_parts(s, k).len() as int) == arms_words(s, k),
        k > 0 ==> arm_parts(s, k).len() > 0,
    decreases s, k,
{
    if k > 0 {
        arms_kept(s, k - 1);
        expr_kept(s[k - 1].0);
        block_kept(s[k - 1].1);
        let a = arm_parts(s, k - 1);
        let b = seq![expr_words(s[k - 1].0), block_words(s[k - 1].1)];
        flat_of_both(a, b, 2);
        two_parts(b);
        assert(arm_parts(s, k) == a + b);
        assert forall|i: int| 0 <= i < (a + b).len() implies in_order(
            #[trigger] (a + b)[i],
            arm_texts(s, k)[i],
        ) by {
            if i < a.len() {
                assert((a + b)[i] == a[i]);
                assert(in_order(a[i], arm_texts(s, k - 1)[i]));
            } else if i == a.len() {
                assert((a + b)[i] == b[0]);
            } else {
                assert((a + b)[i] == b[1]);
            }
        }
        assert(arms_words(s, k - 1) + (b[0] + b[1]) =~= arms_words(s, k));
    }
}

proof fn two_parts(b: Seq<Seq<Seq<char>>>)
    requires
        b.len() == 2,
    ensures
        flat(b, 2) == b[0] + b[1],
{
    reveal_with_fuel(flat, 3);
    assert(Seq::<Seq<char>>::empty() + b[0] =~= b[0]);
}

proof fn if_kept(
    cond: LuaExpr,
    block: LuaBlock,
    more: Seq<(LuaExpr, LuaBlock)>,
    ts: Seq<Seq<char>>,
)
    requires
        ts == seq![expr_text(cond), inline_text(block)] + arm_texts(more, more.len() as int),
        in_order(expr_words(cond), expr_text(cond)),
        in_order(block_words(block), inline_text(block)),
    ensures
        ({
            let a = seq![expr_words(cond), block_words(block)];
            let ws = a + arm_parts(more, more.len() as int);
            &&& ws.len() == ts.len()
            &&& forall|i: int| 0 <= i < ts.len() ==> in_order(#[trigger] ws[i], ts[i])
            &&& flat(ws, ws.len() as int) == expr_words(cond) + block_words(block) + arms_words(
                more,
                more.len() as int,
            )
        }),
    decreases more, more.len() + 1,
{
    let n = more.len() as int;
    arms_kept(more, n);
    let a = seq![expr_words(cond), block_words(block)];
    let b = arm_parts(more, n);
    let ws = a + b;
    flat_of_both(a, b, b.len() as int);
    two_parts(a);
    assert forall|i: int| 0 <= i < ts.len() implies in_order(#[trigger] ws[i], ts[i]) by {
        if i >= 2 {
            assert(ws[i] == b[i - 2]);
            assert(in_order(b[i - 2], arm_texts(more, n)[i - 2]));
        }
    }
}

proof fn local_stmt_kept(s: LuaStmt)
    requires
        s is LocalAssignment,
    ensures
        stmt_text(s) is Some,
        in_order(stmt_words(s), stmt_text(s)->0),
    decreases s, 1int,
{
    if let LuaStmt::LocalAssignment(names, exprs) = s {
        let ws = tokens_words(names@);
        let ts = token_texts(names@);
        assert forall|i: int| 0 <= i < ts.len() implies in_order(#[trigger] ws[i], ts[i]) by {
            token_kept(names@[i]);
        }
        pattern_kept(ws, ts);
        values_kept(exprs@);
        let v = multi_text(expr_texts(exprs@));
        let n = flat(ws, ws.len() as int);
        one_behind_other(n, pattern_text(ts), " "@, values_words(exprs@), v);
        reveal_strlit("(local ");
        reveal_strlit("local");
        assert("(local "@.subrange(1, 6) =~= "local"@);
        headed(
            "(local "@,
            "local"@,
            n + values_words(exprs@),
            pattern_text(ts) + " "@ + v,
        );
        assert(seq!["local"@] + (n + values_words(exprs@)) =~= stmt_words(s));
        assert("(local "@ + (pattern_text(ts) + " "@ + v) + ")"@ =~= stmt_text(s)->0);
    }
}

proof fn local_function_stmt_kept(s: LuaStmt)
    requires
        s is LocalFunction,
    ensures
        stmt_text(s) is Some,
        in_order(stmt_words(s), stmt_text(s)->0),
    decreases s, 1int,
{
    if let LuaStmt::LocalFunction(name, f) = s {
        token_kept(name);
        function_kept(f);
        let inner = spaced(param_texts(f.params@)) + "] "@ + inline_text(f.body);
        one_behind_other(
            token_words(name),
            token_text(name),
            " ["@,
            function_words(f),
            inner,
        );
        fn_head();
        headed(
            "(fn "@,
            "fn"@,
            token_words(name) + function_words(f),
            token_text(name) + " ["@ + inner,
        );
        assert(seq!["fn"@] + (token_words(name) + function_words(f)) =~= stmt_words(s));
        assert("(fn "@ + (token_text(name) + " ["@ + inner) + ")"@ =~= stmt_text(s)->0);
    }
}

proof fn declaration_stmt_kept(s: LuaStmt)
    requires
        s is FunctionDeclaration,
    ensures
        stmt_text(s) is Some,
        in_order(stmt_words(s), stmt_text(s)->0),
    decreases s, 1int,
{
    if let LuaStmt::FunctionDeclaration(names, method, f) = s {
        declared_name_kept(names@, method);
        function_kept(f);
        let inner = spaced(param_texts(f.params@)) + "] "@ + inline_text(f.body);
        let n = flat(tokens_words(names@), names@.len() as int) + method_words(method);
        let name = function_name(names@, method);
        one_behind_other(n, name, " ["@, function_words(f), inner);
        fn_head();
        headed("(fn "@, "fn"@, n + function_words(f), name + " ["@ + inner);
        assert(seq!["fn"@] + (n + function_words(f)) =~= stmt_words(s));
        assert("(fn "@ + (name + " ["@ + inner) + ")"@ =~= stmt_text(s)->0);
    }
}

proof fn assignment_stmt_kept(s: LuaStmt)
    requires
        s is Assignment,
    ensures
        stmt_text(s) is Some,
        in_order(stmt_words(s), stmt_text(s)->0),
    decreases s, 1int,
{
    if let LuaStmt::Assignment(vars, exprs) = s {
        let ws = vars_words(vars@);
        let ts = var_texts(vars@);
        assert forall|i: int| 0 <= i < ts.len() implies in_order(#[trigger] ws[i], ts[i]) by {
            var_kept(vars@[i]);
        }
        pattern_kept(ws, ts);
        values_kept(exprs@);
        let v = multi_text(expr_texts(exprs@));
        let n = flat(ws, ws.len() as int);
        one_behind_other(n, pattern_text(ts), " "@, values_words(exprs@), v);
        reveal_strlit("(set ");
        reveal_strlit("set");
        assert("(set "@.subrange(1, 4) =~= "set"@);
        headed("(set "@, "set"@, n + values_words(exprs@), pattern_text(ts) + " "@ + v);
        assert(seq!["set"@] + (n + values_words(exprs@)) =~= stmt_words(s));
        assert("(set "@ + (pattern_text(ts) + " "@ + v) + ")"@ =~= stmt_text(s)->0);
    }
}

proof fn do_block_stmt_kept(s: LuaStmt)
    requires
        s is Do,
    ensures
        stmt_text(s) is Some,
        in_order(stmt_words(s), stmt_text(s)->0),
    decreases s, 1int,
{
    if let LuaStmt::Do(block) = s {
        block_kept(block);
        reveal_strlit("(do ");
        reveal_strlit("do");
        assert("(do "@.subrange(1, 3) =~= "do"@);
        headed("(do "@, "do"@, block_words(block), inline_text(block));
    }
}

proof fn choice_stmt_kept(s: LuaStmt)
    requires
        s is If,
    ensures
        stmt_text(s) is Some,
        in_order(stmt_words(s), stmt_text(s)->0),
    decreases s, 1int,
{
    if let LuaStmt::If(cond, block, more, other) = s {
        expr_kept(cond);
        block_kept(block);
        let ts = seq![expr_text(cond), inline_text(block)] + arm_texts(
            more@,
            more@.len() as int,
        );
        if_kept(cond, block, more@, ts);
        arms_kept(more@, more@.len() as int);
        let ws = seq![expr_words(cond), block_words(block)] + arm_parts(
            more@,
            more@.len() as int,
        );
        let first = expr_words(cond) + block_words(block) + arms_words(
            more@,
            more@.len() as int,
        );
        reveal_strlit("(if ");
        reveal_strlit("if");
        reveal_strlit("(when ");
        reveal_strlit("when");
        assert("(if "@.subrange(1, 3) =~= "if"@);
        assert("(when "@.subrange(1, 5) =~= "when"@);
        match other {
            Some(b) => {
                block_kept(b);
                let all = ws.push(block_words(b));
                let texts = ts.push(inline_text(b));
                assert forall|i: int| 0 <= i < texts.len() implies in_order(
                    #[trigger] all[i],
                    texts[i],
                ) by {
                    if i < ts.len() {
                        assert(in_order(ws[i], ts[i]));
                    }
                }
                joined_kept(all, texts, " "@, texts.len() as int);
                assert(all =~= ws + seq![block_words(b)]);
                flat_of_start(ws, seq![block_words(b)], ws.len() as int);
                assert(flat(all, all.len() as int) == first + block_words(b));
                headed("(if "@, "if"@, first + block_words(b), spaced(texts));
                assert(seq!["if"@] + (first + block_words(b)) =~= stmt_words(s));
            },
            None => {
                joined_kept(ws, ts, " "@, ts.len() as int);
                headed("(if "@, "if"@, first, spaced(ts));
                headed("(when "@, "when"@, first, spaced(ts));
                assert(stmt_words(s) =~= (if more@.len() == 0 {
                    seq!["when"@] + first
                } else {
                    seq!["if"@] + first
                }));
            },
        }
    }
}

proof fn while_loop_stmt_kept(s: LuaStmt)
    requires
        s is While,
    ensures
        stmt_text(s) is Some,
        in_order(stmt_words(s), stmt_text(s)->0),
    decreases s, 1int,
{
    if let LuaStmt::While(cond, block) = s {
        expr_kept(cond);
        block_kept(block);
        let inner = expr_text(cond) + " "@ + inline_text(block);
        one_behind_other(
            expr_words(cond),
            expr_text(cond),
            " "@,
            block_words(block),
            inline_text(block),
        );
        reveal_strlit("(while ");
        reveal_strlit("while");
        assert("(while "@.subrange(1, 6) =~= "while"@);
        headed("(while "@, "while"@, expr_words(cond) + block_words(block), inner);
        assert(seq!["while"@] + (expr_words(cond) + block_words(block)) =~= stmt_words(s));
        assert("(while "@ + inner + ")"@ =~= stmt_text(s)->0);
    }
}

/// The variable of a numeric `for` and its bounds.
proof fn range_kept(
    name: (Seq<Seq<char>>, Seq<char>),
    start: (Seq<Seq<char>>, Seq<char>),
    end: (Seq<Seq<char>>, Seq<char>),
    step: (Seq<Seq<char>>, Seq<char>),
)
    requires
        in_order(name.0, name.1),
        in_order(start.0, start.1),
        in_order(end.0, end.1),
        in_order(step.0, step.1),
    ensures
        in_order(
            name.0 + start.0 + end.0 + step.0,
            name.1 + " "@ + start.1 + " "@ + end.1 + step.1,
        ),
{
    one_behind_other(name.0, name.1, " "@, start.0, start.1);
    let a = name.1 + " "@ + start.1;
    one_behind_other(name.0 + start.0, a, " "@, end.0, end.1);
    let b = a + " "@ + end.1;
    one_behind_other(name.0 + start.0 + end.0, b, Seq::empty(), step.0, step.1);
    assert(b + Seq::<char>::empty() + step.1 =~= b + step.1);
}

proof fn numeric_for_stmt_kept(s: LuaStmt)
    requires
        s is NumericFor,
    ensures
        stmt_text(s) is Some,
        in_order(stmt_words(s), stmt_text(s)->0),
    decreases s, 1int,
{
    if let LuaStmt::NumericFor(var, start, end, step, block) = s {
        token_kept(var);
        expr_kept(start);
        expr_kept(end);
        block_kept(block);
        let (byw, by) = match step {
            Some(e) => {
                expr_kept(e);
                more_and(" "@, expr_words(e), expr_text(e));
                (expr_words(e), " "@ + expr_text(e))
            },
            None => (Seq::empty(), Seq::empty()),
        };
        range_kept(
            (token_words(var), token_text(var)),
            (expr_words(start), expr_text(start)),
            (expr_words(end), expr_text(end)),
            (byw, by),
        );
        let w = token_words(var) + expr_words(start) + expr_words(end) + byw;
        let c = token_text(var) + " "@ + expr_text(start) + " "@ + expr_text(end) + by;
        one_behind_other(w, c, "] "@, block_words(block), inline_text(block));
        let inner = c + "] "@ + inline_text(block);
        for_head();
        headed("(for ["@, "for"@, w + block_words(block), inner);
        in_front_of_five(
            seq!["for"@],
            token_words(var),
            expr_words(start),
            expr_words(end),
            byw,
            block_words(block),
        );
        let blank = " "@;
        let v = token_text(var) + blank;
        in_front_of_five("(for ["@, v, expr_text(start), blank, expr_text(end), by + "] "@);
        grouped("(for ["@, token_text(var), blank);
        let d = v + expr_text(start) + blank + expr_text(end);
        grouped(d, by, "] "@);
        grouped("(for ["@ + d, by, "] "@);
        grouped("(for ["@, c + "] "@, inline_text(block));
    }
}

proof fn grouped<A>(a: Seq<A>, b: Seq<A>, c: Seq<A>)
    ensures
        a + (b + c) == a + b + c,
{
    assert(a + (b + c) =~= a + b + c);
}

proof fn in_front_of_five<A>(a: Seq<A>, b: Seq<A>, c: Seq<A>, d: Seq<A>, e: Seq<A>, f: Seq<A>)
    ensures
        a + (b + c + d + e) == a + b + c + d + e,
        a + (b + c + d + e + f) == a + b + c + d + e + f,
{
    grouped(a, b, c);
    grouped(a, b + c, d);
    grouped(a, b + c + d, e);
    grouped(a, b + c + d + e, f);
}

proof fn for_head()
    ensures
        stands_at("for"@, "(for ["@, 1),
{
    reveal_strlit("(for [");
    reveal_strlit("for");
    assert("(for ["@.subrange(1, 4) =~= "for"@);
}

proof fn generic_for_stmt_kept(s: LuaStmt)
    requires
        s is GenericFor,
    ensures
        stmt_text(s) is Some,
        in_order(stmt_words(s), stmt_text(s)->0),
    decreases s, 1int,
{
    if let LuaStmt::GenericFor(names, exprs, block) = s {
        tokens_kept(names@, " "@);
        values_kept(exprs@);
        block_kept(block);
        let n = flat(tokens_words(names@), names@.len() as int);
        let v = multi_text(expr_texts(exprs@));
        let vars = spaced(token_texts(names@));
        one_behind_other(n, vars, " "@, values_words(exprs@), v);
        let a = vars + " "@ + v;
        let aw = n + values_words(exprs@);
        one_behind_other(aw, a, "] "@, block_words(block), inline_text(block));
        let inner = a + "] "@ + inline_text(block);
        reveal_strlit("(each [");
        reveal_strlit("each");
        assert("(each ["@.subrange(1, 5) =~= "each"@);
        headed("(each ["@, "each"@, aw + block_words(block), inner);
        assert(seq!["each"@] + (aw + block_words(block)) =~= stmt_words(s));
        assert("(each ["@ + inner + ")"@ =~= stmt_text(s)->0);
    }
}

proof fn repeat_stmt_kept(s: LuaStmt)
    requires
        s is Repeat,
    ensures
        stmt_text(s) is Some,
        in_order(stmt_words(s), stmt_text(s)->0),
    decreases s, 1int,
{
    if let LuaStmt::Repeat(block, until) = s {
        block_kept(block);
        expr_kept(until);
        let a = inline_text(block);
        one_behind_other(block_words(block), a, " (when "@, expr_words(until), expr_text(until));
        let b = a + " (when "@ + expr_text(until);
        let bw = block_words(block) + expr_words(until);
        reveal_strlit(" (lua \"break\")))");
        reveal_strlit(" (lua \"break\"))");
        reveal_strlit("break");
        reveal_strlit(")");
        let e = " (lua \"break\"))"@;
        assert(e.subrange(7, 12) =~= "break"@);
        one_word("break"@, e, 7);
        one_behind_other(bw, b, Seq::empty(), seq!["break"@], e);
        let inner = b + Seq::empty() + e;
        reveal_strlit("(while true ");
        reveal_strlit("while");
        assert("(while true "@.subrange(1, 6) =~= "while"@);
        headed("(while true "@, "while"@, bw + seq!["break"@], inner);
        assert(seq!["while"@] + (bw + seq!["break"@]) =~= stmt_words(s));
        assert(e + ")"@ =~= " (lua \"break\")))"@);
        assert("(while true "@ + inner + ")"@ =~= stmt_text(s)->0);
    }
}

proof fn stmt_kept(s: LuaStmt)
    ensures
        match stmt_text(s) {
            Some(t) => in_order(stmt_words(s), t),
            None => stmt_words(s).len() == 0,
        },
    decreases s, 2int,
{
    match s {
        LuaStmt::LocalAssignment(_, _) => local_stmt_kept(s),
        LuaStmt::LocalFunction(_, _) => local_function_stmt_kept(s),
        LuaStmt::FunctionDeclaration(_, _, _) => declaration_stmt_kept(s),
        LuaStmt::Assignment(_, _) => assignment_stmt_kept(s),
        LuaStmt::Do(_) => do_block_stmt_kept(s),
        LuaStmt::If(_, _, _, _) => choice_stmt_kept(s),
        LuaStmt::While(_, _) => while_loop_stmt_kept(s),
        LuaStmt::NumericFor(_, _, _, _, _) => numeric_for_stmt_kept(s),
        LuaStmt::GenericFor(_, _, _) => generic_for_stmt_kept(s),
        LuaStmt::Repeat(_, _) => repeat_stmt_kept(s),
        LuaStmt::FunctionCall(c) => chain_kept(c),
        LuaStmt::Other => {},
    }
}

proof fn fn_head()
    ensures
        stands_at("fn"@, "(fn "@, 1),
{
    reveal_strlit("(fn ");
    reveal_strlit("fn");
    assert("(fn "@.subrange(1, 3) =~= "fn"@);
}

proof fn declared_name_kept(names: Seq<LuaToken>, method: Option<LuaToken>)
    ensures
        in_order(
            flat(tokens_words(names), names.len() as int) + method_words(method),
            function_name(names, method),
        ),
{
    tokens_kept(names, "."@);
    let n = flat(tokens_words(names), names.len() as int);
    let dotted = joined(token_texts(names), "."@, names.len() as int);
    match method {
        Some(t) => {
            token_kept(t);
            one_behind_other(n, dotted, ":"@, token_words(t), token_text(t));
        },
        None => {
            assert(n + method_words(method) =~= n);
        },
    }
}

proof fn last_kept(s: LuaLast)
    ensures
        match last_text(s) {
            Some(t) => in_order(last_words(s), t),
            None => last_words(s).len() == 0,
        },
    decreases s, 1int,
{
    match s {
        LuaLast::Return(exprs) => values_kept(exprs@),
        LuaLast::Break => {
            reveal_strlit("(lua \"break\")");
            reveal_strlit("break");
            assert("(lua \"break\")"@.subrange(6, 11) =~= "break"@);
            one_word("break"@, "(lua \"break\")"@, 6);
        },
        LuaLast::Other => {},
    }
}

proof fn spaced_one_more(parts: Seq<Seq<char>>, t: Seq<char>)
    ensures
        spaced(parts.push(t)) == (if parts.len() == 0 {
            t
        } else {
            spaced(parts) + " "@ + t
        }),
{
    let n = parts.len() as int;
    joined_of_start(parts, t, n);
}

proof fn joined_of_start(parts: Seq<Seq<char>>, t: Seq<char>, k: int)
    requires
        0 <= k <= parts.len(),
    ensures
        joined(parts.push(t), " "@, k) == joined(parts, " "@, k),
    decreases k,
{
    if k > 0 {
        joined_of_start(parts, t, k - 1);
    }
}

proof fn one_more_kept(u: Seq<Seq<char>>, parts: Seq<Seq<char>>, v: Seq<Seq<char>>, t: Seq<char>)
    requires
        in_order(u, spaced(parts)),
        in_order(v, t),
    ensures
        in_order(u + v, spaced(parts.push(t))),
{
    spaced_one_more(parts, t);
    if parts.len() == 0 {
        one_behind_other(u, spaced(parts), Seq::empty(), v, t);
        assert(spaced(parts) + Seq::<char>::empty() + t =~= t);
    } else {
        one_behind_other(u, spaced(parts), " "@, v, t);
    }
}

proof fn stmts_kept(s: Seq<(Option<usize>, LuaStmt)>, k: int)
    requires
        0 <= k <= s.len(),
    ensures
        in_order(stmts_words(s, k), spaced(stmt_texts(s, k))),
    decreases s, k,
{
    if k > 0 {
        stmts_kept(s, k - 1);
        stmt_kept(s[k - 1].1);
        let u = stmts_words(s, k - 1);
        match stmt_text(s[k - 1].1) {
            Some(t) => one_more_kept(u, stmt_texts(s, k - 1), stmt_words(s[k - 1].1), t),
            None => {
                assert(u + stmt_words(s[k - 1].1) =~= u);
            },
        }
    }
}

/// No statement of a block is lost: the text of a block holds the words of all its
/// statements, and then those of its last one.
pub proof fn block_kept(b: LuaBlock)
    ensures
        in_order(block_words(b), inline_text(b)),
    decreases b, 1int,
{
    let n = b.stmts@.len() as int;
    stmts_kept(b.stmts@, n);
    let u = stmts_words(b.stmts@, n);
    match b.last {
        Some((_, s)) => {
            last_kept(s);
            match last_text(s) {
                Some(t) => one_more_kept(u, stmt_texts(b.stmts@, n), last_words(s), t),
                None => {
                    assert(u + last_words(s) =~= u);
                },
            }
        },
        None => {
            assert(block_words(b) =~= u);
        },
    }
}

// ── Whole files ─────────────────────────────────────────────────────────────

proof fn lines_of_start(s: Seq<(Option<usize>, LuaStmt)>, k: int)
    requires
        0 <= k <= s.len(),
    ensures
        in_order(stmts_words(s, k), lines_text(forms_of(s, k))),
    decreases k,
{
    if k > 0 {
        lines_of_start(s, k - 1);
        stmt_kept(s[k - 1].1);
        let u = stmts_words(s, k - 1);
        match stmt_text(s[k - 1].1) {
            Some(t) => {
                one_more_line(u, forms_of(s, k - 1), stmt_words(s[k - 1].1), t, line_number(s[k - 1].0));
            },
            None => {
                assert(u + stmt_words(s[k - 1].1) =~= u);
            },
        }
    }
}

proof fn one_more_line(
    u: Seq<Seq<char>>,
    forms: Seq<(Seq<char>, u32)>,
    v: Seq<Seq<char>>,
    t: Seq<char>,
    line: u32,
)
    requires
        in_order(u, lines_text(forms)),
        in_order(v, t),
    ensures
        in_order(u + v, lines_text(forms.push((t, line)))),
{
    let all = forms.push((t, line));
    assert(all.drop_last() =~= forms);
    one_behind_other(u, lines_text(forms), Seq::empty(), v, t);
    and_more(u + v, lines_text(forms) + Seq::empty() + t, "\n"@);
    assert(lines_text(forms) + Seq::<char>::empty() + t =~= lines_text(forms) + t);
}

/// Nothing of a Lua file is lost: its names, numbers, strings and operators stand in
/// the Fennel text one behind the other, in the order of the file (an operator before
/// its operands), and so do the heads of the forms that its statements become.
pub proof fn words_of_file_are_kept(b: LuaBlock)
    ensures
        in_order(block_words(b), lines_text(file_forms(b))),
{
    let n = b.stmts@.len() as int;
    lines_of_start(b.stmts@, n);
    let u = stmts_words(b.stmts@, n);
    match b.last {
        Some((line, s)) => {
            last_kept(s);
            match last_text(s) {
                Some(t) => one_more_line(
                    u,
                    forms_of(b.stmts@, n),
                    last_words(s),
                    t,
                    line_number(line),
                ),
                None => {
                    assert(u + last_words(s) =~= u);
                },
            }
        },
        None => {
            assert(block_words(b) =~= u);
        },
    }
}

/// How many of the first `k` statements are known.
pub open spec fn known_before(s: Seq<(Option<usize>, LuaStmt)>, k: int) -> nat
    decreases k,
{
    if 0 < k <= s.len() {
        known_before(s, k - 1) + (if s[k - 1].1 is Other {
            0nat
        } else {
            1nat
        })
    } else {
        0
    }
}

proof fn forms_are_placed(s: Seq<(Option<usize>, LuaStmt)>, k: int)
    requires
        0 <= k <= s.len(),
    ensures
        forms_of(s, k).len() == known_before(s, k),
        forall|i: int|
            0 <= i < k && !((#[trigger] s[i]).1 is Other) ==> {
                &&& known_before(s, i) < forms_of(s, k).len()
                &&& forms_of(s, k)[known_before(s, i) as int].1 == line_number(s[i].0)
                &&& in_order(stmt_words(s[i].1), forms_of(s, k)[known_before(s, i) as int].0)
            },
    decreases k,
{
    if k > 0 {
        forms_are_placed(s, k - 1);
        stmt_kept(s[k - 1].1);
    }
}

/// Every statement of a Lua file that is known becomes a form of its own, which holds
/// its words and is mapped to its line; the forms come in the order of the statements.
pub proof fn every_statement_has_its_form(b: LuaBlock)
    ensures
        forall|i: int|
            0 <= i < b.stmts@.len() && !((#[trigger] b.stmts@[i]).1 is Other) ==> {
                let k = known_before(b.stmts@, i) as int;
                &&& k < file_forms(b).len()
                &&& file_forms(b)[k].1 == line_number(b.stmts@[i].0)
                &&& in_order(stmt_words(b.stmts@[i].1), file_forms(b)[k].0)
            },
        b.last matches Some((line, s)) ==> (!(s is Other) ==> {
            let k = known_before(b.stmts@, b.stmts@.len() as int) as int;
            &&& file_forms(b).len() == k + 1
            &&& file_forms(b)[k].1 == line_number(line)
            &&& in_order(last_words(s), file_forms(b)[k].0)
        }),
{
    forms_are_placed(b.stmts@, b.stmts@.len() as int);
    if let Some((line, s)) = b.last {
        last_kept(s);
    }
}

proof fn texts_of_forms(s: Seq<(Option<usize>, LuaStmt)>, k: int)
    requires
        0 <= k <= s.len(),
    ensures
        stmt_texts(s, k) == forms_of(s, k).map_values(|f: (Seq<char>, u32)| f.0),
    decreases k,
{
    if k > 0 {
        texts_of_forms(s, k - 1);
    }
    assert(stmt_texts(s, k) =~= forms_of(s, k).map_values(|f: (Seq<char>, u32)| f.0));
}

/// A block inside a form reads as the same block would as a file, with a blank where
/// the file has a line break.
pub proof fn a_block_reads_as_a_file(b: LuaBlock)
    ensures
        inline_text(b) == spaced(file_forms(b).map_values(|f: (Seq<char>, u32)| f.0)),
{
    let n = b.stmts@.len() as int;
    texts_of_forms(b.stmts@, n);
    let parts = file_forms(b).map_values(|f: (Seq<char>, u32)| f.0);
    match b.last {
        Some((_, s)) => match last_text(s) {
            Some(t) => {
                assert(parts =~= stmt_texts(b.stmts@, n).push(t));
            },
            None => {},
        },
        None => {},
    }
}

} // verus!
