//! Walks over the AST: the nodes that a rule reaches, depth-first, a node
//! before what is inside it.
use vstd::prelude::*;

use crate::lexer::Span;
use crate::parser::{refs_are, AstNode, Form};

verus! {

/// Which nodes a walk visits, and where it goes on inside them.
#[derive(Debug, Clone, Copy)]
pub enum Rule {
    /// All nodes.
    All,
    /// Nodes whose span holds the byte; nothing inside other nodes.
    Covering(u32),
    /// Nodes whose span touches the given one; nothing inside other nodes.
    Touching(Span),
}

/// A span holds the byte, both ends counted.
pub open spec fn spans_byte(span: Span, byte: u32) -> bool {
    span.start <= byte <= span.end
}

pub open spec fn visits(rule: Rule, span: Span) -> bool {
    match rule {
        Rule::All => true,
        Rule::Covering(byte) => spans_byte(span, byte),
        Rule::Touching(other) => span.start <= other.end && other.start <= span.end,
    }
}

/// A node and what is inside it, as far as the rule reaches.
pub open spec fn visited(rule: Rule, n: AstNode) -> Seq<AstNode>
    decreases n, 1int,
{
    if visits(rule, n.span) {
        seq![n] + inside(rule, n)
    } else {
        Seq::empty()
    }
}

/// What is inside a node, as far as the rule reaches.
pub open spec fn inside(rule: Rule, n: AstNode) -> Seq<AstNode>
    decreases n, 0int,
{
    match n.node {
        Form::List(v) => visited_all(rule, v@, v@.len() as int),
        Form::Table(v) => visited_all(rule, v@, v@.len() as int),
        Form::Sequence(v) => visited_all(rule, v@, v@.len() as int),
        Form::Quote(i) => visited(rule, *i),
        Form::Quasiquote(i) => visited(rule, *i),
        Form::Unquote(i) => visited(rule, *i),
        Form::UnquoteSplice(i) => visited(rule, *i),
        Form::HashFn(i) => visited(rule, *i),
        _ => Seq::empty(),
    }
}

/// The first `k` nodes of a run, and what is inside them.
pub open spec fn visited_all(rule: Rule, s: Seq<AstNode>, k: int) -> Seq<AstNode>
    decreases s, k,
{
    if k <= 0 || k > s.len() {
        Seq::empty()
    } else {
        visited_all(rule, s, k - 1) + visited(rule, s[k - 1])
    }
}

/// All that a walk over some nodes visits.
pub open spec fn reached(rule: Rule, s: Seq<AstNode>) -> Seq<AstNode> {
    visited_all(rule, s, s.len() as int)
}

/// The nodes that a walk visits, in its order.
pub fn reach<'a>(rule: Rule, nodes: &'a [AstNode]) -> (r: Vec<&'a AstNode>)
    ensures
        refs_are(r@, reached(rule, nodes@)),
{
    let mut out: Vec<&'a AstNode> = Vec::new();
    let ghost none = Seq::<AstNode>::empty();
    assert(refs_are(out@, none));
    reach_nodes(rule, nodes, &mut out);
    assert(refs_are(out@, none + reached(rule, nodes@)));
    assert(none + reached(rule, nodes@) =~= reached(rule, nodes@));
    out
}

/// The node itself and what a walk visits inside it.
pub fn reach_node<'a>(rule: Rule, node: &'a AstNode) -> (r: Vec<&'a AstNode>)
    ensures
        refs_are(r@, visited(rule, *node)),
{
    let mut out: Vec<&'a AstNode> = Vec::new();
    let ghost none = Seq::<AstNode>::empty();
    assert(refs_are(out@, none));
    visit(rule, node, &mut out);
    assert(refs_are(out@, none + visited(rule, *node)));
    assert(none + visited(rule, *node) =~= visited(rule, *node));
    out
}

fn is_visited(rule: Rule, span: &Span) -> (r: bool)
    ensures
        r == visits(rule, *span),
{
    match rule {
        Rule::All => true,
        Rule::Covering(byte) => span.start <= byte && byte <= span.end,
        Rule::Touching(other) => span.start <= other.end && other.start <= span.end,
    }
}

fn reach_nodes<'a>(rule: Rule, nodes: &'a [AstNode], out: &mut Vec<&'a AstNode>)
    ensures
        forall|pre: Seq<AstNode>|
            refs_are(old(out)@, pre) ==> #[trigger] refs_are(
                final(out)@,
                pre + visited_all(rule, nodes@, nodes@.len() as int),
            ),
    decreases nodes@, 1int,
{
    let mut i: usize = 0;
    assert forall|pre: Seq<AstNode>| refs_are(out@, pre) implies #[trigger] refs_are(
        out@,
        pre + visited_all(rule, nodes@, 0),
    ) by {
        assert(pre + visited_all(rule, nodes@, 0) =~= pre);
    }
    while i < nodes.len()
        invariant
            i <= nodes.len(),
            forall|pre: Seq<AstNode>|
                refs_are(old(out)@, pre) ==> #[trigger] refs_are(
                    out@,
                    pre + visited_all(rule, nodes@, i as int),
                ),
        decreases nodes.len() - i,
    {
        let ghost o1 = out@;
        visit(rule, &nodes[i], out);
        assert forall|pre: Seq<AstNode>| refs_are(old(out)@, pre) implies #[trigger] refs_are(
            out@,
            pre + visited_all(rule, nodes@, i + 1),
        ) by {
            let mid = pre + visited_all(rule, nodes@, i as int);
            assert(refs_are(o1, mid));
            assert(refs_are(out@, mid + visited(rule, nodes@[i as int])));
            assert(mid + visited(rule, nodes@[i as int]) =~= pre + visited_all(
                rule,
                nodes@,
                i + 1,
            ));
        }
        i = i + 1;
    }
}

fn visit<'a>(rule: Rule, node: &'a AstNode, out: &mut Vec<&'a AstNode>)
    ensures
        forall|pre: Seq<AstNode>|
            refs_are(old(out)@, pre) ==> #[trigger] refs_are(
                final(out)@,
                pre + visited(rule, *node),
            ),
    decreases node, 0int,
{
    let ghost o0 = out@;
    if !is_visited(rule, &node.span) {
        assert forall|pre: Seq<AstNode>| refs_are(o0, pre) implies #[trigger] refs_are(
            out@,
            pre + visited(rule, *node),
        ) by {
            assert(pre + visited(rule, *node) =~= pre);
        }
        return ;
    }
    out.push(node);
    let ghost o1 = out@;
    assert forall|pre: Seq<AstNode>| refs_are(o0, pre) implies #[trigger] refs_are(
        o1,
        pre.push(*node),
    ) by {}
    let ghost tail = inside(rule, *node);
    match &node.node {
        Form::List(v) => reach_nodes(rule, v, out),
        Form::Table(v) => reach_nodes(rule, v, out),
        Form::Sequence(v) => reach_nodes(rule, v, out),
        Form::Quote(i) => visit(rule, i, out),
        Form::Quasiquote(i) => visit(rule, i, out),
        Form::Unquote(i) => visit(rule, i, out),
        Form::UnquoteSplice(i) => visit(rule, i, out),
        Form::HashFn(i) => visit(rule, i, out),
        _ => {},
    }
    assert forall|pre: Seq<AstNode>| refs_are(o0, pre) implies #[trigger] refs_are(
        out@,
        pre + visited(rule, *node),
    ) by {
        let p1 = pre.push(*node);
        assert(refs_are(o1, p1));
        assert(p1 + tail =~= pre + visited(rule, *node));
        if tail.len() == 0 {
            assert(p1 + tail =~= p1);
        }
        match &node.node {
            Form::List(v) => {
                assert(refs_are(out@, p1 + visited_all(rule, v@, v@.len() as int)));
            },
            Form::Table(v) => {
                assert(refs_are(out@, p1 + visited_all(rule, v@, v@.len() as int)));
            },
            Form::Sequence(v) => {
                assert(refs_are(out@, p1 + visited_all(rule, v@, v@.len() as int)));
            },
            Form::Quote(i) => {
                assert(refs_are(out@, p1 + visited(rule, **i)));
            },
            Form::Quasiquote(i) => {
                assert(refs_are(out@, p1 + visited(rule, **i)));
            },
            Form::Unquote(i) => {
                assert(refs_are(out@, p1 + visited(rule, **i)));
            },
            Form::UnquoteSplice(i) => {
                assert(refs_are(out@, p1 + visited(rule, **i)));
            },
            Form::HashFn(i) => {
                assert(refs_are(out@, p1 + visited(rule, **i)));
            },
            _ => {},
        }
    }
}

} // verus!
