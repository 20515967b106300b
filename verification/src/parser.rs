//! Fennel parser: converts a token stream into an AST.
//!
//! Parsing never fails: what does not fit is reported in a list of errors, and
//! the parser goes on with the next form.
use vstd::prelude::*;
use vstd::string::*;
use vstd::utf8::*;

use crate::lexer::{
    lex, lex_is_comment_free, lex_with_comments, merged, span_on_text, spans_in_order, token_views,
    tokens_in_order, tokens_on_boundaries, without_comments, without_comments_keeps, Lexer, Span,
    SpannedToken, SpannedTokenView, Token, TokenView,
};
use crate::number::{Number, NumberView};

verus! {

/// A node in the Fennel AST, paired with its source span.
#[derive(Debug, Clone)]
pub struct Spanned<T> {
    pub node: T,
    pub span: Span,
}

/// Fennel AST node types.
#[derive(Debug)]
pub enum Form {
    // Atoms
    Symbol(String),
    Keyword(String),
    Str(String),
    Number(Number),
    Bool(bool),
    Nil,
    Varargs,
    // Compound
    List(Vec<Spanned<Form>>),
    Table(Vec<Spanned<Form>>),
    Sequence(Vec<Spanned<Form>>),
    // Reader macros
    Quote(Box<Spanned<Form>>),
    Quasiquote(Box<Spanned<Form>>),
    Unquote(Box<Spanned<Form>>),
    UnquoteSplice(Box<Spanned<Form>>),
    HashFn(Box<Spanned<Form>>),
}

pub type AstNode = Spanned<Form>;

/// AST node types that keep the comments of the source where they stand.
#[derive(Debug)]
pub enum RichForm {
    Comment(String),
    // Atoms
    Symbol(String),
    Keyword(String),
    Str(String),
    Number(Number),
    Bool(bool),
    Nil,
    Varargs,
    // Compound
    List(Vec<Spanned<RichForm>>),
    Table(Vec<Spanned<RichForm>>),
    Sequence(Vec<Spanned<RichForm>>),
    // Reader macros
    Quote(Box<Spanned<RichForm>>),
    Quasiquote(Box<Spanned<RichForm>>),
    Unquote(Box<Spanned<RichForm>>),
    UnquoteSplice(Box<Spanned<RichForm>>),
    HashFn(Box<Spanned<RichForm>>),
}

pub type RichNode = Spanned<RichForm>;

/// Parse errors that don't halt parsing (recovery is best-effort).
#[derive(Debug, Clone)]
pub struct ParseError {
    pub message: String,
    pub span: Span,
}

// ── Models ──────────────────────────────────────────────────────────────────

/// The model of a [`Form`] or a [`RichForm`].
#[verifier::ext_equal]
pub ghost enum FormView {
    Comment(Seq<char>),
    Symbol(Seq<char>),
    Keyword(Seq<char>),
    Str(Seq<char>),
    Number(NumberView),
    Bool(bool),
    Nil,
    Varargs,
    List(Seq<NodeView>),
    Table(Seq<NodeView>),
    Sequence(Seq<NodeView>),
    Quote(Box<NodeView>),
    Quasiquote(Box<NodeView>),
    Unquote(Box<NodeView>),
    UnquoteSplice(Box<NodeView>),
    HashFn(Box<NodeView>),
}

/// The model of an AST node.
#[verifier::ext_equal]
pub ghost struct NodeView {
    pub node: FormView,
    pub span: Span,
}

/// The model of a [`ParseError`].
#[verifier::ext_equal]
pub ghost struct ParseErrorView {
    pub message: Seq<char>,
    pub span: Span,
}

pub open spec fn node_view(n: AstNode) -> NodeView
    decreases n,
{
    NodeView {
        node: match n.node {
            Form::Symbol(s) => FormView::Symbol(s@),
            Form::Keyword(s) => FormView::Keyword(s@),
            Form::Str(s) => FormView::Str(s@),
            Form::Number(x) => FormView::Number(x@),
            Form::Bool(b) => FormView::Bool(b),
            Form::Nil => FormView::Nil,
            Form::Varargs => FormView::Varargs,
            Form::List(v) => FormView::List(node_views(v@)),
            Form::Table(v) => FormView::Table(node_views(v@)),
            Form::Sequence(v) => FormView::Sequence(node_views(v@)),
            Form::Quote(i) => FormView::Quote(Box::new(node_view(*i))),
            Form::Quasiquote(i) => FormView::Quasiquote(Box::new(node_view(*i))),
            Form::Unquote(i) => FormView::Unquote(Box::new(node_view(*i))),
            Form::UnquoteSplice(i) => FormView::UnquoteSplice(Box::new(node_view(*i))),
            Form::HashFn(i) => FormView::HashFn(Box::new(node_view(*i))),
        },
        span: n.span,
    }
}

/// The models of a run of nodes.
pub open spec fn node_views(s: Seq<AstNode>) -> Seq<NodeView>
    decreases s,
{
    Seq::new(
        s.len(),
        |i: int|
            if 0 <= i < s.len() {
                node_view(s[i])
            } else {
                arbitrary()
            },
    )
}

pub open spec fn rich_view(n: RichNode) -> NodeView
    decreases n,
{
    NodeView {
        node: match n.node {
            RichForm::Comment(s) => FormView::Comment(s@),
            RichForm::Symbol(s) => FormView::Symbol(s@),
            RichForm::Keyword(s) => FormView::Keyword(s@),
            RichForm::Str(s) => FormView::Str(s@),
            RichForm::Number(x) => FormView::Number(x@),
            RichForm::Bool(b) => FormView::Bool(b),
            RichForm::Nil => FormView::Nil,
            RichForm::Varargs => FormView::Varargs,
            RichForm::List(v) => FormView::List(rich_views(v@)),
            RichForm::Table(v) => FormView::Table(rich_views(v@)),
            RichForm::Sequence(v) => FormView::Sequence(rich_views(v@)),
            RichForm::Quote(i) => FormView::Quote(Box::new(rich_view(*i))),
            RichForm::Quasiquote(i) => FormView::Quasiquote(Box::new(rich_view(*i))),
            RichForm::Unquote(i) => FormView::Unquote(Box::new(rich_view(*i))),
            RichForm::UnquoteSplice(i) => FormView::UnquoteSplice(Box::new(rich_view(*i))),
            RichForm::HashFn(i) => FormView::HashFn(Box::new(rich_view(*i))),
        },
        span: n.span,
    }
}

/// The models of a run of comment-bearing nodes.
pub open spec fn rich_views(s: Seq<RichNode>) -> Seq<NodeView>
    decreases s,
{
    Seq::new(
        s.len(),
        |i: int|
            if 0 <= i < s.len() {
                rich_view(s[i])
            } else {
                arbitrary()
            },
    )
}

impl View for ParseError {
    type V = ParseErrorView;

    open spec fn view(&self) -> ParseErrorView {
        ParseErrorView { message: self.message@, span: self.span }
    }
}

pub open spec fn error_views(s: Seq<ParseError>) -> Seq<ParseErrorView> {
    Seq::new(s.len(), |i: int| s[i]@)
}

// ── Grammar ─────────────────────────────────────────────────────────────────

/// The three kinds of brackets.
#[derive(Clone, Copy, PartialEq, Eq, Structural)]
pub enum Bracket {
    Paren,
    Brace,
    Square,
}

/// The token that closes a bracket.
pub open spec fn closer(b: Bracket) -> TokenView {
    match b {
        Bracket::Paren => TokenView::RParen,
        Bracket::Brace => TokenView::RBrace,
        Bracket::Square => TokenView::RBracket,
    }
}

/// The form that a bracket encloses.
pub open spec fn enclosed(b: Bracket, forms: Seq<NodeView>) -> FormView {
    match b {
        Bracket::Paren => FormView::List(forms),
        Bracket::Brace => FormView::Table(forms),
        Bracket::Square => FormView::Sequence(forms),
    }
}

/// The bracket that a token opens.
pub open spec fn opener(t: TokenView) -> Option<Bracket> {
    match t {
        TokenView::LParen => Some(Bracket::Paren),
        TokenView::LBrace => Some(Bracket::Brace),
        TokenView::LBracket => Some(Bracket::Square),
        _ => None,
    }
}

/// Tokens that wrap the form after them.
pub open spec fn is_prefix(t: TokenView) -> bool {
    t is Quote || t is Quasiquote || t is Unquote || t is UnquoteSplice || t is HashFn
}

/// The form that a prefix token makes of the form after it.
pub open spec fn prefixed(t: TokenView, inner: NodeView) -> FormView {
    match t {
        TokenView::Quote => FormView::Quote(Box::new(inner)),
        TokenView::Quasiquote => FormView::Quasiquote(Box::new(inner)),
        TokenView::Unquote => FormView::Unquote(Box::new(inner)),
        TokenView::UnquoteSplice => FormView::UnquoteSplice(Box::new(inner)),
        _ => FormView::HashFn(Box::new(inner)),
    }
}

/// The form of a token that stands for itself; closing brackets stand for none.
pub open spec fn atom(t: TokenView) -> Option<FormView> {
    match t {
        TokenView::Symbol(s) => Some(FormView::Symbol(s)),
        TokenView::Keyword(s) => Some(FormView::Keyword(s)),
        TokenView::Str(s) => Some(FormView::Str(s)),
        TokenView::Number(n) => Some(FormView::Number(n)),
        TokenView::Bool(b) => Some(FormView::Bool(b)),
        TokenView::Nil => Some(FormView::Nil),
        TokenView::Varargs => Some(FormView::Varargs),
        TokenView::Comment(s) => Some(FormView::Comment(s)),
        _ => None,
    }
}

/// What reading one form gives: the form, if there is one; the index of the
/// next token; the errors met on the way.
pub ghost struct Parsed {
    pub node: Option<NodeView>,
    pub pos: int,
    pub errors: Seq<ParseErrorView>,
}

/// What reading the inside of a bracket gives: the forms, the span of the
/// closing bracket, the index of the next token and the errors.
pub ghost struct Enclosed {
    pub forms: Seq<NodeView>,
    pub end: Span,
    pub pos: int,
    pub errors: Seq<ParseErrorView>,
}

pub open spec fn unexpected(span: Span) -> ParseErrorView {
    ParseErrorView { message: "unexpected closing delimiter"@, span }
}

pub open spec fn unclosed(span: Span) -> ParseErrorView {
    ParseErrorView { message: "unclosed delimiter"@, span }
}

/// The form that starts with token `p`.
pub open spec fn form_at(t: Seq<SpannedTokenView>, p: int) -> Parsed
    decreases t.len() - p, 0int,
{
    if !(0 <= p < t.len()) {
        Parsed { node: None, pos: p, errors: Seq::empty() }
    } else {
        let tok = t[p].token;
        let span = t[p].span;
        match opener(tok) {
            Some(bracket) => {
                let inside = forms_until(t, p + 1, bracket, span);
                Parsed {
                    node: Some(
                        NodeView {
                            node: enclosed(bracket, inside.forms),
                            span: merged(span, inside.end),
                        },
                    ),
                    pos: inside.pos,
                    errors: inside.errors,
                }
            },
            None => if is_prefix(tok) {
                let inner = form_at(t, p + 1);
                Parsed {
                    node: match inner.node {
                        Some(n) => Some(
                            NodeView { node: prefixed(tok, n), span: merged(span, n.span) },
                        ),
                        None => None,
                    },
                    ..inner
                }
            } else {
                match atom(tok) {
                    Some(f) => Parsed {
                        node: Some(NodeView { node: f, span }),
                        pos: p + 1,
                        errors: Seq::empty(),
                    },
                    None => Parsed { node: None, pos: p + 1, errors: seq![unexpected(span)] },
                }
            },
        }
    }
}

/// The forms from token `p` up to the closing bracket. Where the tokens end
/// first, the last token stands for the closing bracket.
pub open spec fn forms_until(
    t: Seq<SpannedTokenView>,
    p: int,
    bracket: Bracket,
    open: Span,
) -> Enclosed
    decreases t.len() - p, 1int,
{
    if !(0 <= p < t.len()) {
        Enclosed {
            forms: Seq::empty(),
            end: if t.len() > 0 {
                t.last().span
            } else {
                open
            },
            pos: p,
            errors: seq![unclosed(open)],
        }
    } else if t[p].token == closer(bracket) {
        Enclosed { forms: Seq::empty(), end: t[p].span, pos: p + 1, errors: Seq::empty() }
    } else {
        let first = form_at(t, p);
        if !(p < first.pos <= t.len()) {
            arbitrary()
        } else {
            let rest = forms_until(t, first.pos, bracket, open);
            Enclosed {
                forms: match first.node {
                    Some(n) => seq![n] + rest.forms,
                    None => rest.forms,
                },
                errors: first.errors + rest.errors,
                ..rest
            }
        }
    }
}

/// All the forms from token `p` on, with the errors. An unmatched closing
/// bracket is reported and skipped.
pub open spec fn forms_from(t: Seq<SpannedTokenView>, p: int) -> (
    Seq<NodeView>,
    Seq<ParseErrorView>,
)
    decreases t.len() - p,
{
    if !(0 <= p < t.len()) {
        (Seq::empty(), Seq::empty())
    } else {
        let first = form_at(t, p);
        if !(p < first.pos <= t.len()) {
            arbitrary()
        } else {
            let rest = forms_from(t, first.pos);
            (
                match first.node {
                    Some(n) => seq![n] + rest.0,
                    None => rest.0,
                },
                first.errors + rest.1,
            )
        }
    }
}

/// The AST of a source text, with its parse errors.
pub open spec fn parse_source(src: Seq<char>) -> (Seq<NodeView>, Seq<ParseErrorView>) {
    forms_from(lex(src), 0)
}

/// The comment-bearing AST of a source text, with its parse errors.
pub open spec fn parse_rich_source(src: Seq<char>) -> (Seq<NodeView>, Seq<ParseErrorView>) {
    forms_from(lex_with_comments(src), 0)
}

/// Reading a form takes at least one token, and no more than there are.
pub proof fn form_at_progress(t: Seq<SpannedTokenView>, p: int)
    requires
        0 <= p < t.len(),
    ensures
        p < form_at(t, p).pos <= t.len(),
    decreases t.len() - p, 0int,
{
    let tok = t[p].token;
    match opener(tok) {
        Some(bracket) => {
            forms_until_progress(t, p + 1, bracket, t[p].span);
        },
        None => {
            if is_prefix(tok) && p + 1 < t.len() {
                form_at_progress(t, p + 1);
            }
        },
    }
}

pub proof fn forms_until_progress(t: Seq<SpannedTokenView>, p: int, bracket: Bracket, open: Span)
    requires
        0 <= p <= t.len(),
    ensures
        p <= forms_until(t, p, bracket, open).pos <= t.len(),
    decreases t.len() - p, 1int,
{
    if p < t.len() && t[p].token != closer(bracket) {
        form_at_progress(t, p);
        forms_until_progress(t, form_at(t, p).pos, bracket, open);
    }
}

// ── The parser ──────────────────────────────────────────────────────────────

pub struct Parser {
    tokens: Vec<SpannedToken>,
    pos: usize,
    pub errors: Vec<ParseError>,
}

/// No token of the list is a comment.
pub open spec fn comment_free(t: Seq<SpannedTokenView>) -> bool {
    forall|i: int| 0 <= i < t.len() ==> !((#[trigger] t[i]).token is Comment)
}

fn bracket_of(t: &Token) -> (r: Option<Bracket>)
    ensures
        r == opener(t@),
{
    match t {
        Token::LParen => Some(Bracket::Paren),
        Token::LBrace => Some(Bracket::Brace),
        Token::LBracket => Some(Bracket::Square),
        _ => None,
    }
}

fn closes(t: &Token, b: Bracket) -> (r: bool)
    ensures
        r == (t@ == closer(b)),
{
    match (t, b) {
        (Token::RParen, Bracket::Paren) => true,
        (Token::RBrace, Bracket::Brace) => true,
        (Token::RBracket, Bracket::Square) => true,
        _ => false,
    }
}

fn prefix_token(t: &Token) -> (r: bool)
    ensures
        r == is_prefix(t@),
{
    matches!(t, Token::Quote | Token::Quasiquote | Token::Unquote | Token::UnquoteSplice | Token::HashFn)
}

impl Parser {
    /// The tokens being parsed.
    pub closed spec fn token_seq(&self) -> Seq<SpannedTokenView> {
        token_views(self.tokens@)
    }

    /// The index of the next token.
    pub closed spec fn at(&self) -> int {
        self.pos as int
    }

    /// The errors met so far.
    pub closed spec fn error_seq(&self) -> Seq<ParseErrorView> {
        error_views(self.errors@)
    }

    pub closed spec fn well_formed(&self) -> bool {
        &&& self.pos <= self.tokens@.len()
        &&& comment_free(token_views(self.tokens@))
    }

    /// A parser for a token list; comments are not part of the AST and are dropped.
    pub fn new(tokens: Vec<SpannedToken>) -> (r: Self)
        ensures
            r.well_formed(),
            r.token_seq() == without_comments(token_views(tokens@)),
            r.at() == 0,
            r.error_seq().len() == 0,
    {
        let tokens = drop_comments(tokens);
        Self { tokens, pos: 0, errors: Vec::new() }
    }

    pub fn parse(src: &str) -> (r: (Vec<AstNode>, Vec<ParseError>))
        requires
            src.spec_bytes().len() <= u32::MAX,
        ensures
            node_views(r.0@) == parse_source(src@).0,
            error_views(r.1@) == parse_source(src@).1,
    {
        let tokens = Lexer::tokenize(src);
        proof {
            lex_is_comment_free(src@);
            without_comments_keeps(lex(src@));
        }
        let mut parser = Self::new(tokens);
        let forms = parser.parse_all();
        assert(error_views(parser.errors@) =~= parse_source(src@).1);
        (forms, parser.errors)
    }

    /// Like `parse`, with the comments kept as nodes of the AST.
    pub fn parse_with_comments(src: &str) -> (r: (Vec<RichNode>, Vec<ParseError>))
        requires
            src.spec_bytes().len() <= u32::MAX,
        ensures
            rich_views(r.0@) == parse_rich_source(src@).0,
            error_views(r.1@) == parse_rich_source(src@).1,
    {
        let tokens = Lexer::tokenize_with_comments(src);
        let mut parser = RichParser { tokens, pos: 0, errors: Vec::new() };
        let forms = parser.parse_all();
        assert(error_views(parser.errors@) =~= parse_rich_source(src@).1);
        (forms, parser.errors)
    }

    fn parse_all(&mut self) -> (r: Vec<AstNode>)
        requires
            old(self).well_formed(),
        ensures
            node_views(r@) == forms_from(old(self).token_seq(), old(self).at()).0,
            error_views(final(self).errors@) == error_views(old(self).errors@) + forms_from(
                old(self).token_seq(),
                old(self).at(),
            ).1,
    {
        let mut forms: Vec<AstNode> = Vec::new();
        let ghost t = self.token_seq();
        let ghost p0 = self.at();
        let ghost e0 = error_views(self.errors@);
        assert(error_views(self.errors@) + forms_from(t, p0).1 =~= e0 + forms_from(t, p0).1);
        while self.pos < self.tokens.len()
            invariant
                self.well_formed(),
                self.token_seq() == t,
                node_views(forms@) + forms_from(t, self.at()).0 == forms_from(t, p0).0,
                error_views(self.errors@) + forms_from(t, self.at()).1 == e0 + forms_from(t, p0).1,
            decreases self.tokens@.len() - self.pos,
        {
            let ghost p = self.at();
            let ghost f0 = node_views(forms@);
            let ghost e1 = error_views(self.errors@);
            let ghost here = forms_from(t, p);
            proof {
                form_at_progress(t, p);
            }
            match self.parse_form() {
                Some(f) => {
                    forms.push(f);
                    assert(node_views(forms@) =~= f0.push(node_view(f)));
                    assert(f0 + here.0 =~= node_views(forms@) + forms_from(t, self.at()).0);
                    assert(e1 + here.1 =~= error_views(self.errors@) + forms_from(t, self.at()).1);
                },
                None => {
                    // Skip unmatched closing delimiter
                    assert(e1 + here.1 =~= error_views(self.errors@) + forms_from(t, self.at()).1);
                },
            }
        }
        assert(node_views(forms@) + forms_from(t, self.at()).0 =~= node_views(forms@));
        assert(error_views(self.errors@) + forms_from(t, self.at()).1 =~= error_views(self.errors@));
        forms
    }

    fn push_error(&mut self, message: &str, span: Span)
        ensures
            final(self).tokens == old(self).tokens,
            final(self).pos == old(self).pos,
            error_views(final(self).errors@) == error_views(old(self).errors@).push(
                ParseErrorView { message: message@, span },
            ),
    {
        let ghost e = self.errors@;
        self.errors.push(ParseError { message: message.to_owned(), span });
        assert(error_views(self.errors@) =~= error_views(e).push(
            ParseErrorView { message: message@, span },
        ));
    }

    fn parse_form(&mut self) -> (r: Option<AstNode>)
        requires
            old(self).well_formed(),
        ensures
            final(self).well_formed(),
            final(self).tokens == old(self).tokens,
            ({
                let want = form_at(old(self).token_seq(), old(self).at());
                &&& match r {
                    Some(n) => want.node == Some(node_view(n)),
                    None => want.node is None,
                }
                &&& final(self).at() == want.pos
                &&& error_views(final(self).errors@) == error_views(old(self).errors@)
                    + want.errors
            }),
        decreases old(self).tokens@.len() - old(self).pos, 0int,
    {
        let ghost t = self.token_seq();
        let ghost e0 = error_views(self.errors@);
        if self.pos >= self.tokens.len() {
            assert(error_views(self.errors@) =~= e0 + form_at(t, self.at()).errors);
            return None;
        }
        let ghost p = self.at();
        proof {
            form_at_progress(t, p);
        }
        let here = self.pos;
        let span = self.tokens[here].span;
        self.pos = self.pos + 1;
        assert(t[p] == self.tokens@[here as int]@);
        if let Some(bracket) = bracket_of(&self.tokens[here].token) {
            let (forms, end_span) = self.parse_until(bracket, &span);
            let whole = Span::merge(&span, &end_span);
            return Some(
                match bracket {
                    Bracket::Paren => Spanned { node: Form::List(forms), span: whole },
                    Bracket::Brace => Spanned { node: Form::Table(forms), span: whole },
                    Bracket::Square => Spanned { node: Form::Sequence(forms), span: whole },
                },
            );
        }
        if prefix_token(&self.tokens[here].token) {
            let inner = match self.parse_form() {
                Some(n) => n,
                None => {
                    return None;
                },
            };
            let whole = Span::merge(&span, &inner.span);
            let node = match &self.tokens[here].token {
                Token::Quote => Form::Quote(Box::new(inner)),
                Token::Quasiquote => Form::Quasiquote(Box::new(inner)),
                Token::Unquote => Form::Unquote(Box::new(inner)),
                Token::UnquoteSplice => Form::UnquoteSplice(Box::new(inner)),
                _ => Form::HashFn(Box::new(inner)),
            };
            return Some(Spanned { node, span: whole });
        }
        let form = match &self.tokens[here].token {
            Token::Symbol(s) => Form::Symbol(s.clone()),
            Token::Keyword(s) => Form::Keyword(s.clone()),
            Token::Str(s) => Form::Str(s.clone()),
            Token::Number(n) => Form::Number(n.dup()),
            Token::Bool(b) => Form::Bool(*b),
            Token::Nil => Form::Nil,
            Token::Varargs => Form::Varargs,
            _ => {
                // Unmatched closing delimiters — error recovery
                self.push_error("unexpected closing delimiter", span);
                assert(error_views(self.errors@) =~= e0 + form_at(t, p).errors);
                return None;
            },
        };
        assert(error_views(self.errors@) =~= e0 + form_at(t, p).errors);
        Some(Spanned { node: form, span })
    }

    /// Parse forms until the matching closing delimiter.
    /// Returns (forms, closing-span); where there is none, emits an error.
    fn parse_until(&mut self, bracket: Bracket, open_span: &Span) -> (r: (Vec<AstNode>, Span))
        requires
            old(self).well_formed(),
        ensures
            final(self).well_formed(),
            final(self).tokens == old(self).tokens,
            ({
                let want = forms_until(old(self).token_seq(), old(self).at(), bracket, *open_span);
                &&& node_views(r.0@) == want.forms
                &&& r.1 == want.end
                &&& final(self).at() == want.pos
                &&& error_views(final(self).errors@) == error_views(old(self).errors@)
                    + want.errors
            }),
        decreases old(self).tokens@.len() - old(self).pos, 1int,
    {
        let mut forms: Vec<AstNode> = Vec::new();
        let ghost t = self.token_seq();
        let ghost p0 = self.at();
        let ghost e0 = error_views(self.errors@);
        let ghost want = forms_until(t, p0, bracket, *open_span);
        assert(node_views(forms@) + want.forms =~= want.forms);
        loop
            invariant
                self.well_formed(),
                self.tokens == old(self).tokens,
                self.token_seq() == t,
                p0 == old(self).at(),
                p0 <= self.at(),
                want == forms_until(t, p0, bracket, *open_span),
                e0 == error_views(old(self).errors@),
                ({
                    let rest = forms_until(t, self.at(), bracket, *open_span);
                    &&& node_views(forms@) + rest.forms == want.forms
                    &&& rest.end == want.end
                    &&& rest.pos == want.pos
                    &&& error_views(self.errors@) + rest.errors == e0 + want.errors
                }),
            decreases self.tokens@.len() - self.pos,
        {
            let ghost p = self.at();
            let ghost f0 = node_views(forms@);
            let ghost e1 = error_views(self.errors@);
            let ghost rest = forms_until(t, p, bracket, *open_span);
            if self.pos >= self.tokens.len() {
                self.push_error("unclosed delimiter", *open_span);
                assert(error_views(self.errors@) =~= e1 + rest.errors);
                assert(f0 + rest.forms =~= f0);
                // Return what we have so far rather than failing entirely
                let n = self.tokens.len();
                let fake_end = if n > 0 {
                    self.tokens[n - 1].span
                } else {
                    *open_span
                };
                return (forms, fake_end);
            }
            assert(t[p] == self.tokens@[p]@);
            if closes(&self.tokens[self.pos].token, bracket) {
                let end_span = self.tokens[self.pos].span;
                self.pos = self.pos + 1;
                assert(f0 + rest.forms =~= f0);
                assert(e1 + rest.errors =~= e1);
                return (forms, end_span);
            }
            proof {
                form_at_progress(t, p);
            }
            if let Some(f) = self.parse_form() {
                forms.push(f);
                assert(node_views(forms@) =~= f0.push(node_view(f)));
            }
            let ghost more = forms_until(t, self.at(), bracket, *open_span);
            assert(f0 + rest.forms =~= node_views(forms@) + more.forms);
            assert(e1 + rest.errors =~= error_views(self.errors@) + more.errors);
        }
    }
}

proof fn without_comments_step(t: Seq<SpannedTokenView>, i: int)
    requires
        0 <= i < t.len(),
    ensures
        without_comments(t.skip(i)) == (if t[i].token is Comment {
            without_comments(t.skip(i + 1))
        } else {
            seq![t[i]] + without_comments(t.skip(i + 1))
        }),
{
    assert(t.skip(i).drop_first() =~= t.skip(i + 1));
}

fn drop_comments(tokens: Vec<SpannedToken>) -> (r: Vec<SpannedToken>)
    ensures
        token_views(r@) == without_comments(token_views(tokens@)),
        comment_free(token_views(r@)),
{
    let mut rest = tokens;
    let mut out: Vec<SpannedToken> = Vec::new();
    let ghost all = token_views(tokens@);
    assert(token_views(out@) =~= Seq::<SpannedTokenView>::empty());
    assert(all.skip(all.len() as int) =~= Seq::<SpannedTokenView>::empty());
    assert(token_views(rest@) =~= all.take(rest@.len() as int));
    // From the last token to the first, so that each can be moved out.
    while rest.len() > 0
        invariant
            rest@.len() <= all.len(),
            token_views(rest@) == all.take(rest@.len() as int),
            token_views(out@).reverse() == without_comments(all.skip(rest@.len() as int)),
            comment_free(token_views(out@)),
        decreases rest@.len(),
    {
        let ghost n = rest@.len() as int;
        let ghost o = token_views(out@);
        let ghost before = rest@;
        let tok = rest.pop().unwrap();
        assert(tok@ == token_views(before)[n - 1]);
        assert(tok@ == all.take(n)[n - 1]);
        proof {
            without_comments_step(all, n - 1);
        }
        assert(token_views(rest@) =~= all.take(n - 1)) by {
            assert(token_views(rest@) =~= token_views(before).take(n - 1));
            assert(all.take(n).take(n - 1) =~= all.take(n - 1));
        }
        let comment = matches!(tok.token, Token::Comment(_));
        if !comment {
            out.push(tok);
            assert(token_views(out@) =~= o.push(tok@));
            assert(token_views(out@).reverse() =~= seq![tok@] + o.reverse());
        }
    }
    assert(all.skip(0) =~= all);
    reverse_tokens(out)
}

fn reverse_tokens(tokens: Vec<SpannedToken>) -> (r: Vec<SpannedToken>)
    ensures
        token_views(r@) == token_views(tokens@).reverse(),
        comment_free(token_views(tokens@)) ==> comment_free(token_views(r@)),
{
    let mut rest = tokens;
    let mut out: Vec<SpannedToken> = Vec::new();
    while rest.len() > 0
        invariant
            rest@.len() + out@.len() == tokens@.len(),
            forall|i: int| 0 <= i < rest@.len() ==> rest@[i] == tokens@[i],
            forall|i: int|
                0 <= i < out@.len() ==> (#[trigger] out@[i]) == tokens@[tokens@.len() - 1 - i],
        decreases rest@.len(),
    {
        let tok = rest.pop().unwrap();
        out.push(tok);
    }
    assert(token_views(out@) =~= token_views(tokens@).reverse());
    out
}

/// The parser that keeps comments.
struct RichParser {
    tokens: Vec<SpannedToken>,
    pos: usize,
    errors: Vec<ParseError>,
}

impl RichParser {
    spec fn token_seq(&self) -> Seq<SpannedTokenView> {
        token_views(self.tokens@)
    }

    fn parse_all(&mut self) -> (r: Vec<RichNode>)
        requires
            old(self).pos <= old(self).tokens@.len(),
        ensures
            rich_views(r@) == forms_from(old(self).token_seq(), old(self).pos as int).0,
            error_views(final(self).errors@) == error_views(old(self).errors@) + forms_from(
                old(self).token_seq(),
                old(self).pos as int,
            ).1,
    {
        let mut forms: Vec<RichNode> = Vec::new();
        let ghost t = self.token_seq();
        let ghost p0 = self.pos as int;
        let ghost e0 = error_views(self.errors@);
        while self.pos < self.tokens.len()
            invariant
                self.pos <= self.tokens@.len(),
                self.token_seq() == t,
                rich_views(forms@) + forms_from(t, self.pos as int).0 == forms_from(t, p0).0,
                error_views(self.errors@) + forms_from(t, self.pos as int).1 == e0 + forms_from(
                    t,
                    p0,
                ).1,
            decreases self.tokens@.len() - self.pos,
        {
            let ghost p = self.pos as int;
            let ghost f0 = rich_views(forms@);
            let ghost e1 = error_views(self.errors@);
            let ghost here = forms_from(t, p);
            proof {
                form_at_progress(t, p);
            }
            match self.parse_form() {
                Some(f) => {
                    forms.push(f);
                    assert(rich_views(forms@) =~= f0.push(rich_view(f)));
                    assert(f0 + here.0 =~= rich_views(forms@) + forms_from(t, self.pos as int).0);
                    assert(e1 + here.1 =~= error_views(self.errors@) + forms_from(
                        t,
                        self.pos as int,
                    ).1);
                },
                None => {
                    // Skip unmatched closing delimiter
                    assert(e1 + here.1 =~= error_views(self.errors@) + forms_from(
                        t,
                        self.pos as int,
                    ).1);
                },
            }
        }
        assert(rich_views(forms@) + forms_from(t, self.pos as int).0 =~= rich_views(forms@));
        assert(error_views(self.errors@) + forms_from(t, self.pos as int).1 =~= error_views(
            self.errors@,
        ));
        forms
    }

    fn push_error(&mut self, message: &str, span: Span)
        ensures
            final(self).tokens == old(self).tokens,
            final(self).pos == old(self).pos,
            error_views(final(self).errors@) == error_views(old(self).errors@).push(
                ParseErrorView { message: message@, span },
            ),
    {
        let ghost e = self.errors@;
        self.errors.push(ParseError { message: message.to_owned(), span });
        assert(error_views(self.errors@) =~= error_views(e).push(
            ParseErrorView { message: message@, span },
        ));
    }

    fn parse_form(&mut self) -> (r: Option<RichNode>)
        requires
            old(self).pos <= old(self).tokens@.len(),
        ensures
            final(self).pos <= final(self).tokens@.len(),
            final(self).tokens == old(self).tokens,
            ({
                let want = form_at(old(self).token_seq(), old(self).pos as int);
                &&& match r {
                    Some(n) => want.node == Some(rich_view(n)),
                    None => want.node is None,
                }
                &&& final(self).pos == want.pos
                &&& error_views(final(self).errors@) == error_views(old(self).errors@)
                    + want.errors
            }),
        decreases old(self).tokens@.len() - old(self).pos, 0int,
    {
        let ghost t = self.token_seq();
        let ghost e0 = error_views(self.errors@);
        if self.pos >= self.tokens.len() {
            assert(error_views(self.errors@) =~= e0 + form_at(t, self.pos as int).errors);
            return None;
        }
        let ghost p = self.pos as int;
        proof {
            form_at_progress(t, p);
        }
        let here = self.pos;
        let span = self.tokens[here].span;
        self.pos = self.pos + 1;
        assert(t[p] == self.tokens@[here as int]@);
        if let Some(bracket) = bracket_of(&self.tokens[here].token) {
            let (forms, end_span) = self.parse_until(bracket, &span);
            let whole = Span::merge(&span, &end_span);
            return Some(
                match bracket {
                    Bracket::Paren => Spanned { node: RichForm::List(forms), span: whole },
                    Bracket::Brace => Spanned { node: RichForm::Table(forms), span: whole },
                    Bracket::Square => Spanned { node: RichForm::Sequence(forms), span: whole },
                },
            );
        }
        if prefix_token(&self.tokens[here].token) {
            let inner = match self.parse_form() {
                Some(n) => n,
                None => {
                    return None;
                },
            };
            let whole = Span::merge(&span, &inner.span);
            let node = match &self.tokens[here].token {
                Token::Quote => RichForm::Quote(Box::new(inner)),
                Token::Quasiquote => RichForm::Quasiquote(Box::new(inner)),
                Token::Unquote => RichForm::Unquote(Box::new(inner)),
                Token::UnquoteSplice => RichForm::UnquoteSplice(Box::new(inner)),
                _ => RichForm::HashFn(Box::new(inner)),
            };
            return Some(Spanned { node, span: whole });
        }
        let form = match &self.tokens[here].token {
            Token::Symbol(s) => RichForm::Symbol(s.clone()),
            Token::Keyword(s) => RichForm::Keyword(s.clone()),
            Token::Str(s) => RichForm::Str(s.clone()),
            Token::Number(n) => RichForm::Number(n.dup()),
            Token::Bool(b) => RichForm::Bool(*b),
            Token::Nil => RichForm::Nil,
            Token::Varargs => RichForm::Varargs,
            Token::Comment(s) => RichForm::Comment(s.clone()),
            _ => {
                self.push_error("unexpected closing delimiter", span);
                assert(error_views(self.errors@) =~= e0 + form_at(t, p).errors);
                return None;
            },
        };
        assert(error_views(self.errors@) =~= e0 + form_at(t, p).errors);
        Some(Spanned { node: form, span })
    }

    fn parse_until(&mut self, bracket: Bracket, open_span: &Span) -> (r: (Vec<RichNode>, Span))
        requires
            old(self).pos <= old(self).tokens@.len(),
        ensures
            final(self).pos <= final(self).tokens@.len(),
            final(self).tokens == old(self).tokens,
            ({
                let want = forms_until(
                    old(self).token_seq(),
                    old(self).pos as int,
                    bracket,
                    *open_span,
                );
                &&& rich_views(r.0@) == want.forms
                &&& r.1 == want.end
                &&& final(self).pos == want.pos
                &&& error_views(final(self).errors@) == error_views(old(self).errors@)
                    + want.errors
            }),
        decreases old(self).tokens@.len() - old(self).pos, 1int,
    {
        let mut forms: Vec<RichNode> = Vec::new();
        let ghost t = self.token_seq();
        let ghost p0 = self.pos as int;
        let ghost e0 = error_views(self.errors@);
        let ghost want = forms_until(t, p0, bracket, *open_span);
        assert(rich_views(forms@) + want.forms =~= want.forms);
        loop
            invariant
                self.pos <= self.tokens@.len(),
                self.tokens == old(self).tokens,
                self.token_seq() == t,
                p0 == old(self).pos,
                p0 <= self.pos,
                want == forms_until(t, p0, bracket, *open_span),
                e0 == error_views(old(self).errors@),
                ({
                    let rest = forms_until(t, self.pos as int, bracket, *open_span);
                    &&& rich_views(forms@) + rest.forms == want.forms
                    &&& rest.end == want.end
                    &&& rest.pos == want.pos
                    &&& error_views(self.errors@) + rest.errors == e0 + want.errors
                }),
            decreases self.tokens@.len() - self.pos,
        {
            let ghost p = self.pos as int;
            let ghost f0 = rich_views(forms@);
            let ghost e1 = error_views(self.errors@);
            let ghost rest = forms_until(t, p, bracket, *open_span);
            if self.pos >= self.tokens.len() {
                self.push_error("unclosed delimiter", *open_span);
                assert(error_views(self.errors@) =~= e1 + rest.errors);
                assert(f0 + rest.forms =~= f0);
                let n = self.tokens.len();
                let fake_end = if n > 0 {
                    self.tokens[n - 1].span
                } else {
                    *open_span
                };
                return (forms, fake_end);
            }
            assert(t[p] == self.tokens@[p]@);
            if closes(&self.tokens[self.pos].token, bracket) {
                let end_span = self.tokens[self.pos].span;
                self.pos = self.pos + 1;
                assert(f0 + rest.forms =~= f0);
                assert(e1 + rest.errors =~= e1);
                return (forms, end_span);
            }
            proof {
                form_at_progress(t, p);
            }
            if let Some(f) = self.parse_form() {
                forms.push(f);
                assert(rich_views(forms@) =~= f0.push(rich_view(f)));
            }
            let ghost more = forms_until(t, self.pos as int, bracket, *open_span);
            assert(f0 + rest.forms =~= rich_views(forms@) + more.forms);
            assert(e1 + rest.errors =~= error_views(self.errors@) + more.errors);
        }
    }
}

// ── Walking the tree ────────────────────────────────────────────────────────

/// The nodes directly inside a node.
pub open spec fn children(n: AstNode) -> Seq<AstNode> {
    match n.node {
        Form::List(v) => v@,
        Form::Table(v) => v@,
        Form::Sequence(v) => v@,
        Form::Quote(i) => seq![*i],
        Form::Quasiquote(i) => seq![*i],
        Form::Unquote(i) => seq![*i],
        Form::UnquoteSplice(i) => seq![*i],
        Form::HashFn(i) => seq![*i],
        _ => Seq::empty(),
    }
}

/// A node and all the nodes inside it, depth-first, the node before its inside.
pub open spec fn preorder(n: AstNode) -> Seq<AstNode>
    decreases n, 0int,
{
    match n.node {
        Form::List(v) => seq![n] + preorder_all(v@, v@.len() as int),
        Form::Table(v) => seq![n] + preorder_all(v@, v@.len() as int),
        Form::Sequence(v) => seq![n] + preorder_all(v@, v@.len() as int),
        Form::Quote(i) => seq![n] + preorder(*i),
        Form::Quasiquote(i) => seq![n] + preorder(*i),
        Form::Unquote(i) => seq![n] + preorder(*i),
        Form::UnquoteSplice(i) => seq![n] + preorder(*i),
        Form::HashFn(i) => seq![n] + preorder(*i),
        _ => seq![n],
    }
}

/// The first `k` nodes of a run, each with all the nodes inside it.
pub open spec fn preorder_all(s: Seq<AstNode>, k: int) -> Seq<AstNode>
    decreases s, k,
{
    if k <= 0 || k > s.len() {
        Seq::empty()
    } else {
        preorder_all(s, k - 1) + preorder(s[k - 1])
    }
}

/// Every node of the AST, depth-first, in pre-order.
pub fn walk<'a>(nodes: &'a [AstNode]) -> (r: Vec<&'a AstNode>)
    ensures
        refs_are(r@, preorder_all(nodes@, nodes@.len() as int)),
{
    let mut out: Vec<&'a AstNode> = Vec::new();
    let ghost none = Seq::<AstNode>::empty();
    let ghost all = preorder_all(nodes@, nodes@.len() as int);
    assert(refs_are(out@, none));
    walk_nodes(nodes, &mut out);
    assert(refs_are(out@, none + all));
    assert(none + all =~= all);
    out
}

pub open spec fn refs_are(refs: Seq<&AstNode>, nodes: Seq<AstNode>) -> bool {
    &&& refs.len() == nodes.len()
    &&& forall|i: int| 0 <= i < refs.len() ==> *(#[trigger] refs[i]) == nodes[i]
}

fn walk_nodes<'a>(nodes: &'a [AstNode], out: &mut Vec<&'a AstNode>)
    ensures
        forall|pre: Seq<AstNode>|
            refs_are(old(out)@, pre) ==> #[trigger] refs_are(
                final(out)@,
                pre + preorder_all(nodes@, nodes@.len() as int),
            ),
    decreases nodes@, 1int,
{
    let mut i: usize = 0;
    assert forall|pre: Seq<AstNode>| refs_are(out@, pre) implies #[trigger] refs_are(
        out@,
        pre + preorder_all(nodes@, 0),
    ) by {
        assert(pre + preorder_all(nodes@, 0) =~= pre);
    }
    while i < nodes.len()
        invariant
            i <= nodes.len(),
            forall|pre: Seq<AstNode>|
                refs_are(old(out)@, pre) ==> #[trigger] refs_are(
                    out@,
                    pre + preorder_all(nodes@, i as int),
                ),
        decreases nodes.len() - i,
    {
        let ghost o1 = out@;
        walk_node(&nodes[i], out);
        assert forall|pre: Seq<AstNode>| refs_are(old(out)@, pre) implies #[trigger] refs_are(
            out@,
            pre + preorder_all(nodes@, i + 1),
        ) by {
            let mid = pre + preorder_all(nodes@, i as int);
            assert(refs_are(o1, mid));
            assert(refs_are(out@, mid + preorder(nodes@[i as int])));
            assert(mid + preorder(nodes@[i as int]) =~= pre + preorder_all(nodes@, i + 1));
        }
        i = i + 1;
    }
}

fn walk_node<'a>(node: &'a AstNode, out: &mut Vec<&'a AstNode>)
    ensures
        forall|pre: Seq<AstNode>|
            refs_are(old(out)@, pre) ==> #[trigger] refs_are(final(out)@, pre + preorder(*node)),
    decreases node, 0int,
{
    let ghost o0 = out@;
    out.push(node);
    let ghost o1 = out@;
    assert forall|pre: Seq<AstNode>| refs_are(o0, pre) implies #[trigger] refs_are(
        o1,
        pre.push(*node),
    ) by {}
    match &node.node {
        Form::List(v) => walk_nodes(v, out),
        Form::Table(v) => walk_nodes(v, out),
        Form::Sequence(v) => walk_nodes(v, out),
        Form::Quote(i) => walk_node(i, out),
        Form::Quasiquote(i) => walk_node(i, out),
        Form::Unquote(i) => walk_node(i, out),
        Form::UnquoteSplice(i) => walk_node(i, out),
        Form::HashFn(i) => walk_node(i, out),
        _ => {},
    }
    assert forall|pre: Seq<AstNode>| refs_are(o0, pre) implies #[trigger] refs_are(
        out@,
        pre + preorder(*node),
    ) by {
        let p1 = pre.push(*node);
        assert(refs_are(o1, p1));
        let tail = match node.node {
            Form::List(v) => preorder_all(v@, v@.len() as int),
            Form::Table(v) => preorder_all(v@, v@.len() as int),
            Form::Sequence(v) => preorder_all(v@, v@.len() as int),
            Form::Quote(i) => preorder(*i),
            Form::Quasiquote(i) => preorder(*i),
            Form::Unquote(i) => preorder(*i),
            Form::UnquoteSplice(i) => preorder(*i),
            Form::HashFn(i) => preorder(*i),
            _ => Seq::empty(),
        };
        assert(p1 + tail =~= pre + preorder(*node));
        assert(p1 + Seq::<AstNode>::empty() =~= p1);
        assert(refs_are(out@, p1 + tail));
    }
}

/// The name at the head of a list: its first form, if that is a symbol.
pub open spec fn head_name(forms: Seq<AstNode>) -> Option<Seq<char>> {
    if forms.len() > 0 {
        match forms[0].node {
            Form::Symbol(s) => Some(s@),
            _ => None,
        }
    } else {
        None
    }
}

/// The head symbol of a list (first element if it's a Symbol).
pub fn head_sym(forms: &[AstNode]) -> (r: Option<&str>)
    ensures
        match r {
            Some(s) => head_name(forms@) == Some(s@),
            None => head_name(forms@) is None,
        },
{
    if forms.len() > 0 {
        match &forms[0].node {
            Form::Symbol(s) => Some(s.as_str()),
            _ => None,
        }
    } else {
        None
    }
}

// ── Laws ────────────────────────────────────────────────────────────────────

/// A node stands where its span says: the span is one of the text; the nodes
/// inside it start behind its first byte, do not reach past its end, and follow
/// one another.
pub open spec fn placed(b: Seq<u8>, n: NodeView) -> bool
    decreases n, 0int,
{
    &&& span_on_text(b, n.span)
    &&& match n.node {
        FormView::List(v) => placed_all(b, v, n.span.start + 1, n.span.end as int),
        FormView::Table(v) => placed_all(b, v, n.span.start + 1, n.span.end as int),
        FormView::Sequence(v) => placed_all(b, v, n.span.start + 1, n.span.end as int),
        FormView::Quote(i) => placed_behind(b, *i, n.span),
        FormView::Quasiquote(i) => placed_behind(b, *i, n.span),
        FormView::Unquote(i) => placed_behind(b, *i, n.span),
        FormView::UnquoteSplice(i) => placed_behind(b, *i, n.span),
        FormView::HashFn(i) => placed_behind(b, *i, n.span),
        _ => true,
    }
}

/// The form behind a prefix is placed, and ends where the whole ends.
pub open spec fn placed_behind(b: Seq<u8>, n: NodeView, whole: Span) -> bool
    decreases n, 1int,
{
    placed(b, n) && whole.start < n.span.start && n.span.end == whole.end
}

/// The nodes of a run are placed, lie between two offsets, and follow one another.
pub open spec fn placed_all(b: Seq<u8>, v: Seq<NodeView>, from: int, to: int) -> bool
    decreases v, 0int,
{
    &&& forall|i: int|
        0 <= i < v.len() ==> placed(b, #[trigger] v[i]) && from <= v[i].span.start && v[i].span.end
            <= to
    &&& forall|i: int, j: int|
        0 <= i < j < v.len() ==> (#[trigger] v[i]).span.end <= (#[trigger] v[j]).span.start
}

/// Every node of a parsed text stands inside the text, inside the node around
/// it, and behind its elder siblings; its span starts and ends at character
/// boundaries.
pub proof fn parsed_nodes_are_placed(src: Seq<char>)
    requires
        encode_utf8(src).len() <= u32::MAX,
    ensures
        placed_all(encode_utf8(src), parse_source(src).0, 0, encode_utf8(src).len() as int),
        placed_all(encode_utf8(src), parse_rich_source(src).0, 0, encode_utf8(src).len() as int),
{
    let b = encode_utf8(src);
    tokens_in_order(src, false);
    tokens_in_order(src, true);
    tokens_on_boundaries(src, false);
    tokens_on_boundaries(src, true);
    forms_from_placed(b, lex(src), 0);
    forms_from_placed(b, lex_with_comments(src), 0);
}

/// A token list whose spans are those of a text, in order.
pub open spec fn tokens_of_text(b: Seq<u8>, t: Seq<SpannedTokenView>) -> bool {
    &&& b.len() <= u32::MAX
    &&& spans_in_order(t, 0, b.len() as int)
    &&& forall|i: int| 0 <= i < t.len() ==> span_on_text(b, (#[trigger] t[i]).span)
}

/// A form stands where its tokens stand.
pub proof fn form_at_placed(b: Seq<u8>, t: Seq<SpannedTokenView>, p: int)
    requires
        tokens_of_text(b, t),
        0 <= p < t.len(),
    ensures
        p < form_at(t, p).pos <= t.len(),
        form_at(t, p).node matches Some(n) ==> {
            &&& placed(b, n)
            &&& n.span.start == t[p].span.start
            &&& n.span.end == t[form_at(t, p).pos - 1].span.end
        },
    decreases t.len() - p, 0int,
{
    let tok = t[p].token;
    form_at_progress(t, p);
    match opener(tok) {
        Some(bracket) => {
            forms_until_placed(b, t, p + 1, bracket, t[p].span);
            let r = forms_until(t, p + 1, bracket, t[p].span);
            let n = form_at(t, p).node->0;
            assert(span_on_text(b, t[p].span));
            assert(span_on_text(b, t[r.pos - 1].span));
            assert(placed_all(b, r.forms, n.span.start + 1, n.span.end as int));
        },
        None => {
            if is_prefix(tok) && p + 1 < t.len() {
                form_at_placed(b, t, p + 1);
                assert(span_on_text(b, t[p].span));
            }
        },
    }
}

proof fn forms_until_placed(
    b: Seq<u8>,
    t: Seq<SpannedTokenView>,
    p: int,
    bracket: Bracket,
    open: Span,
)
    requires
        tokens_of_text(b, t),
        0 < p <= t.len(),
    ensures
        ({
            let r = forms_until(t, p, bracket, open);
            &&& p <= r.pos <= t.len()
            &&& r.end == t[r.pos - 1].span
            &&& forall|i: int|
                0 <= i < r.forms.len() ==> placed(b, #[trigger] r.forms[i]) && t[p - 1].span.end
                    <= r.forms[i].span.start && r.forms[i].span.end <= r.end.end
            &&& forall|i: int, j: int|
                0 <= i < j < r.forms.len() ==> (#[trigger] r.forms[i]).span.end <= (
                #[trigger] r.forms[j]).span.start
        }),
    decreases t.len() - p, 1int,
{
    forms_until_progress(t, p, bracket, open);
    if p < t.len() && t[p].token != closer(bracket) {
        let first = form_at(t, p);
        form_at_placed(b, t, p);
        forms_until_placed(b, t, first.pos, bracket, open);
        let rest = forms_until(t, first.pos, bracket, open);
        let r = forms_until(t, p, bracket, open);
        if first.node is Some {
            assert(forall|i: int| 0 < i < r.forms.len() ==> r.forms[i] == rest.forms[i - 1]);
        } else {
            assert(r.forms == rest.forms);
        }
    }
}

proof fn forms_from_placed(b: Seq<u8>, t: Seq<SpannedTokenView>, p: int)
    requires
        tokens_of_text(b, t),
        0 <= p <= t.len(),
    ensures
        placed_all(b, forms_from(t, p).0, 0, b.len() as int),
        forall|i: int|
            0 <= i < forms_from(t, p).0.len() && p < t.len() ==> t[p].span.start <= (
            #[trigger] forms_from(t, p).0[i]).span.start,
        p == t.len() ==> forms_from(t, p).0.len() == 0,
    decreases t.len() - p,
{
    if p < t.len() {
        form_at_placed(b, t, p);
        let first = form_at(t, p);
        let all = forms_from(t, p).0;
        forms_from_placed(b, t, first.pos);
        let rest = forms_from(t, first.pos).0;
        match first.node {
            Some(n) => {
                assert(forall|i: int| 0 < i < all.len() ==> all[i] == rest[i - 1]);
            },
            None => {
                assert(all == rest);
            },
        }
    }
}

} // verus!
