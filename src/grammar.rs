use vstd::prelude::*;

use crate::ast::{CommandAstBody, Node};
use crate::lexer::{Lexeme, Token};

verus! {

/// The kind of a node of a syntax tree, as the grammar sees it.
pub enum Kind {
    Call,
    Declare,
    FnArguments,
    Block,
    CallArguments,
    Literal(Token),
    Ident,
    Closure,
    Assignation,
    Pipe,
    Comma,
}

/// A syntax tree as the grammar gives it: kinds, texts and shape.
pub struct Tree {
    pub kind: Kind,
    pub text: Seq<char>,
    pub left: Option<Box<Tree>>,
    pub right: Option<Box<Tree>>,
}

/// What a parse gives: a tree and the position after it, or a failure that
/// is `NoData` (`true`: no term where one was wanted) or a parse error (`false`).
pub type Parsed = Result<(Tree, int), bool>;

/// What parsing one term gives: maybe a tree, and the position after it.
pub type ParsedTerm = Result<(Option<Tree>, int), bool>;

pub open spec fn kind_of(b: CommandAstBody) -> Kind {
    match b {
        CommandAstBody::Call => Kind::Call,
        CommandAstBody::Declare => Kind::Declare,
        CommandAstBody::FnArguments => Kind::FnArguments,
        CommandAstBody::Block => Kind::Block,
        CommandAstBody::CallArguments => Kind::CallArguments,
        CommandAstBody::Literal { token, value } => Kind::Literal(token),
        CommandAstBody::Ident { span } => Kind::Ident,
        CommandAstBody::Closure => Kind::Closure,
        CommandAstBody::Assignation => Kind::Assignation,
        CommandAstBody::Pipe => Kind::Pipe,
        CommandAstBody::Comma => Kind::Comma,
    }
}

pub open spec fn text_of(b: CommandAstBody) -> Seq<char> {
    match b {
        CommandAstBody::Literal { token, value } => value@,
        CommandAstBody::Ident { span } => span@,
        _ => Seq::empty(),
    }
}

/// The grammar's view of a syntax tree.
pub open spec fn node_view(n: Node) -> Tree
    decreases n,
{
    Tree {
        kind: kind_of(n.0.content),
        text: text_of(n.0.content),
        left: match n.0.left {
            Some(l) => Some(Box::new(node_view(l))),
            None => None,
        },
        right: match n.0.right {
            Some(r) => Some(Box::new(node_view(r))),
            None => None,
        },
    }
}

/// The grammar's view of what a parse function returned.
pub open spec fn parsed_of(r: Result<(Node, usize), crate::error::Error>) -> Parsed {
    match r {
        Ok((n, p)) => Ok((node_view(n), p as int)),
        Err(e) => Err(e is NoData),
    }
}

/// The grammar's view of what a term parse function returned.
pub open spec fn term_of(r: Result<(Option<Node>, usize), crate::error::Error>) -> ParsedTerm {
    match r {
        Ok((Some(n), p)) => Ok((Some(node_view(n)), p as int)),
        Ok((None, p)) => Ok((None, p as int)),
        Err(e) => Err(e is NoData),
    }
}

pub open spec fn leaf(kind: Kind, text: Seq<char>) -> Tree {
    Tree { kind, text, left: None, right: None }
}

pub open spec fn branch(kind: Kind, left: Option<Tree>, right: Option<Tree>) -> Tree {
    Tree {
        kind,
        text: Seq::empty(),
        left: match left {
            Some(l) => Some(Box::new(l)),
            None => None,
        },
        right: match right {
            Some(r) => Some(Box::new(r)),
            None => None,
        },
    }
}

/// `v` with `x` at the end of its chain of left children.
pub open spec fn append_left_view(v: Tree, x: Tree) -> Tree
    decreases v,
{
    match v.left {
        Some(l) => Tree { left: Some(Box::new(append_left_view(*l, x))), ..v },
        None => Tree { left: Some(Box::new(x)), ..v },
    }
}

/// `v` with `x` at the end of its chain of right children.
pub open spec fn append_right_view(v: Tree, x: Tree) -> Tree
    decreases v,
{
    match v.right {
        Some(r) => Tree { right: Some(Box::new(append_right_view(*r, x))), ..v },
        None => Tree { right: Some(Box::new(x)), ..v },
    }
}

/// The token at `k`, if there is one.
pub open spec fn tok(toks: Seq<Lexeme>, k: int) -> Option<Token> {
    if 0 <= k < toks.len() {
        Some(toks[k].token)
    } else {
        None
    }
}

/// The text of the lexeme at `k`.
pub open spec fn word(toks: Seq<Lexeme>, text: Seq<char>, k: int) -> Seq<char> {
    text.subrange(toks[k].start as int, toks[k].end as int)
}

/// `left = right`: a declaration, or a bare name (a call of an identifier
/// without arguments) whose identifier becomes the target.
pub open spec fn assign_view(left: Tree, right: Tree) -> Result<Tree, bool> {
    if left.kind is Declare {
        Ok(branch(Kind::Assignation, Some(left), Some(right)))
    } else if left.kind is Call && left.left is None && left.right is Some && left.right->Some_0.kind is Ident {
        Ok(Tree { kind: Kind::Assignation, text: Seq::empty(), left: left.right, right: Some(Box::new(right)) })
    } else {
        Err(false)
    }
}

/// A name `ident (. ident)*` whose first identifier is at `pos`.
pub open spec fn ident_view(toks: Seq<Lexeme>, text: Seq<char>, pos: int) -> Parsed {
    ident_rest(toks, text, leaf(Kind::Ident, word(toks, text, pos)), pos + 1, false)
}

pub open spec fn ident_rest(toks: Seq<Lexeme>, text: Seq<char>, main: Tree, p: int, expect: bool) -> Parsed
    decreases toks.len() - p,
{
    if p < 0 || p >= toks.len() {
        Ok((main, p))
    } else if toks[p].token == Token::Deref {
        ident_rest(toks, text, main, p + 1, true)
    } else if toks[p].token == Token::Ident {
        if expect {
            ident_rest(toks, text, append_left_view(main, leaf(Kind::Ident, word(toks, text, p))), p + 1, false)
        } else {
            Err(false)
        }
    } else {
        Ok((main, p))
    }
}

/// An expression from `pos`.
pub open spec fn parse_view(toks: Seq<Lexeme>, text: Seq<char>, pos: int, scoped: bool) -> Parsed
    decreases toks.len() - pos, 5int,
{
    match term_view(toks, text, pos) {
        Err(e) => Err(e),
        Ok((None, _)) => Err(true),
        Ok((Some(root), p)) => if pos < p <= toks.len() {
            rest_view(toks, text, root, p, scoped)
        } else {
            Err(false)
        },
    }
}

/// The rest of an expression after `prev`, from `p`.
pub open spec fn rest_view(toks: Seq<Lexeme>, text: Seq<char>, prev: Tree, p: int, scoped: bool) -> Parsed
    decreases toks.len() - p, 5int,
{
    if p < 0 || p >= toks.len() {
        Ok((prev, p))
    } else {
        let t = toks[p].token;
        if t == Token::Pipe {
            match term_view(toks, text, p + 1) {
                Err(e) => Err(e),
                Ok((None, _)) => Err(false),
                Ok((Some(right), q)) => if p < q <= toks.len() {
                    rest_view(toks, text, branch(Kind::Pipe, Some(prev), Some(right)), q, scoped)
                } else {
                    Err(false)
                },
            }
        } else if t == Token::Assign {
            match term_view(toks, text, p + 1) {
                Err(e) => Err(e),
                Ok((None, _)) => Err(false),
                Ok((Some(right), q)) => match assign_view(prev, right) {
                    Err(e) => Err(e),
                    Ok(n) => if p < q <= toks.len() {
                        rest_view(toks, text, n, q, scoped)
                    } else {
                        Err(false)
                    },
                },
            }
        } else if t == Token::Comma {
            match parse_view(toks, text, p + 1, scoped) {
                Err(e) => Err(e),
                Ok((right, q)) => if p < q <= toks.len() {
                    rest_view(toks, text, branch(Kind::Comma, Some(prev), Some(right)), q, scoped)
                } else {
                    Err(false)
                },
            }
        } else if t == Token::BraceClose && scoped {
            Ok((prev, p + 1))
        } else {
            Err(false)
        }
    }
}

/// One term at `pos`: a literal, a closure, a braced expression, a `let`
/// declaration or a call; none where the lexeme at `pos` starts none.
pub open spec fn term_view(toks: Seq<Lexeme>, text: Seq<char>, pos: int) -> ParsedTerm
    decreases toks.len() - pos, 4int,
{
    if pos < 0 || pos >= toks.len() {
        Ok((None, pos))
    } else {
        let t = toks[pos].token;
        if t == Token::GroupOpen {
            match closure_view(toks, text, pos + 1) {
                Err(e) => Err(e),
                Ok((n, p)) => Ok((Some(n), p)),
            }
        } else if t == Token::BraceOpen {
            match parse_view(toks, text, pos + 1, true) {
                Err(e) => Err(e),
                Ok((n, p)) => Ok((Some(n), p)),
            }
        } else if t == Token::Keyword {
            if tok(toks, pos + 1) == Some(Token::Ident) {
                match ident_view(toks, text, pos + 1) {
                    Err(e) => Err(e),
                    Ok((ident, p)) => if tok(toks, p) == Some(Token::Assign) || tok(toks, p) == Some(
                        Token::Comma,
                    ) {
                        Ok((Some(branch(Kind::Declare, Some(ident), None)), p))
                    } else {
                        Err(false)
                    },
                }
            } else {
                Err(false)
            }
        } else if t == Token::Ident {
            match ident_view(toks, text, pos) {
                Err(e) => Err(e),
                Ok((target, p)) => if pos <= p && tok(toks, p) == Some(Token::GroupOpen) {
                    match arguments_view(toks, text, p + 1, Kind::CallArguments) {
                        Err(e) => Err(e),
                        Ok((args, q)) => if tok(toks, q) == Some(Token::GroupClose) {
                            Ok((Some(branch(Kind::Call, Some(args), Some(target))), q + 1))
                        } else {
                            Err(false)
                        },
                    }
                } else {
                    Ok((Some(branch(Kind::Call, None, Some(target))), p))
                },
            }
        } else if t.spec_is_literal() {
            Ok((Some(leaf(Kind::Literal(t), word(toks, text, pos))), pos + 1))
        } else {
            Ok((None, pos))
        }
    }
}

/// A closure after its `(`: parameters, `)`, `=>`, `{` and a body that may be empty.
pub open spec fn closure_view(toks: Seq<Lexeme>, text: Seq<char>, pos: int) -> Parsed
    decreases toks.len() - pos, 5int,
{
    match arguments_view(toks, text, pos, Kind::FnArguments) {
        Err(e) => Err(e),
        Ok((args, p)) => if pos <= p && tok(toks, p) == Some(Token::GroupClose) && tok(toks, p + 1) == Some(
            Token::Fn,
        ) && tok(toks, p + 2) == Some(Token::BraceOpen) {
            let body: Result<(Option<Tree>, int), bool> = match parse_view(toks, text, p + 3, true) {
                Ok((n, e)) => Ok((Some(n), e)),
                Err(true) => Ok((None, if p + 3 < toks.len() { p + 4 } else { p + 3 })),
                Err(false) => Err(false),
            };
            match body {
                Err(e) => Err(e),
                Ok((b, e)) => Ok((branch(Kind::Closure, Some(args), Some(branch(Kind::Block, b, None))), e)),
            }
        } else {
            Err(false)
        },
    }
}

/// A list of arguments separated by `,`, chained as right children of a
/// node of kind `kind`.
pub open spec fn arguments_view(toks: Seq<Lexeme>, text: Seq<char>, pos: int, kind: Kind) -> Parsed
    decreases toks.len() - pos, 4int,
{
    arguments_rest(toks, text, leaf(kind, Seq::empty()), pos)
}

pub open spec fn arguments_rest(toks: Seq<Lexeme>, text: Seq<char>, root: Tree, p: int) -> Parsed
    decreases toks.len() - p, 3int,
{
    match argument_view(toks, text, p) {
        Err(e) => Err(e),
        Ok((None, q)) => Ok((root, q)),
        Ok((Some(arg), q)) => {
            let next = append_right_view(root, arg);
            if tok(toks, q) == Some(Token::Separator) && p <= q {
                arguments_rest(toks, text, next, q + 1)
            } else {
                Ok((next, q))
            }
        },
    }
}

/// One argument at `pos`: a name, a closure or a literal.
pub open spec fn argument_view(toks: Seq<Lexeme>, text: Seq<char>, pos: int) -> ParsedTerm
    decreases toks.len() - pos, 2int,
{
    if pos < 0 || pos >= toks.len() {
        Ok((None, pos))
    } else {
        let t = toks[pos].token;
        if t == Token::Ident {
            match ident_view(toks, text, pos) {
                Err(e) => Err(e),
                Ok((n, p)) => Ok((Some(n), p)),
            }
        } else if t == Token::GroupOpen {
            match closure_view(toks, text, pos + 1) {
                Err(e) => Err(e),
                Ok((n, p)) => Ok((Some(n), p)),
            }
        } else if t.spec_is_literal() {
            Ok((Some(leaf(Kind::Literal(t), word(toks, text, pos))), pos + 1))
        } else {
            Ok((None, pos))
        }
    }
}

/// The shape the grammar gives each kind of node: a call names an identifier
/// on its right and has call arguments (if any) on its left; an assignment's
/// target is a declaration or an identifier and it has a right side; a
/// closure holds its parameter list and a block; a declaration names an
/// identifier; pipes and sequences have both sides; a literal holds a
/// literal token; an identifier's left children are identifiers.
pub open spec fn tree_wf(t: Tree) -> bool
    decreases t,
{
    &&& match t.kind {
        Kind::Call => (t.right is Some && t.right->Some_0.kind is Ident) && (t.left is Some
            ==> t.left->Some_0.kind is CallArguments),
        Kind::Assignation => (t.left is Some && (t.left->Some_0.kind is Declare || t.left->Some_0.kind is Ident))
            && t.right is Some,
        Kind::Closure => (t.left is Some && t.left->Some_0.kind is FnArguments) && (t.right is Some
            && t.right->Some_0.kind is Block),
        Kind::Declare => t.left is Some && t.left->Some_0.kind is Ident,
        Kind::Pipe => t.left is Some && t.right is Some,
        Kind::Comma => t.left is Some && t.right is Some,
        Kind::Literal(token) => token.spec_is_literal(),
        Kind::Ident => t.left is None || t.left->Some_0.kind is Ident,
        _ => true,
    }
    &&& match t.left {
        Some(l) => tree_wf(*l),
        None => true,
    }
    &&& match t.right {
        Some(r) => tree_wf(*r),
        None => true,
    }
}

/// The grammar's view of a well-formed syntax tree has the grammar's shape.
pub proof fn lemma_view_wf(n: Node)
    requires
        crate::ast::wf_node(n),
    ensures
        tree_wf(node_view(n)),
    decreases n,
{
    match n.0.left {
        Some(l) => lemma_view_wf(l),
        None => {},
    }
    match n.0.right {
        Some(r) => lemma_view_wf(r),
        None => {},
    }
}

} // verus!
