use vstd::prelude::*;
use vstd::string::*;

use crate::error::Error;
use crate::grammar::{
    Kind, append_left_view, append_right_view, argument_view, arguments_rest, arguments_view,
    assign_view, closure_view, ident_rest, ident_view, kind_of, node_view, parse_view, parsed_of,
    rest_view, term_of, term_view,
};
use crate::lexer::{Lexeme, Token, chars_of, lex, tokenize};

verus! {

/// Scope and resolution data attached to every node.
#[derive(Debug, Clone, Copy, PartialEq, Eq, Structural)]
pub struct NodeContext {
    /// The scope the node stands in.
    pub scoop: usize,
    /// For an identifier use, the scope that binds its name.
    pub reference_to: Option<usize>,
}

impl NodeContext {
    /// The context of a node not yet aggregated: the main scope, unresolved.
    pub fn undeterminated() -> (r: NodeContext)
        ensures
            r == (NodeContext { scoop: 1, reference_to: None }),
    {
        NodeContext { scoop: 1, reference_to: None }
    }
}

/// The kind of a syntax node, with the text of literals and identifiers.
#[derive(Debug, Clone, PartialEq, Eq)]
pub enum CommandAstBody {
    Call,
    Declare,
    FnArguments,
    Block,
    CallArguments,
    Literal { token: Token, value: String },
    Ident { span: String },
    Closure,
    Assignation,
    Pipe,
    Comma,
}

/// A syntax node: its kind, its context and up to two children.
#[derive(Debug, PartialEq, Eq)]
pub struct CommandAstNode {
    pub meta: NodeContext,
    pub content: CommandAstBody,
    pub left: Option<Node>,
    pub right: Option<Node>,
}

/// An owned syntax tree.
#[derive(Debug, PartialEq, Eq)]
pub struct Node(pub Box<CommandAstNode>);

impl Default for CommandAstNode {
    fn default() -> (r: CommandAstNode)
        ensures
            r.content == CommandAstBody::Block,
            r.meta == (NodeContext { scoop: 1, reference_to: None }),
            r.left is None,
            r.right is None,
    {
        CommandAstNode {
            content: CommandAstBody::Block,
            meta: NodeContext::undeterminated(),
            left: None,
            right: None,
        }
    }
}

/// `n` is present and an identifier.
pub open spec fn is_ident(n: Option<Node>) -> bool {
    n matches Some(x) && x.0.content is Ident
}

/// The shape the grammar gives each kind of node, throughout the tree: a call
/// names an identifier on its right and has call arguments (if any) on its
/// left; an assignment has a declaration or an identifier on its left and an
/// expression on its right; a closure has its parameter list on its left and
/// a block on its right; a declaration names an identifier; pipes and
/// sequences have both sides; literals hold a literal token; an identifier's
/// left children form a chain of identifiers (`a.b.c`).
pub open spec fn wf_node(n: Node) -> bool
    decreases n,
{
    &&& match n.0.content {
        CommandAstBody::Call => is_ident(n.0.right) && (n.0.left matches Some(a) ==> a.0.content
            is CallArguments),
        CommandAstBody::Assignation => (n.0.left matches Some(l) && (l.0.content is Declare
            || l.0.content is Ident)) && n.0.right is Some,
        CommandAstBody::Closure => (n.0.left matches Some(l) && l.0.content is FnArguments) && (
        n.0.right matches Some(r) && r.0.content is Block),
        CommandAstBody::Declare => is_ident(n.0.left),
        CommandAstBody::Pipe => n.0.left is Some && n.0.right is Some,
        CommandAstBody::Comma => n.0.left is Some && n.0.right is Some,
        CommandAstBody::Literal { token, value } => token.spec_is_literal(),
        CommandAstBody::Ident { span } => n.0.left is None || is_ident(n.0.left),
        _ => true,
    }
    &&& match n.0.left {
        Some(l) => wf_node(l),
        None => true,
    }
    &&& match n.0.right {
        Some(r) => wf_node(r),
        None => true,
    }
}

impl Node {
    pub open spec fn left_wf(&self) -> bool {
        match self.0.left {
            Some(l) => wf_node(l),
            None => true,
        }
    }

    pub open spec fn right_wf(&self) -> bool {
        match self.0.right {
            Some(r) => wf_node(r),
            None => true,
        }
    }

    /// A node of kind `content` with no children.
    pub fn orphan(content: CommandAstBody) -> (r: Node)
        ensures
            r.0.content == content,
            r.0.meta == (NodeContext { scoop: 1, reference_to: None }),
            r.0.left is None,
            r.0.right is None,
    {
        Node(Box::new(CommandAstNode {
            content,
            meta: NodeContext::undeterminated(),
            left: None,
            right: None,
        }))
    }

    /// The declaration of `ident`.
    pub fn declare(ident: Node) -> (r: Node)
        ensures
            r.0.content == CommandAstBody::Declare,
            r.0.left == Some(ident),
            r.0.right is None,
    {
        Node(Box::new(CommandAstNode {
            content: CommandAstBody::Declare,
            meta: NodeContext::undeterminated(),
            left: Some(ident),
            right: None,
        }))
    }

    /// A literal of kind `token` with its source text.
    pub fn literal(token: Token, value: String) -> (r: Node)
        ensures
            r.0.content == (CommandAstBody::Literal { token, value }),
            r.0.left is None,
            r.0.right is None,
    {
        Node(Box::new(CommandAstNode {
            content: CommandAstBody::Literal { token, value },
            meta: NodeContext::undeterminated(),
            left: None,
            right: None,
        }))
    }

    /// An identifier.
    pub fn ident(span: String) -> (r: Node)
        ensures
            r.0.content == (CommandAstBody::Ident { span }),
            r.0.left is None,
            r.0.right is None,
    {
        Node(Box::new(CommandAstNode {
            content: CommandAstBody::Ident { span },
            meta: NodeContext::undeterminated(),
            left: None,
            right: None,
        }))
    }

    /// A closure with parameter list `arguments` and block `body`.
    pub fn closure(arguments: Node, body: Node) -> (r: Node)
        ensures
            r.0.content == CommandAstBody::Closure,
            r.0.left == Some(arguments),
            r.0.right == Some(body),
    {
        Node(Box::new(CommandAstNode {
            content: CommandAstBody::Closure,
            meta: NodeContext::undeterminated(),
            left: Some(arguments),
            right: Some(body),
        }))
    }

    /// `left | right`.
    pub fn pipe(left: Node, right: Node) -> (r: Node)
        ensures
            r.0.content == CommandAstBody::Pipe,
            r.0.left == Some(left),
            r.0.right == Some(right),
    {
        Node(Box::new(CommandAstNode {
            content: CommandAstBody::Pipe,
            meta: NodeContext::undeterminated(),
            left: Some(left),
            right: Some(right),
        }))
    }

    /// A block around `body`.
    pub fn block(body: Option<Node>) -> (r: Node)
        ensures
            r.0.content == CommandAstBody::Block,
            r.0.left == body,
            r.0.right is None,
    {
        Node(Box::new(CommandAstNode {
            content: CommandAstBody::Block,
            meta: NodeContext::undeterminated(),
            left: body,
            right: None,
        }))
    }

    /// `left ; right`.
    pub fn comma(left: Option<Node>, right: Option<Node>) -> (r: Node)
        ensures
            r.0.content == CommandAstBody::Comma,
            r.0.left == left,
            r.0.right == right,
    {
        Node(Box::new(CommandAstNode {
            content: CommandAstBody::Comma,
            meta: NodeContext::undeterminated(),
            left,
            right,
        }))
    }

    /// Hangs `node` at the end of the chain of left children.
    pub fn append_left(&mut self, node: Node)
        requires
            wf_node(*old(self)),
            wf_node(node),
            old(self).0.content is Ident,
            node.0.content is Ident,
        ensures
            wf_node(*final(self)),
            final(self).0.content == old(self).0.content,
            final(self).0.right == old(self).0.right,
            final(self).0.meta == old(self).0.meta,
            node_view(*final(self)) == append_left_view(node_view(*old(self)), node_view(node)),
    {
        let taken = self.0.left.take();
        let next = match taken {
            Some(left) => appended_left(left, node),
            None => node,
        };
        self.0.left = Some(next);
    }

    /// Hangs `node` at the end of the chain of right children.
    pub fn append_right(&mut self, node: Node)
        requires
            wf_node(*old(self)),
            wf_node(node),
            old(self).0.content is CallArguments || old(self).0.content is FnArguments,
        ensures
            wf_node(*final(self)),
            final(self).0.content == old(self).0.content,
            final(self).0.left == old(self).0.left,
            final(self).0.meta == old(self).0.meta,
            node_view(*final(self)) == append_right_view(node_view(*old(self)), node_view(node)),
    {
        let taken = self.0.right.take();
        let next = match taken {
            Some(right) => appended_right(right, node),
            None => node,
        };
        self.0.right = Some(next);
    }
}

/// `n` with `node` hung at the end of its chain of left children.
fn appended_left(n: Node, node: Node) -> (r: Node)
    requires
        wf_node(n),
        wf_node(node),
        n.0.content is Ident,
        node.0.content is Ident,
    ensures
        wf_node(r),
        r.0.content == n.0.content,
        r.0.right == n.0.right,
        r.0.meta == n.0.meta,
        node_view(r) == append_left_view(node_view(n), node_view(node)),
    decreases n,
{
    let Node(b) = n;
    let CommandAstNode { meta, content, left, right } = *b;
    let next = match left {
        Some(l) => appended_left(l, node),
        None => node,
    };
    Node(Box::new(CommandAstNode { meta, content, left: Some(next), right }))
}

/// `n` with `node` hung at the end of its chain of right children.
fn appended_right(n: Node, node: Node) -> (r: Node)
    requires
        wf_node(n),
        wf_node(node),
    ensures
        wf_node(r),
        r.0.content == n.0.content,
        r.0.left == n.0.left,
        r.0.meta == n.0.meta,
        node_view(r) == append_right_view(node_view(n), node_view(node)),
    decreases n,
{
    let Node(b) = n;
    let CommandAstNode { meta, content, left, right } = *b;
    let next = match right {
        Some(l) => appended_right(l, node),
        None => node,
    };
    Node(Box::new(CommandAstNode { meta, content, left, right: Some(next) }))
}


/// Relies on `FromIterator<char>` for `String`: the string holds the
/// characters in order.
#[verifier::external_body]
pub(crate) fn string_of(v: &Vec<char>) -> (r: String)
    ensures
        r@ == v@,
{
    v.iter().collect()
}

/// A parse error at the characters `[start, end)`.
fn parsing(msg: &str, start: usize, end: usize) -> (r: Error)
    ensures
        r == Error::Parsing(r->Parsing_0, start, end),
        r->Parsing_0@ == msg@,
{
    Error::Parsing(String::from_str(msg), start, end)
}

/// The program text as characters and the lexemes read from it.
pub struct TokenStream {
    chars: Vec<char>,
    lexemes: Vec<Lexeme>,
}

impl TokenStream {
    /// The program text.
    pub closed spec fn text(&self) -> Seq<char> {
        self.chars@
    }

    /// The lexemes, in order.
    pub closed spec fn view(&self) -> Seq<Lexeme> {
        self.lexemes@
    }

    /// Positions a few lexemes past the end still fit in `usize`.
    pub closed spec fn wf(&self) -> bool {
        &&& self.lexemes@.len() + 4 <= usize::MAX
        &&& forall|k: int|
            0 <= k < self.lexemes@.len() ==> (#[trigger] self.lexemes@[k]).start
                < self.lexemes@[k].end <= self.chars@.len()
    }

    /// Reads the lexemes of `text`.
    pub fn new(text: &str) -> (r: TokenStream)
        requires
            text@.len() + 4 <= usize::MAX,
        ensures
            r.wf(),
            r.text() == text@,
            r@ == lex(text@, 0),
    {
        let chars = chars_of(text);
        let lexemes = tokenize(&chars);
        proof {
            crate::lexer::lemma_lex_len(chars@, 0);
            crate::lexer::lemma_lex_spans(chars@, 0);
        }
        TokenStream { chars, lexemes }
    }

    /// The number of lexemes.
    pub fn len(&self) -> (r: usize)
        ensures
            r == self@.len(),
    {
        self.lexemes.len()
    }

    /// The token at `pos`, if there is one.
    pub fn peek(&self, pos: usize) -> (r: Option<Token>)
        ensures
            pos < self@.len() ==> r == Some(self@[pos as int].token),
            pos >= self@.len() ==> r is None,
    {
        if pos < self.lexemes.len() {
            Some(self.lexemes[pos].token)
        } else {
            None
        }
    }

    /// The source text of the lexeme at `pos`.
    pub fn slice(&self, pos: usize) -> (r: String)
        requires
            self.wf(),
            pos < self@.len(),
        ensures
            r@ == self.text().subrange(self@[pos as int].start as int, self@[pos as int].end as int),
    {
        let l = self.lexemes[pos];
        let mut v: Vec<char> = Vec::new();
        if l.start <= l.end && l.end <= self.chars.len() {
            let mut i = l.start;
            while i < l.end
                invariant
                    l.start <= i <= l.end <= self.chars@.len(),
                    v@ == self.chars@.subrange(l.start as int, i as int),
                decreases l.end - i,
            {
                v.push(self.chars[i]);
                i = i + 1;
                proof {
                    assert(v@ =~= self.chars@.subrange(l.start as int, i as int));
                }
            }
        }
        string_of(&v)
    }

    /// The character range of the lexeme at `pos`, or an empty range at the end.
    pub fn span(&self, pos: usize) -> (r: (usize, usize))
        requires
            self.wf(),
        ensures
            r.0 <= r.1 <= self.text().len(),
            pos >= self@.len() ==> r == (self.text().len() as usize, self.text().len() as usize),
            pos < self@.len() ==> r == (self@[pos as int].start, self@[pos as int].end),
    {
        if pos < self.lexemes.len() {
            (self.lexemes[pos].start, self.lexemes[pos].end)
        } else {
            (self.chars.len(), self.chars.len())
        }
    }

    /// A parse error's range lies within the text.
    pub open spec fn spans_text(&self, e: Error) -> bool {
        e is Parsing ==> e->Parsing_1 <= e->Parsing_2 <= self.text().len()
    }
}

impl CommandAstBody {
    /// A copy.
    pub fn duplicate(&self) -> (r: CommandAstBody)
        ensures
            r == *self,
    {
        match self {
            CommandAstBody::Call => CommandAstBody::Call,
            CommandAstBody::Declare => CommandAstBody::Declare,
            CommandAstBody::FnArguments => CommandAstBody::FnArguments,
            CommandAstBody::Block => CommandAstBody::Block,
            CommandAstBody::CallArguments => CommandAstBody::CallArguments,
            CommandAstBody::Literal { token, value } => CommandAstBody::Literal { token: *token, value: value.clone() },
            CommandAstBody::Ident { span } => CommandAstBody::Ident { span: span.clone() },
            CommandAstBody::Closure => CommandAstBody::Closure,
            CommandAstBody::Assignation => CommandAstBody::Assignation,
            CommandAstBody::Pipe => CommandAstBody::Pipe,
            CommandAstBody::Comma => CommandAstBody::Comma,
        }
    }
}

impl Node {
    /// A deep copy.
    pub fn duplicate(&self) -> (r: Node)
        ensures
            r == *self,
        decreases self,
    {
        let left = match &self.0.left {
            Some(l) => Some(l.duplicate()),
            None => None,
        };
        let right = match &self.0.right {
            Some(x) => Some(x.duplicate()),
            None => None,
        };
        Node(Box::new(CommandAstNode { meta: self.0.meta, content: self.0.content.duplicate(), left, right }))
    }

    /// The name of a resolved identifier and the scope that binds it.
    pub fn reference(&self) -> (r: (String, usize))
        requires
            self.0.content is Ident,
            self.0.meta.reference_to is Some,
        ensures
            r.0@ == self.0.content->Ident_span@,
            r.1 == self.0.meta.reference_to->Some_0,
    {
        let scope = match self.0.meta.reference_to {
            Some(s) => s,
            None => 0,
        };
        (String::from_str(self.span()), scope)
    }

    /// `left = right`, where `left` is a declaration or a bare name (a call of
    /// an identifier with no arguments); anything else is a parse error.
    pub fn assignation(left: Node, right: Node) -> (r: Result<Node, Error>)
        requires
            wf_node(left),
            wf_node(right),
        ensures
            r is Ok <==> (left.0.content is Declare || (left.0.content is Call && is_ident(
                left.0.right) && left.0.left is None)),
            r matches Ok(n) ==> wf_node(n) && n.0.content is Assignation && n.0.right == Some(
                right) && (left.0.content is Declare ==> n.0.left == Some(left)) && (
            left.0.content is Call ==> n.0.left == left.0.right),
            r matches Err(e) ==> e is Parsing && e->Parsing_1 == 0 && e->Parsing_2 == 0,
            r is Ok ==> assign_view(node_view(left), node_view(right)) == Ok::<crate::grammar::Tree, bool>(node_view(r->Ok_0)),
            r is Err ==> assign_view(node_view(left), node_view(right)) == Err::<crate::grammar::Tree, bool>(false),
    {
        let ghost lv = node_view(left);
        let ghost right_copy = right;
        let Node(b) = left;
        let CommandAstNode { meta, content, left: old_left, right: old_right } = *b;
        match content {
            CommandAstBody::Declare => {
                let declared = Node(Box::new(CommandAstNode { meta, content: CommandAstBody::Declare, left: old_left, right: old_right }));
                let ghost dv = node_view(declared);
                let ghost rv = node_view(right);
                let n = Node(Box::new(CommandAstNode {
                    content: CommandAstBody::Assignation,
                    meta: NodeContext::undeterminated(),
                    left: Some(declared),
                    right: Some(right),
                }));
                proof {
                    assert(dv.kind is Declare);
                    assert(node_view(n) == crate::grammar::branch(Kind::Assignation, Some(dv), Some(rv)));
                    assert(assign_view(lv, rv) == Ok::<crate::grammar::Tree, bool>(crate::grammar::branch(Kind::Assignation, Some(dv), Some(rv))));
                }
                Ok(n)
            },
            CommandAstBody::Call => {
                let bare = match (&old_left, &old_right) {
                    (None, Some(target)) => match &target.0.content {
                        CommandAstBody::Ident { .. } => true,
                        _ => false,
                    },
                    _ => false,
                };
                if bare {
                    let ghost target = old_right->Some_0;
                    let n = Node(Box::new(CommandAstNode {
                        content: CommandAstBody::Assignation,
                        meta: NodeContext::undeterminated(),
                        left: old_right,
                        right: Some(right),
                    }));
                    proof {
                        assert(lv.left is None);
                        assert(lv.right == Some(Box::new(node_view(target))));
                        assert(node_view(target).kind is Ident);
                        assert(node_view(n) == crate::grammar::Tree {
                            kind: Kind::Assignation,
                            text: Seq::empty(),
                            left: lv.right,
                            right: Some(Box::new(node_view(right_copy))),
                        });
                    }
                    Ok(n)
                } else {
                    Err(parsing("Expected expression after assignation", 0, 0))
                }
            },
            _ => Err(parsing("Expected expression after assignation", 0, 0)),
        }
    }

    /// The name of an identifier node.
    pub fn span(&self) -> (r: &str)
        requires
            self.0.content is Ident,
        ensures
            r@ == self.0.content->Ident_span@,
    {
        match &self.0.content {
            CommandAstBody::Ident { span } => span.as_str(),
            _ => "",
        }
    }
}


/// Whether a term can start with `t`: a literal, `(`, `{`, `let` or a name.
pub open spec fn starts_term(t: Token) -> bool {
    t.spec_is_literal() || t == Token::GroupOpen || t == Token::BraceOpen || t == Token::Keyword
        || t == Token::Ident
}

impl CommandAstNode {
    /// Parses an expression from lexeme `pos`: a first term, then any run of
    /// `| term`, `= term` and `; expression`; a scoped parse (inside braces)
    /// ends after its `}`. Gives the expression and the position after it;
    /// `NoData` where no term starts at `pos`.
    pub fn parse(lx: &TokenStream, pos: usize, scoped: bool) -> (r: Result<(Node, usize), Error>)
        requires
            lx.wf(),
            pos <= lx@.len(),
        ensures
            parse_view(lx@, lx.text(), pos as int, scoped) is Ok ==> crate::grammar::tree_wf(parse_view(lx@, lx.text(), pos as int, scoped)->Ok_0.0),
            r matches Err(e) ==> lx.spans_text(e),
            r matches Err(e) ==> e is Parsing || e is NoData,
            r matches Ok((n, p)) ==> wf_node(n) && pos < p <= lx@.len(),
            r matches Ok((n, p)) ==> p == lx@.len() || (scoped && lx@[p - 1].token == Token::BraceClose),
            pos == lx@.len() ==> r == Err::<(Node, usize), Error>(Error::NoData),
            parsed_of(r) == parse_view(lx@, lx.text(), pos as int, scoped),
        decreases lx@.len() - pos, 3nat,
    {
        let (root, first_end) = match CommandAstNode::parse_one(lx, pos) {
            Ok(x) => x,
            Err(e) => {
                return Err(e);
            },
        };
        let mut prev = match root {
            Some(n) => n,
            None => {
                return Err(Error::NoData);
            },
        };
        let mut p = first_end;
        loop
            invariant
                lx.wf(),
                wf_node(prev),
                pos < p <= lx@.len(),
                rest_view(lx@, lx.text(), node_view(prev), p as int, scoped) == parse_view(
                    lx@,
                    lx.text(),
                    pos as int,
                    scoped,
                ),
            decreases lx@.len() - p,
        {
            match lx.peek(p) {
                Some(Token::Pipe) => {
                    match CommandAstNode::parse_one(lx, p + 1) {
                        Ok((Some(right), q)) => {
                            prev = Node::pipe(prev, right);
                            p = q;
                        },
                        Ok((None, _)) => {
                            return Err(parsing("Expected token after pipe", 0, 0));
                        },
                        Err(e) => {
                            return Err(e);
                        },
                    }
                },
                Some(Token::Assign) => {
                    match CommandAstNode::parse_one(lx, p + 1) {
                        Ok((Some(right), q)) => {
                            match Node::assignation(prev, right) {
                                Ok(n) => {
                                    prev = n;
                                },
                                Err(e) => {
                                    return Err(e);
                                },
                            }
                            p = q;
                        },
                        Ok((None, q)) => {
                            let (a, b) = lx.span(q);
                            return Err(parsing("Expected expression after assignation", a, b));
                        },
                        Err(e) => {
                            return Err(e);
                        },
                    }
                },
                Some(Token::Comma) => {
                    match CommandAstNode::parse(lx, p + 1, scoped) {
                        Ok((right, q)) => {
                            prev = Node::comma(Some(prev), Some(right));
                            p = q;
                        },
                        Err(e) => {
                            return Err(e);
                        },
                    }
                },
                Some(Token::BraceClose) => {
                    if scoped {
                        proof {
                            crate::grammar::lemma_view_wf(prev);
                        }
                        return Ok((prev, p + 1));
                    } else {
                        let (a, b) = lx.span(p);
                        return Err(parsing("Unexpected token", a, b));
                    }
                },
                Some(_) => {
                    let (a, b) = lx.span(p);
                    return Err(parsing("Unexpected token", a, b));
                },
                None => {
                    proof {
                        crate::grammar::lemma_view_wf(prev);
                    }
                    return Ok((prev, p));
                },
            }
        }
    }

    /// Parses one term at `pos`: a literal, a closure, a braced expression, a
    /// `let` declaration or a call. Gives `None` and `pos` where the lexeme at
    /// `pos` starts none.
    pub fn parse_one(lx: &TokenStream, pos: usize) -> (r: Result<(Option<Node>, usize), Error>)
        requires
            lx.wf(),
            pos <= lx@.len(),
        ensures
            r matches Err(e) ==> lx.spans_text(e),
            r matches Err(e) ==> e is Parsing || e is NoData,
            r matches Ok((Some(n), p)) ==> wf_node(n) && pos < p <= lx@.len(),
            r matches Ok((None, p)) ==> p == pos,
            pos == lx@.len() ==> r == Ok::<(Option<Node>, usize), Error>((None, pos)),
            pos < lx@.len() && lx@[pos as int].token.spec_is_literal() ==> (r is Ok && r->Ok_0.1 == pos + 1
                && r->Ok_0.0 is Some && r->Ok_0.0->Some_0.0.content is Literal
                && r->Ok_0.0->Some_0.0.content->Literal_token == lx@[pos as int].token
                && r->Ok_0.0->Some_0.0.content->Literal_value@ == lx.text().subrange(
                    lx@[pos as int].start as int,
                    lx@[pos as int].end as int,
                )),
            pos < lx@.len() && !starts_term(lx@[pos as int].token) ==> r == Ok::<(Option<Node>, usize), Error>((None, pos)),
            pos < lx@.len() && lx@[pos as int].token == Token::Ident && r is Ok ==> (r->Ok_0.0 is Some
                && r->Ok_0.0->Some_0.0.content is Call
                && r->Ok_0.0->Some_0.0.right is Some
                && r->Ok_0.0->Some_0.0.right->Some_0.0.content->Ident_span@ == lx.text().subrange(
                    lx@[pos as int].start as int,
                    lx@[pos as int].end as int,
                )),
            pos < lx@.len() && lx@[pos as int].token == Token::Keyword && r is Ok ==> (r->Ok_0.0 is Some
                && r->Ok_0.0->Some_0.0.content is Declare),
            pos < lx@.len() && lx@[pos as int].token == Token::GroupOpen && r is Ok ==> (r->Ok_0.0 is Some
                && r->Ok_0.0->Some_0.0.content is Closure),
            term_of(r) == term_view(lx@, lx.text(), pos as int),
        decreases lx@.len() - pos, 2nat,
    {
        match lx.peek(pos) {
            None => Ok((None, pos)),
            Some(Token::GroupOpen) => {
                match CommandAstNode::parse_closure(lx, pos + 1) {
                    Ok((n, p)) => Ok((Some(n), p)),
                    Err(e) => Err(e),
                }
            },
            Some(Token::BraceOpen) => {
                match CommandAstNode::parse(lx, pos + 1, true) {
                    Ok((n, p)) => Ok((Some(n), p)),
                    Err(e) => Err(e),
                }
            },
            Some(Token::Keyword) => {
                match lx.peek(pos + 1) {
                    Some(Token::Ident) => {
                        let (ident, p) = match CommandAstNode::parse_ident(lx, pos + 1) {
                            Ok(x) => x,
                            Err(e) => {
                                return Err(e);
                            },
                        };
                        match lx.peek(p) {
                            Some(Token::Assign) | Some(Token::Comma) => {
                                Ok((Some(Node::declare(ident)), p))
                            },
                            _ => {
                                let (a, b) = lx.span(p);
                                Err(parsing("Expected identifier after let keyword", a, b))
                            },
                        }
                    },
                    _ => {
                        let (a, b) = lx.span(pos + 1);
                        Err(parsing("Expected identifier after let keyword", a, b))
                    },
                }
            },
            Some(Token::Ident) => {
                let (target, p) = match CommandAstNode::parse_ident(lx, pos) {
                    Ok(x) => x,
                    Err(e) => {
                        return Err(e);
                    },
                };
                let mut node = Node::orphan(CommandAstBody::Call);
                node.0.right = Some(target);
                match lx.peek(p) {
                    Some(Token::GroupOpen) => {
                        let (arguments, q) = match CommandAstNode::parse_arguments(
                            lx,
                            p + 1,
                            CommandAstBody::CallArguments,
                        ) {
                            Ok(x) => x,
                            Err(e) => {
                                return Err(e);
                            },
                        };
                        match lx.peek(q) {
                            Some(Token::GroupClose) => {
                                node.0.left = Some(arguments);
                                Ok((Some(node), q + 1))
                            },
                            _ => {
                                let (a, b) = lx.span(q);
                                Err(parsing("Expected `)` after call", a, b))
                            },
                        }
                    },
                    _ => Ok((Some(node), p)),
                }
            },
            Some(t) => {
                if t.is_literal() {
                    Ok((Some(Node::literal(t, lx.slice(pos))), pos + 1))
                } else {
                    Ok((None, pos))
                }
            },
        }
    }

    /// Parses a closure after its `(`: a parameter list, `)`, `=>`, `{`, and a
    /// body that may be empty.
    pub fn parse_closure(lx: &TokenStream, pos: usize) -> (r: Result<(Node, usize), Error>)
        requires
            lx.wf(),
            pos <= lx@.len(),
        ensures
            r matches Err(e) ==> lx.spans_text(e),
            r matches Err(e) ==> e is Parsing || e is NoData,
            r matches Ok((n, p)) ==> wf_node(n) && n.0.content is Closure && pos < p
                <= lx@.len(),
            parsed_of(r) == closure_view(lx@, lx.text(), pos as int),
        decreases lx@.len() - pos, 3nat,
    {
        let (arguments, p) = match CommandAstNode::parse_arguments(
            lx,
            pos,
            CommandAstBody::FnArguments,
        ) {
            Ok(x) => x,
            Err(e) => {
                return Err(e);
            },
        };
        match lx.peek(p) {
            Some(Token::GroupClose) => {},
            _ => {
                let (a, b) = lx.span(p);
                return Err(parsing("Expected `)` after closure arguments list", a, b));
            },
        }
        match (lx.peek(p + 1), lx.peek(p + 2)) {
            (Some(Token::Fn), Some(Token::BraceOpen)) => {},
            _ => {
                let (a, b) = lx.span(p + 1);
                return Err(parsing("Expected `=>`", a, b));
            },
        }
        let ghost args_view = node_view(arguments);
        let ghost body_parse = parse_view(lx@, lx.text(), p + 3, true);
        let (body, end) = match CommandAstNode::parse(lx, p + 3, true) {
            Ok((n, e)) => (Some(n), e),
            Err(Error::NoData) => {
                if p + 3 < lx.len() {
                    (None, p + 4)
                } else {
                    (None, p + 3)
                }
            },
            Err(e) => {
                return Err(e);
            },
        };
        let ghost body_view: Option<crate::grammar::Tree> = if body is Some {
            Some(node_view(body->Some_0))
        } else {
            None
        };
        proof {
            assert(body_parse matches Ok((n, e)) ==> body_view == Some(n) && end == e);
            assert(body_parse == Err::<(crate::grammar::Tree, int), bool>(true) ==> body_view is None && end == (if p + 3 < lx@.len() { p + 4 } else { p + 3 }));
        }
        let scope = Node::block(body);
        assert(wf_node(scope));
        assert(node_view(scope) == crate::grammar::branch(Kind::Block, body_view, None));
        let closure = Node::closure(arguments, scope);
        assert(wf_node(closure));
        assert(node_view(closure) == crate::grammar::branch(
            Kind::Closure,
            Some(args_view),
            Some(crate::grammar::branch(Kind::Block, body_view, None)),
        ));
        Ok((closure, end))
    }

    /// Parses a list of arguments separated by `,` into a node of kind `body`
    /// whose right children chain the arguments; stops before the first
    /// lexeme that continues no list.
    pub fn parse_arguments(lx: &TokenStream, pos: usize, body: CommandAstBody) -> (r: Result<
        (Node, usize),
        Error,
    >)
        requires
            lx.wf(),
            pos <= lx@.len(),
            body is CallArguments || body is FnArguments,
        ensures
            r matches Err(e) ==> lx.spans_text(e),
            r matches Err(e) ==> e is Parsing || e is NoData,
            r matches Ok((n, p)) ==> wf_node(n) && n.0.content == body && pos <= p <= lx@.len(),
            parsed_of(r) == arguments_view(lx@, lx.text(), pos as int, kind_of(body)),
        decreases lx@.len() - pos, 2nat,
    {
        let mut root = Node::orphan(body);
        let mut p = pos;
        loop
            invariant
                lx.wf(),
                pos <= p <= lx@.len(),
                wf_node(root),
                root.0.content == body,
                body is CallArguments || body is FnArguments,
                arguments_rest(lx@, lx.text(), node_view(root), p as int) == arguments_view(
                    lx@,
                    lx.text(),
                    pos as int,
                    kind_of(body),
                ),
            decreases lx@.len() - p,
        {
            match CommandAstNode::parse_one_argument(lx, p) {
                Ok((Some(argument), q)) => {
                    root.append_right(argument);
                    match lx.peek(q) {
                        Some(Token::Separator) => {
                            p = q + 1;
                        },
                        _ => {
                            return Ok((root, q));
                        },
                    }
                },
                Ok((None, q)) => {
                    return Ok((root, q));
                },
                Err(e) => {
                    return Err(e);
                },
            }
        }
    }

    /// Parses one argument at `pos`: a name, a closure or a literal.
    fn parse_one_argument(lx: &TokenStream, pos: usize) -> (r: Result<(Option<Node>, usize), Error>)
        requires
            lx.wf(),
            pos <= lx@.len(),
        ensures
            r matches Err(e) ==> lx.spans_text(e),
            r matches Err(e) ==> e is Parsing || e is NoData,
            r matches Ok((Some(n), p)) ==> wf_node(n) && pos < p <= lx@.len(),
            r matches Ok((None, p)) ==> p == pos,
            term_of(r) == argument_view(lx@, lx.text(), pos as int),
        decreases lx@.len() - pos, 1nat,
    {
        match lx.peek(pos) {
            Some(Token::Ident) => {
                match CommandAstNode::parse_ident(lx, pos) {
                    Ok((n, p)) => Ok((Some(n), p)),
                    Err(e) => Err(e),
                }
            },
            Some(Token::GroupOpen) => {
                match CommandAstNode::parse_closure(lx, pos + 1) {
                    Ok((n, p)) => Ok((Some(n), p)),
                    Err(e) => Err(e),
                }
            },
            Some(t) => {
                if t.is_literal() {
                    Ok((Some(Node::literal(t, lx.slice(pos))), pos + 1))
                } else {
                    Ok((None, pos))
                }
            },
            None => Ok((None, pos)),
        }
    }

    /// Parses a name `ident (. ident)*` whose first identifier is at `pos`;
    /// the later parts hang as left children. Two names in a row without a
    /// `.` between them are a parse error at the second one.
    pub fn parse_ident(lx: &TokenStream, pos: usize) -> (r: Result<(Node, usize), Error>)
        requires
            lx.wf(),
            pos < lx@.len(),
            lx@[pos as int].token == Token::Ident,
        ensures
            r matches Err(e) ==> lx.spans_text(e),
            r matches Ok((n, p)) ==> wf_node(n) && n.0.content is Ident && pos < p <= lx@.len(),
            r matches Ok((n, p)) ==> n.0.content->Ident_span@ == lx.text().subrange(
                lx@[pos as int].start as int,
                lx@[pos as int].end as int,
            ),
            r matches Err(e) ==> e is Parsing && exists|k: int| pos < k < lx@.len() && lx@[k].token
                == Token::Ident && e->Parsing_1 == lx@[k].start && e->Parsing_2 == lx@[k].end,
            parsed_of(r) == ident_view(lx@, lx.text(), pos as int),
    {
        let mut main = Node::ident(lx.slice(pos));
        let mut p = pos + 1;
        let mut expect_ident = false;
        while p < lx.len()
            invariant
                lx.wf(),
                pos < p <= lx@.len(),
                wf_node(main),
                main.0.content is Ident,
                main.0.content->Ident_span@ == lx.text().subrange(
                    lx@[pos as int].start as int,
                    lx@[pos as int].end as int,
                ),
                ident_rest(lx@, lx.text(), node_view(main), p as int, expect_ident) == ident_view(
                    lx@,
                    lx.text(),
                    pos as int,
                ),
            decreases lx@.len() - p,
        {
            match lx.peek(p) {
                Some(Token::Deref) => {
                    expect_ident = true;
                },
                Some(Token::Ident) => {
                    if expect_ident {
                        main.append_left(Node::ident(lx.slice(p)));
                        expect_ident = false;
                    } else {
                        let (a, b) = lx.span(p);
                        return Err(parsing("Unexpected identifier", a, b));
                    }
                },
                _ => {
                    return Ok((main, p));
                },
            }
            p = p + 1;
        }
        Ok((main, p))
    }
}

} // verus!
