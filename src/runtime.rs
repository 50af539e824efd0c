use vstd::prelude::*;

use crate::aggregator::{AstContext, Builtin, RuntimeValue, ident_resolved, name_of};
use crate::ast::{CommandAstBody, CommandAstNode, Node, string_of};
use crate::lexer::{Token, chars_of};
use crate::error::Error;
use crate::interpretor::ProgramIdentifier;

verus! {

/// Channel capacity between the stages of a pipe or an assignment.
pub const CHANN_SIZE_PIPLINE: usize = 512;

/// Channel capacity of a program's output.
pub const CHANN_SIZE_MAIN: usize = 2048;

/// Channel capacity of a listener.
pub const CHANN_SIZE_LISTENER: usize = 1024;

/// A running program, as the reactor knows it.
#[derive(Debug, Clone, Copy, PartialEq, Eq, Structural)]
pub struct ProgramRuntime {
    pub id: ProgramIdentifier,
}

/// What a call runs.
#[derive(Debug, PartialEq, Eq)]
pub enum CallTarget {
    /// A built-in command.
    Native(Builtin),
    /// The body of a closure (absent where the closure's block is empty).
    Procedure(Option<Node>),
}

impl ProgramRuntime {
    /// What the call `node` runs: the value bound to its target name in the
    /// scope the name resolved to. A value that is not a procedure is
    /// `ReferenceNotFound` for that name.
    pub fn call_target(context: &AstContext, node: &Node) -> (r: Result<CallTarget, Error>)
        requires
            context.wf(),
            node.0.content is Call,
            node.0.right matches Some(x) && x.0.content is Ident && ident_resolved(*context, x),
        ensures
            ({
                let x = node.0.right->Some_0;
                let s = x.0.meta.reference_to->Some_0;
                let cell = context.cell(context.scope(s as int).reference_of(name_of(x)));
                match cell {
                    Some(RuntimeValue::NativeProcedure(b)) => r == Ok::<CallTarget, Error>(CallTarget::Native(b)),
                    Some(RuntimeValue::Procedure(c)) => r == Ok::<CallTarget, Error>(CallTarget::Procedure(
                        match c.0.right {
                            Some(block) => block.0.left,
                            None => None,
                        },
                    )),
                    _ => r matches Err(e) && e is ReferenceNotFound && e->ReferenceNotFound_0@ == name_of(x),
                }
            }),
    {
        let target = match &node.0.right {
            Some(x) => x,
            None => {
                return Err(Error::NoData);
            },
        };
        let (name, scope) = target.reference();
        match context.scoop_get(scope, name.as_str()) {
            Some(RuntimeValue::NativeProcedure(b)) => Ok(CallTarget::Native(*b)),
            Some(RuntimeValue::Procedure(c)) => {
                let body = match &c.0.right {
                    Some(block) => match &block.0.left {
                        Some(b) => Some(b.duplicate()),
                        None => None,
                    },
                    None => None,
                };
                Ok(CallTarget::Procedure(body))
            },
            _ => Err(Error::ReferenceNotFound(name)),
        }
    }
}

/// What the runtime does with an assignment's right side.
#[derive(Debug, PartialEq, Eq)]
pub enum AssignSide {
    /// A closure: bound as a procedure, not run.
    Procedure(Node),
    /// Anything else: run, and its payloads stored.
    Evaluate(Node),
}

/// The identifier an assignment writes to: the declared one, or the bare name.
pub open spec fn assign_target(node: Node) -> Option<Node> {
    match node.0.left {
        Some(l) => if l.0.content is Declare {
            l.0.left
        } else {
            Some(l)
        },
        None => None,
    }
}

/// The text an argument passes: a string literal without its quotes, any
/// other literal as written, a name as written.
pub open spec fn argument_text(n: Node) -> Seq<Seq<char>> {
    match n.0.content {
        CommandAstBody::Literal { token, value } => if token == Token::LiteralString && value@.len() >= 2 {
            seq![value@.subrange(1, value@.len() - 1)]
        } else {
            seq![value@]
        },
        CommandAstBody::Ident { span } => seq![span@],
        _ => Seq::empty(),
    }
}

/// The texts of the arguments chained from `n` on by right children.
pub open spec fn chain_texts(n: Node) -> Seq<Seq<char>>
    decreases n,
{
    argument_text(n) + match n.0.right {
        Some(r) => chain_texts(r),
        None => Seq::empty(),
    }
}

/// The texts of the arguments of the call `node`.
pub open spec fn call_argument_texts(node: Node) -> Seq<Seq<char>> {
    match node.0.left {
        Some(a) => match a.0.right {
            Some(first) => chain_texts(first),
            None => Seq::empty(),
        },
        None => Seq::empty(),
    }
}

fn text_of_argument(n: &Node) -> (r: Vec<String>)
    ensures
        r@.len() == argument_text(*n).len(),
        forall|k: int| 0 <= k < r@.len() ==> (#[trigger] r@[k])@ == argument_text(*n)[k],
{
    let mut r: Vec<String> = Vec::new();
    match &n.0.content {
        CommandAstBody::Literal { token, value } => {
            let chars = chars_of(value.as_str());
            if *token == Token::LiteralString && chars.len() >= 2 {
                let mut inner: Vec<char> = Vec::new();
                let mut i: usize = 1;
                while i < chars.len() - 1
                    invariant
                        chars.len() >= 2,
                        1 <= i <= chars.len() - 1,
                        inner@ == chars@.subrange(1, i as int),
                    decreases chars.len() - i,
                {
                    inner.push(chars[i]);
                    i = i + 1;
                    proof {
                        assert(inner@ =~= chars@.subrange(1, i as int));
                    }
                }
                r.push(string_of(&inner));
            } else {
                r.push(value.clone());
            }
        },
        CommandAstBody::Ident { span } => {
            r.push(span.clone());
        },
        _ => {},
    }
    r
}

fn chain_arguments(n: &Node, out: &mut Vec<String>)
    ensures
        final(out)@.len() == old(out)@.len() + chain_texts(*n).len(),
        forall|k: int| 0 <= k < old(out)@.len() ==> (#[trigger] final(out)@[k]) == old(out)@[k],
        forall|k: int| 0 <= k < chain_texts(*n).len() ==> (#[trigger] final(out)@[old(out)@.len() + k])@
            == chain_texts(*n)[k],
    decreases n,
{
    let ghost before = out@;
    let head = text_of_argument(n);
    let mut i: usize = 0;
    while i < head.len()
        invariant
            i <= head@.len(),
            out@.len() == before.len() + i,
            forall|k: int| 0 <= k < before.len() ==> (#[trigger] out@[k]) == before[k],
            forall|k: int| 0 <= k < i ==> (#[trigger] out@[before.len() + k])@ == head@[k]@,
        decreases head@.len() - i,
    {
        out.push(head[i].clone());
        i = i + 1;
    }
    let ghost mid = out@;
    match &n.0.right {
        Some(r) => chain_arguments(r, out),
        None => {},
    }
    proof {
        let rest = if n.0.right is Some {
            chain_texts(n.0.right->Some_0)
        } else {
            Seq::<Seq<char>>::empty()
        };
        assert(chain_texts(*n) == argument_text(*n) + rest);
        assert forall|k: int| 0 <= k < chain_texts(*n).len() implies (#[trigger] out@[before.len() + k])@
            == chain_texts(*n)[k] by {
            if k < head@.len() {
                assert(out@[before.len() + k] == mid[before.len() + k]);
            } else {
                assert(out@[mid.len() + (k - head@.len())]@ == rest[k - head@.len()]);
            }
        }
    }
}

impl ProgramRuntime {
    /// The texts a call passes to the command it runs: its arguments, in order.
    pub fn call_arguments(node: &Node) -> (r: Vec<String>)
        ensures
            r@.len() == call_argument_texts(*node).len(),
            forall|k: int| 0 <= k < r@.len() ==> (#[trigger] r@[k])@ == call_argument_texts(*node)[k],
    {
        let mut r: Vec<String> = Vec::new();
        match &node.0.left {
            Some(a) => match &a.0.right {
                Some(first) => {
                    chain_arguments(first, &mut r);
                    proof {
                        assert forall|k: int| 0 <= k < r@.len() implies (#[trigger] r@[k])@ == call_argument_texts(*node)[k] by {
                            assert(r@[0 + k]@ == chain_texts(*first)[k]);
                        }
                    }
                },
                None => {},
            },
            None => {},
        }
        r
    }

    /// Splits a resolved assignment into its target, the name and the scope
    /// that binds it, and what to do with the right side: a closure is bound
    /// as a procedure without running, anything else is run.
    pub fn assignation_plan(node: Node) -> (r: Option<(String, usize, AssignSide)>)
        ensures
            r is Some <==> (assign_target(node) matches Some(t) && t.0.content is Ident
                && t.0.meta.reference_to is Some && node.0.right is Some),
            r is Some ==> ({
                let t = assign_target(node)->Some_0;
                let right = node.0.right->Some_0;
                &&& r->Some_0.0@ == name_of(t)
                &&& r->Some_0.1 == t.0.meta.reference_to->Some_0
                &&& (right.0.content is Closure ==> r->Some_0.2 == AssignSide::Procedure(right))
                &&& (!(right.0.content is Closure) ==> r->Some_0.2 == AssignSide::Evaluate(right))
            }),
    {
        let ghost target = assign_target(node);
        let Node(b) = node;
        let CommandAstNode { meta, content, left, right } = *b;
        let (name, scope) = {
            let t = match &left {
                Some(l) => {
                    if matches!(l.0.content, CommandAstBody::Declare) {
                        match &l.0.left {
                            Some(x) => x,
                            None => {
                                return None;
                            },
                        }
                    } else {
                        l
                    }
                },
                None => {
                    return None;
                },
            };
            let span = match &t.0.content {
                CommandAstBody::Ident { span } => span.clone(),
                _ => {
                    return None;
                },
            };
            match t.0.meta.reference_to {
                Some(s) => (span, s),
                None => {
                    return None;
                },
            }
        };
        match right {
            Some(rhs) => {
                if matches!(rhs.0.content, CommandAstBody::Closure) {
                    Some((name, scope, AssignSide::Procedure(rhs)))
                } else {
                    Some((name, scope, AssignSide::Evaluate(rhs)))
                }
            },
            None => None,
        }
    }
}

} // verus!
