use vstd::prelude::*;
use vstd::string::*;

use crate::aggregator::{AstContext, RuntimeValue, names_resolve, node_count, scopes_within, tree_size, uses_resolved};
use crate::ast::{CommandAstNode, Node, TokenStream, wf_node};
use crate::error::Error;
use crate::grammar::{node_view, parse_view};
use crate::lexer::lex;

verus! {

/// How a program or one of its commands ended, or that it runs.
#[derive(Debug, Clone, Copy, PartialEq, Eq, Structural)]
pub enum ProgramStatus {
    /// No status yet.
    Unset,
    Running,
    Success,
    Error,
}

/// One message a command writes to its output.
#[derive(Debug, PartialEq, Eq)]
pub enum ProgramOutput {
    Exit { message: Option<String>, status: ProgramStatus },
    Text { message: String },
    Json { content: RuntimeValue },
}

impl ProgramOutput {
    /// A structured payload.
    pub fn json(content: RuntimeValue) -> (r: ProgramOutput)
        ensures
            r == (ProgramOutput::Json { content }),
    {
        ProgramOutput::Json { content }
    }
}

/// A parsed and aggregated program.
pub struct Program {
    pub root: Node,
    pub context: AstContext,
    pub status: ProgramStatus,
}

impl Program {
    /// Reads, parses and aggregates the program `text`.
    pub fn new(text: &str) -> (r: Result<Program, Error>)
        requires
            text@.len() + 4 <= usize::MAX,
        ensures
            r matches Ok(p) ==> p.context.wf() && wf_node(p.root) && scopes_within(p.root, p.context.scope_count())
                && uses_resolved(p.context, p.root) && p.status == ProgramStatus::Unset,
            r matches Err(e) ==> e is Parsing || e is NoData || e is ReferenceNotFound,
            r is Ok ==> parse_view(lex(text@, 0), text@, 0, false) is Ok && node_view(r->Ok_0.root)
                == parse_view(lex(text@, 0), text@, 0, false)->Ok_0.0,
            parse_view(lex(text@, 0), text@, 0, false) is Err ==> r is Err,
            parse_view(lex(text@, 0), text@, 0, false) is Err ==> (r->Err_0 is NoData <==> parse_view(
                lex(text@, 0),
                text@,
                0,
                false,
            )->Err_0) && (r->Err_0 is Parsing <==> !parse_view(lex(text@, 0), text@, 0, false)->Err_0),
            parse_view(lex(text@, 0), text@, 0, false) is Ok ==> (r is Ok <==> exists|n: Node|
                wf_node(n) && node_view(n) == parse_view(lex(text@, 0), text@, 0, false)->Ok_0.0
                    && tree_size(n) + 8 < usize::MAX && #[trigger] names_resolve(n) is Ok),
            parse_view(lex(text@, 0), text@, 0, false) is Ok && r is Err ==> (r->Err_0 is Parsing
                || r->Err_0 is ReferenceNotFound),
    {
        let lx = TokenStream::new(text);
        let root = match CommandAstNode::parse(&lx, 0, false) {
            Ok((n, _)) => n,
            Err(e) => {
                return Err(e);
            },
        };
        let cap: usize = usize::MAX - 8;
        if node_count(&root, cap) >= cap {
            proof {
                assert forall|n: Node| wf_node(n) && node_view(n) == node_view(root) implies !(tree_size(n) + 8 < usize::MAX) by {
                    crate::aggregator::lemma_view_size(n, root);
                }
            }
            return Err(Error::Parsing(String::from_str("program too large"), 0, 0));
        }
        proof {
            assert(tree_size(root) + 8 < usize::MAX);
        }
        match AstContext::new(root) {
            Ok((context, n)) => {
                proof {
                    crate::aggregator::lemma_same_shape_view(root, n);
                    assert(names_resolve(root) is Ok);
                }
                Ok(Program { root: n, context, status: ProgramStatus::Unset })
            },
            Err(e) => {
                proof {
                    assert forall|n: Node| wf_node(n) && node_view(n) == node_view(root) implies !(#[trigger] names_resolve(n) is Ok) by {
                        crate::aggregator::lemma_names_resolve_view(n, root);
                    }
                }
                Err(e)
            },
        }
    }
}

/// The id of a running program.
pub type ProgramIdentifier = u64;

/// The payloads of the `Json` messages of `outputs`, in order.
pub open spec fn json_payloads(outputs: Seq<ProgramOutput>) -> Seq<RuntimeValue>
    decreases outputs.len(),
{
    if outputs.len() == 0 {
        Seq::empty()
    } else {
        let rest = json_payloads(outputs.drop_last());
        match outputs.last() {
            ProgramOutput::Json { content } => rest.push(content),
            _ => rest,
        }
    }
}

/// Reduces what the right side of an assignment wrote to the value stored:
/// of the `Json` payloads, none gives `Undefined`, one gives that payload
/// itself, more give an array of them in the order they were written; other
/// messages are dropped.
pub fn reduce_outputs(outputs: Vec<ProgramOutput>) -> (r: RuntimeValue)
    ensures
        json_payloads(outputs@).len() == 0 ==> r == RuntimeValue::Undefined,
        json_payloads(outputs@).len() == 1 ==> r == json_payloads(outputs@)[0],
        json_payloads(outputs@).len() >= 2 ==> (r is Array && r->Array_0@ == json_payloads(outputs@)),
{
    let ghost all = outputs@;
    let mut values: Vec<RuntimeValue> = Vec::new();
    let mut rest = outputs;
    let total = rest.len();
    let ghost n = all.len();
    let mut i: usize = 0;
    while rest.len() > 0
        invariant
            total == n,
            rest@ == all.subrange(i as int, n as int),
            values@ == json_payloads(all.subrange(0, i as int)),
            i <= n,
            n == all.len(),
        decreases rest@.len(),
    {
        let o = rest.remove(0);
        proof {
            let next = all.subrange(0, i + 1);
            assert(next.drop_last() =~= all.subrange(0, i as int));
            assert(next.last() == all[i as int]);
            assert(o == all[i as int]);
            assert(rest@ =~= all.subrange(i + 1, n as int));
        }
        match o {
            ProgramOutput::Json { content } => {
                values.push(content);
            },
            _ => {},
        }
        i = i + 1;
    }
    proof {
        assert(all.subrange(0, n as int) =~= all);
    }
    if values.len() == 0 {
        RuntimeValue::Undefined
    } else if values.len() == 1 {
        values.pop().unwrap()
    } else {
        RuntimeValue::Array(values)
    }
}

/// An assignment's last step: reduces what its right side wrote (see
/// `reduce_outputs`) and stores the value in the cell that `label` has in
/// scope `scoop`.
pub fn assign_outputs(context: &mut AstContext, scoop: usize, label: &str, outputs: Vec<ProgramOutput>) -> (r: Result<usize, Error>)
    requires
        old(context).wf(),
        old(context).ref_count() < usize::MAX,
    ensures
        final(context).wf(),
        !old(context).valid_scope(scoop as int) ==> r == Err::<usize, Error>(Error::ScoopNotFound(scoop)),
        old(context).valid_scope(scoop as int) ==> r is Ok,
        r is Ok ==> final(context).owns(scoop as int, label@) && final(context).scope(scoop as int).reference_of(label@) == r->Ok_0,
        r is Ok && json_payloads(outputs@).len() == 0 ==> final(context).cell(r->Ok_0) == Some(RuntimeValue::Undefined),
        r is Ok && json_payloads(outputs@).len() == 1 ==> final(context).cell(r->Ok_0) == Some(json_payloads(outputs@)[0]),
        r is Ok && json_payloads(outputs@).len() >= 2 ==> (final(context).cell(r->Ok_0) matches Some(v) && v is Array
            && v->Array_0@ == json_payloads(outputs@)),
{
    let value = reduce_outputs(outputs);
    context.scoop_set(scoop, label, value)
}

} // verus!
