use vstd::prelude::*;
use std::collections::BTreeMap;

use crate::ast::{CommandAstBody, CommandAstNode, Node, NodeContext, wf_node};
use crate::error::Error;

verus! {

/// A cell of the program's memory.
pub type Reference = usize;

/// A scope of the program; the main scope is `1`.
pub type ScoopID = usize;

/// A built-in command, bound as a native procedure.
#[derive(Debug, Clone, Copy, PartialEq, Eq, Structural)]
pub enum Builtin {
    Ls,
    Cat,
    Sleep,
    Echo,
}

/// A value held in a memory cell. Numbers keep their decimal text.
#[derive(Debug, PartialEq, Eq)]
pub enum RuntimeValue {
    Undefined,
    Number(String),
    String(String),
    Object(Vec<(String, RuntimeValue)>),
    Array(Vec<RuntimeValue>),
    Procedure(Node),
    NativeProcedure(Builtin),
}

impl RuntimeValue {
    /// The value that binds a built-in command.
    pub fn binding(generator: Builtin) -> (r: RuntimeValue)
        ensures
            r == RuntimeValue::NativeProcedure(generator),
    {
        RuntimeValue::NativeProcedure(generator)
    }
}

/// A scope: its parent, its children and the names it binds.
#[derive(Debug, Clone)]
pub struct NodeScoop {
    pub parent: Option<ScoopID>,
    pub children: Vec<ScoopID>,
    pub owned_references: Vec<(String, Reference)>,
}

impl NodeScoop {
    /// Whether the scope binds `name`.
    pub closed spec fn owns(&self, name: Seq<char>) -> bool {
        exists|k: int| 0 <= k < self.owned_references.len() && (#[trigger] self.owned_references[k]).0@ == name
    }

    /// The cell bound to `name` (meaningful where `owns(name)`).
    pub closed spec fn reference_of(&self, name: Seq<char>) -> Reference {
        let k = choose|k: int| 0 <= k < self.owned_references.len() && (#[trigger] self.owned_references[k]).0@ == name;
        self.owned_references[k].1
    }

    pub closed spec fn wf(&self) -> bool {
        forall|k: int, l: int|
            0 <= k < l < self.owned_references.len() ==> (#[trigger] self.owned_references[k]).0@
                != (#[trigger] self.owned_references[l]).0@
    }

    /// An empty scope under `parent`.
    pub fn new(parent: Option<ScoopID>) -> (r: NodeScoop)
        ensures
            r.wf(),
            r.parent == parent,
            r.children@ == Seq::<ScoopID>::empty(),
            forall|name: Seq<char>| !(#[trigger] r.owns(name)),
    {
        NodeScoop { parent, children: Vec::new(), owned_references: Vec::new() }
    }

    /// The cell bound to `label`, if any.
    pub fn lookup(&self, label: &str) -> (r: Option<Reference>)
        requires
            self.wf(),
        ensures
            r is Some <==> self.owns(label@),
            r matches Some(x) ==> x == self.reference_of(label@),
    {
        let wanted = String::from_str(label);
        let mut k: usize = 0;
        while k < self.owned_references.len()
            invariant
                self.wf(),
                k <= self.owned_references.len(),
                wanted@ == label@,
                forall|j: int| 0 <= j < k ==> (#[trigger] self.owned_references[j]).0@ != label@,
            decreases self.owned_references.len() - k,
        {
            if self.owned_references[k].0 == wanted {
                proof {
                    let c = choose|c: int| 0 <= c < self.owned_references.len() && (#[trigger] self.owned_references[c]).0@ == label@;
                    if c != k {
                        if c < k {
                            assert(self.owned_references[c].0@ != self.owned_references[k as int].0@);
                        } else {
                            assert(self.owned_references[k as int].0@ != self.owned_references[c].0@);
                        }
                    }
                }
                return Some(self.owned_references[k].1);
            }
            k = k + 1;
        }
        None
    }

    /// Binds `label` to `reference`, replacing an earlier binding of it.
    pub fn bind(&mut self, label: &str, reference: Reference)
        requires
            old(self).wf(),
        ensures
            final(self).wf(),
            final(self).parent == old(self).parent,
            final(self).children == old(self).children,
            final(self).owns(label@),
            final(self).reference_of(label@) == reference,
            forall|name: Seq<char>| #[trigger] final(self).owns(name) <==> (old(self).owns(name) || name == label@),
            forall|name: Seq<char>| name != label@ && old(self).owns(name) ==> #[trigger] final(self).reference_of(name) == old(self).reference_of(name),
    {
        let ghost before = self.owned_references@;
        let wanted = String::from_str(label);
        let mut k: usize = 0;
        let mut found = false;
        while k < self.owned_references.len() && !found
            invariant
                k <= self.owned_references.len(),
                wanted@ == label@,
                self.owned_references@ == before,
                found ==> k < before.len() && before[k as int].0@ == label@,
                forall|j: int| 0 <= j < k ==> (#[trigger] self.owned_references[j]).0@ != label@,
            decreases self.owned_references.len() - k, if found { 0int } else { 1int },
        {
            if self.owned_references[k].0 == wanted {
                found = true;
            } else {
                k = k + 1;
            }
        }
        proof {
            if k < before.len() {
                assert(before[k as int].0@ == label@);
                assert forall|j: int| 0 <= j < before.len() && j != k implies (#[trigger] before[j]).0@ != label@ by {
                    if j < k {
                        assert(before[j].0@ != before[k as int].0@);
                    } else {
                        assert(before[k as int].0@ != before[j].0@);
                    }
                }
            }
        }
        let entry = (String::from_str(label), reference);
        if k < self.owned_references.len() {
            self.owned_references.set(k, entry);
        } else {
            self.owned_references.push(entry);
        }
        proof {
            let after = self.owned_references@;
            assert forall|a: int, b: int|
                0 <= a < b < after.len() implies (#[trigger] after[a]).0@ != (#[trigger] after[b]).0@ by {
                if a != k {
                    assert(after[a] == before[a]);
                }
                if b != k {
                    assert(after[b] == before[b]);
                }
            }
            assert(after[k as int].0@ == label@);
            assert forall|name: Seq<char>| #[trigger] self.owns(name) <==> (old(self).owns(name) || name == label@) by {
                if self.owns(name) && name != label@ {
                    let c = choose|c: int| 0 <= c < after.len() && (#[trigger] after[c]).0@ == name;
                    assert(c != k);
                    assert(before[c] == after[c]);
                }
                if old(self).owns(name) && name != label@ {
                    let c = choose|c: int| 0 <= c < before.len() && (#[trigger] before[c]).0@ == name;
                    assert(c != k);
                    assert(before[c] == after[c]);
                }
            }
            let c = choose|c: int| 0 <= c < after.len() && (#[trigger] after[c]).0@ == label@;
            if c != k {
                if c < k {
                    assert(after[c].0@ != after[k as int].0@);
                } else {
                    assert(after[k as int].0@ != after[c].0@);
                }
            }
            assert forall|name: Seq<char>| name != label@ && old(self).owns(name) implies #[trigger] self.reference_of(name) == old(self).reference_of(name) by {
                let c1 = choose|c: int| 0 <= c < after.len() && (#[trigger] after[c]).0@ == name;
                let c0 = choose|c: int| 0 <= c < before.len() && (#[trigger] before[c]).0@ == name;
                assert(c0 != k);
                assert(after[c0] == before[c0]);
                if c1 != c0 {
                    if c1 < c0 {
                        assert(after[c1].0@ != after[c0].0@);
                    } else {
                        assert(after[c0].0@ != after[c1].0@);
                    }
                }
            }
        }
    }
}


/// The number of nodes of a tree.
pub open spec fn tree_size(n: Node) -> nat
    decreases n,
{
    1 + match n.0.left {
        Some(l) => tree_size(l),
        None => 0,
    } + match n.0.right {
        Some(r) => tree_size(r),
        None => 0,
    }
}

/// The number of nodes of `n`, or `cap` where it has at least that many.
pub fn node_count(n: &Node, cap: usize) -> (r: usize)
    ensures
        r <= cap,
        r < cap ==> r == tree_size(*n),
        r == cap ==> tree_size(*n) >= cap,
    decreases n,
{
    let mut total: usize = 1;
    if cap <= 1 {
        return cap;
    }
    match &n.0.left {
        Some(l) => {
            let c = node_count(l, cap - total);
            total = total + c;
        },
        None => {},
    }
    if total >= cap {
        return cap;
    }
    match &n.0.right {
        Some(x) => {
            let c = node_count(x, cap - total);
            total = total + c;
        },
        None => {},
    }
    if total >= cap {
        cap
    } else {
        total
    }
}

/// `a` and `b` have the same kinds of nodes in the same places; their scope
/// data may differ.
pub open spec fn same_shape(a: Node, b: Node) -> bool
    decreases a,
{
    &&& a.0.content == b.0.content
    &&& match (a.0.left, b.0.left) {
        (Some(x), Some(y)) => same_shape(x, y),
        (None, None) => true,
        _ => false,
    }
    &&& match (a.0.right, b.0.right) {
        (Some(x), Some(y)) => same_shape(x, y),
        (None, None) => true,
        _ => false,
    }
}

pub proof fn lemma_same_shape_refl(a: Node)
    ensures
        same_shape(a, a),
    decreases a,
{
    match a.0.left {
        Some(x) => lemma_same_shape_refl(x),
        None => {},
    }
    match a.0.right {
        Some(x) => lemma_same_shape_refl(x),
        None => {},
    }
}

/// Nodes with one shape look the same to the grammar.
pub proof fn lemma_same_shape_view(a: Node, b: Node)
    requires
        same_shape(a, b),
    ensures
        crate::grammar::node_view(a) == crate::grammar::node_view(b),
    decreases a,
{
    match (a.0.left, b.0.left) {
        (Some(x), Some(y)) => lemma_same_shape_view(x, y),
        _ => {},
    }
    match (a.0.right, b.0.right) {
        (Some(x), Some(y)) => lemma_same_shape_view(x, y),
        _ => {},
    }
}

pub proof fn lemma_same_shape_size(a: Node, b: Node)
    requires
        same_shape(a, b),
    ensures
        tree_size(a) == tree_size(b),
    decreases a,
{
    match (a.0.left, b.0.left) {
        (Some(x), Some(y)) => lemma_same_shape_size(x, y),
        _ => {},
    }
    match (a.0.right, b.0.right) {
        (Some(x), Some(y)) => lemma_same_shape_size(x, y),
        _ => {},
    }
}

pub proof fn lemma_same_shape_trans(a: Node, b: Node, c: Node)
    requires
        same_shape(a, b),
        same_shape(b, c),
    ensures
        same_shape(a, c),
    decreases a,
{
    match (a.0.left, b.0.left, c.0.left) {
        (Some(x), Some(y), Some(z)) => lemma_same_shape_trans(x, y, z),
        _ => {},
    }
    match (a.0.right, b.0.right, c.0.right) {
        (Some(x), Some(y), Some(z)) => lemma_same_shape_trans(x, y, z),
        _ => {},
    }
}

/// Nodes with one shape are well-formed together.
pub proof fn lemma_same_shape_wf(a: Node, b: Node)
    requires
        same_shape(a, b),
    ensures
        wf_node(a) <==> wf_node(b),
    decreases a,
{
    reveal_with_fuel(same_shape, 2);
    match (a.0.left, b.0.left) {
        (Some(x), Some(y)) => lemma_same_shape_wf(x, y),
        _ => {},
    }
    match (a.0.right, b.0.right) {
        (Some(x), Some(y)) => lemma_same_shape_wf(x, y),
        _ => {},
    }
}

/// The name of an identifier node.
pub open spec fn name_of(n: Node) -> Seq<char> {
    n.0.content->Ident_span@
}

/// Scopes and memory of one program.
#[derive(Debug)]
pub struct AstContext {
    scoop_counter: usize,
    declaration_counter: usize,
    memory: BTreeMap<Reference, RuntimeValue>,
    scoops: Vec<NodeScoop>,
}

impl AstContext {
    /// The number of scopes; their ids are `1..=scope_count()`.
    pub closed spec fn scope_count(&self) -> nat {
        self.scoops@.len()
    }

    /// The number of cells allocated; their references are `1..=ref_count()`.
    pub closed spec fn ref_count(&self) -> nat {
        self.declaration_counter as nat
    }

    pub open spec fn valid_scope(&self, s: int) -> bool {
        1 <= s <= self.scope_count()
    }

    /// The scope with id `s`.
    pub closed spec fn scope(&self, s: int) -> NodeScoop {
        self.scoops@[s - 1]
    }

    /// Scope `s` binds `name` itself.
    pub open spec fn owns(&self, s: int, name: Seq<char>) -> bool {
        self.valid_scope(s) && self.scope(s).owns(name)
    }

    /// The scope that binds `name` for a use in scope `s`: `s` itself if it
    /// does, else the one its parent resolves to.
    pub open spec fn resolve(&self, s: int, name: Seq<char>) -> Option<ScoopID>
        decreases s,
    {
        if !self.valid_scope(s) {
            None
        } else if self.owns(s, name) {
            Some(s as ScoopID)
        } else {
            match self.scope(s).parent {
                Some(p) => if 0 < p < s {
                    self.resolve(p as int, name)
                } else {
                    None
                },
                None => None,
            }
        }
    }

    /// The value in cell `r`.
    pub closed spec fn cell(&self, r: Reference) -> Option<RuntimeValue> {
        if self.memory@.contains_key(r) {
            Some(self.memory@[r])
        } else {
            None
        }
    }

    pub closed spec fn wf(&self) -> bool {
        &&& self.scoop_counter == self.scoops.len()
        &&& forall|k: int| 0 <= k < self.scoops.len() ==> (#[trigger] self.scoops[k]).wf()
        &&& forall|k: int|
            0 <= k < self.scoops.len() ==> ((#[trigger] self.scoops[k]).parent matches Some(p)
                ==> 1 <= p <= k)
    }

    /// `self` and `other` have the same scopes.
    pub closed spec fn same_scopes(&self, other: AstContext) -> bool {
        self.scoops == other.scoops && self.scoop_counter == other.scoop_counter
    }

    /// `self` grew into `other`: the same scopes with the same parents, each
    /// binding at least the names it bound.
    pub open spec fn grows_into(&self, other: &AstContext) -> bool {
        &&& other.scope_count() == self.scope_count()
        &&& forall|s: int| self.valid_scope(s) ==> #[trigger] other.scope(s).parent == self.scope(s).parent
        &&& forall|s: int, name: Seq<char>| #[trigger] self.owns(s, name) ==> other.owns(s, name)
    }

    /// No scopes and no cells.
    pub fn empty() -> (r: AstContext)
        ensures
            r.wf(),
            r.scope_count() == 0,
            r.ref_count() == 0,
    {
        AstContext { scoop_counter: 0, declaration_counter: 0, memory: BTreeMap::new(), scoops: Vec::new() }
    }

    /// Aggregates a parsed tree: gives every node its scope under the main
    /// scope `1`, binds the built-in commands `ls`, `cat`, `sleep` and `echo`
    /// in the main scope, then resolves the names the tree uses.
    pub fn new(root: Node) -> (r: Result<(AstContext, Node), Error>)
        requires
            wf_node(root),
            tree_size(root) + 8 <= usize::MAX,
        ensures
            r matches Ok((c, n)) ==> c.wf() && wf_node(n) && same_shape(root, n)
                && scopes_within(n, c.scope_count()) && uses_resolved(c, n)
                && c.owns(1, "ls"@) && c.owns(1, "cat"@) && c.owns(1, "sleep"@) && c.owns(1, "echo"@),
            r matches Err(e) ==> e is ReferenceNotFound,
            r is Ok <==> names_resolve(root) is Ok,
            r is Err ==> r->Err_0->ReferenceNotFound_0@ == names_resolve(root)->Err_0,
            r is Ok ==> resolved_as(
                scope_pass(root, 1, 1).1.len() + 1,
                pass_parents(scope_pass(root, 1, 1).1),
                builtin_binds(),
                scope_pass(root, 1, 1).0,
                r->Ok_0.1,
            ),
            r is Ok ==> r->Ok_0.0.scope_count() == scope_pass(root, 1, 1).1.len() + 1,
    {
        let mut context = AstContext::empty();
        let main = context.create_scoop(None);
        let ghost c0 = context;
        let scoped = context.aggregate_scoop(root, main);
        let ghost c1 = context;
        let ghost ps = scope_pass(root, 1, 1).1;
        let _ = context.scoop_set(1, "ls", RuntimeValue::binding(Builtin::Ls));
        let _ = context.scoop_set(1, "cat", RuntimeValue::binding(Builtin::Cat));
        let _ = context.scoop_set(1, "sleep", RuntimeValue::binding(Builtin::Sleep));
        let _ = context.scoop_set(1, "echo", RuntimeValue::binding(Builtin::Echo));
        proof {
            lemma_same_shape_wf(root, scoped);
            lemma_same_shape_size(root, scoped);
            assert(c0.scope_count() == 1);
            assert forall|t: int| #[trigger] parents_of(context)(t) == pass_parents(ps)(t) by {
                if t == 1 {
                    assert(c0.scope(1).parent is None);
                    assert(c1.scope(1).parent is None);
                } else if 2 <= t <= ps.len() + 1 {
                    assert(c1.scope(c0.scope_count() + 1 + (t - 2)).parent == Some(ps[t - 2]));
                    assert(c1.valid_scope(t));
                }
            }
            assert(parents_of(context) =~= pass_parents(ps));
            assert forall|t: int, m: Seq<char>| #[trigger] binds_of(context)(t, m) == builtin_binds()(t, m) by {
                if c1.valid_scope(t) {
                    if t > 1 {
                        assert(!c1.owns(t, m));
                    } else {
                        assert(!c0.owns(1, m));
                        assert(!c1.owns(1, m));
                    }
                }
            }
            assert(binds_of(context) =~= builtin_binds());
        }
        match context.aggregate_deps(scoped) {
            Ok(n) => {
                proof {
                    lemma_same_shape_trans(root, scoped, n);
                }
                Ok((context, n))
            },
            Err(e) => Err(e),
        }
    }

    /// The number of cells allocated.
    pub fn references(&self) -> (r: usize)
        ensures
            r == self.ref_count(),
    {
        self.declaration_counter
    }

    /// Allocates a fresh cell reference; references are never reused.
    fn new_ref(&mut self) -> (r: Reference)
        requires
            old(self).wf(),
            old(self).ref_count() < usize::MAX,
        ensures
            final(self).wf(),
            r == old(self).ref_count() + 1,
            final(self).ref_count() == r,
            final(self).scoops == old(self).scoops,
            final(self).memory == old(self).memory,
    {
        self.declaration_counter = self.declaration_counter + 1;
        self.declaration_counter
    }

    /// Opens a new empty scope under `parent` and gives its id.
    pub fn create_scoop(&mut self, parent: Option<ScoopID>) -> (r: ScoopID)
        requires
            old(self).wf(),
            old(self).scope_count() < usize::MAX,
            parent matches Some(p) ==> old(self).valid_scope(p as int),
        ensures
            final(self).wf(),
            r == old(self).scope_count() + 1,
            final(self).scope_count() == r,
            final(self).ref_count() == old(self).ref_count(),
            final(self).scope(r as int).parent == parent,
            forall|name: Seq<char>| !(#[trigger] final(self).owns(r as int, name)),
            forall|s: int| old(self).valid_scope(s) ==> #[trigger] final(self).scope(s).parent == old(self).scope(s).parent,
            forall|s: int, name: Seq<char>| old(self).valid_scope(s) ==> (#[trigger] final(self).owns(s, name) <==> old(self).owns(s, name)),
            forall|s: int, name: Seq<char>| old(self).valid_scope(s) ==> #[trigger] final(self).scope(s).reference_of(name)
                == old(self).scope(s).reference_of(name),
            forall|r: Reference| #[trigger] final(self).cell(r) == old(self).cell(r),
            final(self).scope(r as int).children@ == Seq::<ScoopID>::empty(),
            parent matches Some(p) ==> final(self).scope(p as int).children@ == old(self).scope(p as int).children@.push(r),
            forall|s: int| old(self).valid_scope(s) && parent != Some(s as ScoopID) ==> #[trigger] final(self).scope(s).children@
                == old(self).scope(s).children@,
    {
        let ghost before = *self;
        self.scoop_counter = self.scoop_counter + 1;
        let id = self.scoop_counter;
        let fresh = NodeScoop::new(parent);
        let ghost fresh_copy = fresh;
        self.scoops.push(fresh);
        if let Some(p) = parent {
            let mut sc = self.scoops.remove(p - 1);
            sc.children.push(id);
            self.scoops.insert(p - 1, sc);
        }
        proof {
            assert forall|k: int| 0 <= k < before.scoops.len() implies (#[trigger] self.scoops[k]).owned_references == before.scoops[k].owned_references && self.scoops[k].parent == before.scoops[k].parent by {}
            assert forall|k: int| 0 <= k < before.scoops.len() && parent != Some((k + 1) as ScoopID) implies (#[trigger] self.scoops[k]).children == before.scoops[k].children by {}
            assert(self.scoops[id - 1].parent == parent);
            assert(self.scoops[id - 1] == fresh_copy);
            assert forall|name: Seq<char>| !(#[trigger] self.owns(id as int, name)) by {
                assert(!fresh_copy.owns(name));
            }
            assert forall|s: int, name: Seq<char>| before.valid_scope(s) implies (#[trigger] self.owns(s, name) <==> before.owns(s, name)) by {
                assert(self.scoops[s - 1].owned_references == before.scoops[s - 1].owned_references);
            }
            assert forall|s: int, name: Seq<char>| before.valid_scope(s) implies #[trigger] self.scope(s).reference_of(name)
                == before.scope(s).reference_of(name) by {
                assert(self.scoops[s - 1].owned_references == before.scoops[s - 1].owned_references);
            }
            assert(self.memory == before.memory);
            assert forall|r: Reference| #[trigger] self.cell(r) == before.cell(r) by {}
        }
        id
    }

    /// Binds `label` in scope `scoop` (to its cell where it was bound, else
    /// to a fresh one) and writes `value` into that cell.
    pub fn scoop_set(&mut self, scoop: ScoopID, label: &str, value: RuntimeValue) -> (r: Result<Reference, Error>)
        requires
            old(self).wf(),
            old(self).ref_count() < usize::MAX,
        ensures
            final(self).wf(),
            !old(self).valid_scope(scoop as int) ==> r == Err::<Reference, Error>(Error::ScoopNotFound(scoop)),
            old(self).valid_scope(scoop as int) ==> r is Ok,
            r matches Ok(x) ==> final(self).owns(scoop as int, label@)
                && final(self).scope(scoop as int).reference_of(label@) == x
                && final(self).cell(x) == Some(value)
                && (old(self).owns(scoop as int, label@) ==> x == old(self).scope(scoop as int).reference_of(label@))
                && (!old(self).owns(scoop as int, label@) ==> x == old(self).ref_count() + 1),
            r is Ok ==> forall|x: Reference| x != r->Ok_0 ==> #[trigger] final(self).cell(x) == old(self).cell(x),
            r is Err ==> forall|x: Reference| #[trigger] final(self).cell(x) == old(self).cell(x),
            r is Err ==> forall|s: int, name: Seq<char>| #[trigger] final(self).owns(s, name) == old(self).owns(s, name),
            old(self).grows_into(final(self)),
            final(self).ref_count() <= old(self).ref_count() + 1,
            forall|s: int, name: Seq<char>| s != scoop ==> (#[trigger] final(self).owns(s, name) <==> old(self).owns(s, name)),
            forall|s: int, name: Seq<char>| #[trigger] final(self).owns(s, name) <==> (old(self).owns(s, name) || (s == scoop && name == label@ && old(self).valid_scope(s))),
    {
        let fresh = self.new_ref();
        if scoop < 1 || scoop > self.scoops.len() {
            return Err(Error::ScoopNotFound(scoop));
        }
        let ghost before = *self;
        let mut sc = self.scoops.remove(scoop - 1);
        let reference = match sc.lookup(label) {
            Some(existing) => existing,
            None => fresh,
        };
        sc.bind(label, reference);
        self.scoops.insert(scoop - 1, sc);
        proof {
            assert forall|k: int| 0 <= k < self.scoops.len() && k != scoop - 1 implies #[trigger] self.scoops[k] == before.scoops[k] by {}
            assert forall|s: int, name: Seq<char>| #[trigger] self.owns(s, name) <==> (old(self).owns(s, name) || (s == scoop && name == label@ && old(self).valid_scope(s))) by {
                if s != scoop && self.valid_scope(s) {
                    assert(self.scoops[s - 1] == before.scoops[s - 1]);
                }
            }
            assert forall|s: int| old(self).valid_scope(s) implies #[trigger] self.scope(s).parent == old(self).scope(s).parent by {
                if s != scoop {
                    assert(self.scoops[s - 1] == before.scoops[s - 1]);
                }
            }
        }
        proof {
            assert(self.memory == old(self).memory);
            assert forall|x: Reference| #[trigger] self.cell(x) == old(self).cell(x) by {}
        }
        self.memory_set(reference, value);
        Ok(reference)
    }

    /// The value bound to `label` in scope `scoop` itself (no walk to parents).
    pub fn scoop_get(&self, scoop: ScoopID, label: &str) -> (r: Option<&RuntimeValue>)
        requires
            self.wf(),
        ensures
            !self.owns(scoop as int, label@) ==> r is None,
            self.owns(scoop as int, label@) ==> r == match self.cell(self.scope(scoop as int).reference_of(label@)) {
                Some(v) => Some(&v),
                None => None::<&RuntimeValue>,
            },
    {
        if scoop < 1 || scoop > self.scoops.len() {
            return None;
        }
        match self.scoops[scoop - 1].lookup(label) {
            Some(reference) => self.memory_get(reference),
            None => None,
        }
    }

    /// Writes `value` into cell `reference`.
    pub fn memory_set(&mut self, reference: Reference, value: RuntimeValue)
        requires
            old(self).wf(),
        ensures
            final(self).wf(),
            final(self).cell(reference) == Some(value),
            forall|r: Reference| r != reference ==> #[trigger] final(self).cell(r) == old(self).cell(r),
            final(self).same_scopes(*old(self)),
            final(self).ref_count() == old(self).ref_count(),
    {
        proof {
            broadcast use vstd::std_specs::btree::group_btree_axioms;
        }
        let _ = self.memory.insert(reference, value);
    }

    /// The value in cell `reference`.
    pub fn memory_get(&self, reference: Reference) -> (r: Option<&RuntimeValue>)
        requires
            self.wf(),
        ensures
            r == match self.cell(reference) {
                Some(v) => Some(&v),
                None => None::<&RuntimeValue>,
            },
    {
        proof {
            broadcast use vstd::std_specs::btree::group_btree_axioms;
        }
        self.memory.get(&reference)
    }
}


/// Every node of `n` stands in a scope among `1..=count`.
pub open spec fn scopes_within(n: Node, count: nat) -> bool
    decreases n,
{
    &&& 1 <= n.0.meta.scoop <= count
    &&& match n.0.left {
        Some(l) => scopes_within(l, count),
        None => true,
    }
    &&& match n.0.right {
        Some(r) => scopes_within(r, count),
        None => true,
    }
}

pub proof fn lemma_scopes_within_grow(n: Node, c1: nat, c2: nat)
    requires
        scopes_within(n, c1),
        c1 <= c2,
    ensures
        scopes_within(n, c2),
    decreases n,
{
    match n.0.left {
        Some(l) => lemma_scopes_within_grow(l, c1, c2),
        None => {},
    }
    match n.0.right {
        Some(r) => lemma_scopes_within_grow(r, c1, c2),
        None => {},
    }
}

/// The scopes of `n`, which stands under scope `parent`, are as the first
/// pass gives them in `ctx`: a block stands in a new scope whose parent is
/// `parent`, every other node stands in `parent`, and children stand under
/// their node's scope.
pub open spec fn scoped_under(ctx: AstContext, n: Node, parent: int) -> bool
    decreases n,
{
    let s = n.0.meta.scoop as int;
    &&& if n.0.content is Block {
        ctx.valid_scope(s) && s > parent && ctx.scope(s).parent == Some(parent as ScoopID)
    } else {
        s == parent
    }
    &&& match n.0.left {
        Some(l) => scoped_under(ctx, l, s),
        None => true,
    }
    &&& match n.0.right {
        Some(r) => scoped_under(ctx, r, s),
        None => true,
    }
}

pub proof fn lemma_scoped_under_grow(a: AstContext, b: AstContext, n: Node, parent: int)
    requires
        scoped_under(a, n, parent),
        a.scope_count() <= b.scope_count(),
        forall|s: int| a.valid_scope(s) ==> #[trigger] b.scope(s).parent == a.scope(s).parent,
    ensures
        scoped_under(b, n, parent),
    decreases n,
{
    let s = n.0.meta.scoop as int;
    match n.0.left {
        Some(l) => lemma_scoped_under_grow(a, b, l, s),
        None => {},
    }
    match n.0.right {
        Some(r) => lemma_scoped_under_grow(a, b, r, s),
        None => {},
    }
}

/// The first pass over `n`, which stands under scope `parent`, when `next`
/// scopes exist: the tree with each node's scope set (a block opens scope
/// `next + 1`, numbered in the order of the walk), and the parents of the
/// scopes it opens, in order.
pub open spec fn scope_pass(n: Node, parent: ScoopID, next: nat) -> (Node, Seq<ScoopID>)
    decreases n,
{
    let is_block = n.0.content is Block;
    let s: ScoopID = if is_block { (next + 1) as ScoopID } else { parent };
    let own: Seq<ScoopID> = if is_block { seq![parent] } else { Seq::empty() };
    let lp: (Option<Node>, Seq<ScoopID>) = match n.0.left {
        Some(l) => (Some(scope_pass(l, s, next + own.len()).0), scope_pass(l, s, next + own.len()).1),
        None => (None, Seq::empty()),
    };
    let rp: (Option<Node>, Seq<ScoopID>) = match n.0.right {
        Some(r) => (Some(scope_pass(r, s, next + own.len() + lp.1.len()).0), scope_pass(r, s, next + own.len() + lp.1.len()).1),
        None => (None, Seq::empty()),
    };
    (
        Node(Box::new(CommandAstNode {
            meta: NodeContext { scoop: s, reference_to: n.0.meta.reference_to },
            content: n.0.content,
            left: lp.0,
            right: rp.0,
        })),
        own + lp.1 + rp.1,
    )
}

/// The parents of the scopes a program has after the first pass: the main
/// scope `1` has none, scope `k + 2` has the `k`-th of `ps`.
pub open spec fn pass_parents(ps: Seq<ScoopID>) -> spec_fn(int) -> Option<ScoopID> {
    |s: int| if 2 <= s <= ps.len() + 1 {
        Some(ps[s - 2])
    } else {
        None
    }
}

/// The built-in commands, bound in the main scope.
pub open spec fn builtin_binds() -> spec_fn(int, Seq<char>) -> bool {
    |s: int, m: Seq<char>| s == 1 && (m == "ls"@ || m == "cat"@ || m == "sleep"@ || m == "echo"@)
}

/// The resolution pass over the program `root` after the first pass and the
/// binding of the built-in commands.
pub open spec fn names_resolve(root: Node) -> Result<spec_fn(int, Seq<char>) -> bool, Seq<char>> {
    let (t, ps) = scope_pass(root, 1, 1);
    deps_walk(ps.len() + 1, pass_parents(ps), builtin_binds(), t)
}

/// The scopes of `a` and `b` agree node for node.
pub open spec fn same_scoops(a: Node, b: Node) -> bool
    decreases a,
{
    &&& a.0.meta.scoop == b.0.meta.scoop
    &&& match (a.0.left, b.0.left) {
        (Some(x), Some(y)) => same_scoops(x, y),
        _ => true,
    }
    &&& match (a.0.right, b.0.right) {
        (Some(x), Some(y)) => same_scoops(x, y),
        _ => true,
    }
}

proof fn lemma_view_children(a: Node, b: Node)
    requires
        crate::grammar::node_view(a) == crate::grammar::node_view(b),
    ensures
        a.0.left is Some <==> b.0.left is Some,
        a.0.right is Some <==> b.0.right is Some,
        a.0.left is Some ==> crate::grammar::node_view(a.0.left->Some_0) == crate::grammar::node_view(b.0.left->Some_0),
        a.0.right is Some ==> crate::grammar::node_view(a.0.right->Some_0) == crate::grammar::node_view(b.0.right->Some_0),
        crate::grammar::kind_of(a.0.content) == crate::grammar::kind_of(b.0.content),
        crate::grammar::text_of(a.0.content) == crate::grammar::text_of(b.0.content),
        (a.0.content is Block) == (b.0.content is Block),
        (a.0.content is Call) == (b.0.content is Call),
        (a.0.content is Assignation) == (b.0.content is Assignation),
        (a.0.content is Declare) == (b.0.content is Declare),
        (a.0.content is Ident) == (b.0.content is Ident),
        a.0.content is Ident ==> name_of(a) == name_of(b),
{
    let ka = crate::grammar::kind_of(a.0.content);
    let kb = crate::grammar::kind_of(b.0.content);
    assert(ka == kb);
    if a.0.left is Some {
        assert(crate::grammar::node_view(a).left == Some(Box::new(crate::grammar::node_view(a.0.left->Some_0))));
    }
    if a.0.right is Some {
        assert(crate::grammar::node_view(a).right == Some(Box::new(crate::grammar::node_view(a.0.right->Some_0))));
    }
}

/// The first pass treats trees with one grammar view alike.
pub proof fn lemma_scope_pass_view(a: Node, b: Node, parent: ScoopID, next: nat)
    requires
        crate::grammar::node_view(a) == crate::grammar::node_view(b),
    ensures
        crate::grammar::node_view(scope_pass(a, parent, next).0) == crate::grammar::node_view(scope_pass(b, parent, next).0),
        same_scoops(scope_pass(a, parent, next).0, scope_pass(b, parent, next).0),
        scope_pass(a, parent, next).1 == scope_pass(b, parent, next).1,
    decreases a,
{
    lemma_view_children(a, b);
    let is_block = a.0.content is Block;
    let s: ScoopID = if is_block { (next + 1) as ScoopID } else { parent };
    let own: Seq<ScoopID> = if is_block { seq![parent] } else { Seq::empty() };
    if a.0.left is Some {
        lemma_scope_pass_view(a.0.left->Some_0, b.0.left->Some_0, s, next + own.len());
    }
    let ll: nat = if a.0.left is Some { scope_pass(a.0.left->Some_0, s, next + own.len()).1.len() } else { 0 };
    if a.0.right is Some {
        lemma_scope_pass_view(a.0.right->Some_0, b.0.right->Some_0, s, next + own.len() + ll);
    }
    reveal_with_fuel(same_scoops, 2);
}

/// The resolution pass treats well-formed trees with one grammar view and
/// the same scopes alike.
pub proof fn lemma_walk_view(
    count: nat,
    par: spec_fn(int) -> Option<ScoopID>,
    binds: spec_fn(int, Seq<char>) -> bool,
    a: Node,
    b: Node,
)
    requires
        crate::grammar::node_view(a) == crate::grammar::node_view(b),
        same_scoops(a, b),
        wf_node(a),
        wf_node(b),
    ensures
        deps_walk(count, par, binds, a) == deps_walk(count, par, binds, b),
    decreases a,
{
    lemma_view_children(a, b);
    reveal_with_fuel(same_scoops, 2);
    if a.0.left is Some {
        lemma_view_children(a.0.left->Some_0, b.0.left->Some_0);
        lemma_walk_view(count, par, binds, a.0.left->Some_0, b.0.left->Some_0);
    }
    let b1 = binds_after(count, par, binds, a.0.left);
    let b2 = match a.0.left {
        Some(x) => if x.0.content is Ident { binds } else { b1 },
        None => binds,
    };
    let b3 = match a.0.left {
        Some(x) => declared(binds, a.0.meta.scoop as int, name_of(x)),
        None => binds,
    };
    if a.0.right is Some {
        lemma_view_children(a.0.right->Some_0, b.0.right->Some_0);
        lemma_walk_view(count, par, b1, a.0.right->Some_0, b.0.right->Some_0);
        lemma_walk_view(count, par, b2, a.0.right->Some_0, b.0.right->Some_0);
        lemma_walk_view(count, par, b3, a.0.right->Some_0, b.0.right->Some_0);
    }
}

/// Trees with one grammar view have one size.
pub proof fn lemma_view_size(a: Node, b: Node)
    requires
        crate::grammar::node_view(a) == crate::grammar::node_view(b),
    ensures
        tree_size(a) == tree_size(b),
    decreases a,
{
    lemma_view_children(a, b);
    if a.0.left is Some {
        lemma_view_size(a.0.left->Some_0, b.0.left->Some_0);
    }
    if a.0.right is Some {
        lemma_view_size(a.0.right->Some_0, b.0.right->Some_0);
    }
}

proof fn lemma_push_keeps(s: Seq<ScoopID>, v: ScoopID, c: ScoopID)
    ensures
        s.contains(c) ==> s.push(v).contains(c),
        s.push(v).contains(v),
{
    if s.contains(c) {
        let k = choose|k: int| 0 <= k < s.len() && s[k] == c;
        assert(s.push(v)[k] == c);
    }
    assert(s.push(v)[s.len() as int] == v);
}

pub proof fn lemma_scope_pass_shape(n: Node, parent: ScoopID, next: nat)
    ensures
        same_shape(n, scope_pass(n, parent, next).0),
    decreases n,
{
    let is_block = n.0.content is Block;
    let s: ScoopID = if is_block { (next + 1) as ScoopID } else { parent };
    let own: Seq<ScoopID> = if is_block { seq![parent] } else { Seq::empty() };
    if n.0.left is Some {
        lemma_scope_pass_shape(n.0.left->Some_0, s, next + own.len());
    }
    let ll: nat = if n.0.left is Some { scope_pass(n.0.left->Some_0, s, next + own.len()).1.len() } else { 0 };
    if n.0.right is Some {
        lemma_scope_pass_shape(n.0.right->Some_0, s, next + own.len() + ll);
    }
    reveal_with_fuel(same_shape, 2);
}

/// Whether the names of a program resolve depends on its grammar view alone.
pub proof fn lemma_names_resolve_view(a: Node, b: Node)
    requires
        crate::grammar::node_view(a) == crate::grammar::node_view(b),
        wf_node(a),
        wf_node(b),
    ensures
        names_resolve(a) == names_resolve(b),
{
    lemma_scope_pass_view(a, b, 1, 1);
    lemma_scope_pass_shape(a, 1, 1);
    lemma_scope_pass_shape(b, 1, 1);
    let ta = scope_pass(a, 1, 1).0;
    let tb = scope_pass(b, 1, 1).0;
    lemma_same_shape_wf(a, ta);
    lemma_same_shape_wf(b, tb);
    let ps = scope_pass(a, 1, 1).1;
    lemma_walk_view(ps.len() + 1, pass_parents(ps), builtin_binds(), ta, tb);
}

/// The resolution pass over `n` declares `name` in scope `s`: some `let`
/// that the walk reaches binds it there.
pub open spec fn walk_declares(n: Node, s: int, name: Seq<char>) -> bool
    decreases n,
{
    let in_left = match n.0.left {
        Some(l) => walk_declares(l, s, name),
        None => false,
    };
    let in_right = match n.0.right {
        Some(r) => walk_declares(r, s, name),
        None => false,
    };
    match n.0.content {
        CommandAstBody::Call => in_left,
        CommandAstBody::Assignation => in_right || (n.0.left matches Some(x) && !(x.0.content is Ident) && in_left),
        CommandAstBody::Declare => in_right || (n.0.left matches Some(x) && s == n.0.meta.scoop && name == name_of(x)),
        _ => in_left || in_right,
    }
}

proof fn lemma_fresh_stays(a: AstContext, b: AstContext, c: AstContext, s: int, nm: Seq<char>)
    requires
        b.owns(s, nm),
        a.ref_count() < b.scope(s).reference_of(nm) <= b.ref_count(),
        refs_fresh(b, c),
        b.grows_into(&c),
    ensures
        c.owns(s, nm),
        a.ref_count() < c.scope(s).reference_of(nm) <= c.ref_count(),
{
    assert(c.owns(s, nm));
}

/// The names bound in each scope of `ctx`.
pub open spec fn binds_of(ctx: AstContext) -> spec_fn(int, Seq<char>) -> bool {
    |s: int, name: Seq<char>| ctx.owns(s, name)
}

/// The parent of each scope of `ctx`.
pub open spec fn parents_of(ctx: AstContext) -> spec_fn(int) -> Option<ScoopID> {
    |s: int| if ctx.valid_scope(s) {
        ctx.scope(s).parent
    } else {
        None
    }
}

/// `binds` with `name` also bound in scope `s`.
pub open spec fn declared(binds: spec_fn(int, Seq<char>) -> bool, s: int, name: Seq<char>) -> spec_fn(int, Seq<char>) -> bool {
    |t: int, m: Seq<char>| binds(t, m) || (t == s && m == name)
}

/// The nearest scope from `s` up the parents `par` (among `1..=count`) in
/// which `binds` binds `name`.
pub open spec fn resolve_with(
    count: nat,
    par: spec_fn(int) -> Option<ScoopID>,
    binds: spec_fn(int, Seq<char>) -> bool,
    s: int,
    name: Seq<char>,
) -> Option<ScoopID>
    decreases s,
{
    if !(1 <= s <= count) {
        None
    } else if binds(s, name) {
        Some(s as ScoopID)
    } else {
        match par(s) {
            Some(p) => if 0 < p < s {
                resolve_with(count, par, binds, p as int, name)
            } else {
                None
            },
            None => None,
        }
    }
}

/// The resolution pass over `n`, in the order it walks the tree, starting
/// from the bindings `binds`: a declaration binds its name in its scope; a
/// call target, and an identifier assigned to, must resolve. Gives the
/// bindings after the walk, or the first name that resolves nowhere.
pub open spec fn deps_walk(
    count: nat,
    par: spec_fn(int) -> Option<ScoopID>,
    binds: spec_fn(int, Seq<char>) -> bool,
    n: Node,
) -> Result<spec_fn(int, Seq<char>) -> bool, Seq<char>>
    decreases n,
{
    match n.0.content {
        CommandAstBody::Call => {
            let after_left = match n.0.left {
                Some(l) => deps_walk(count, par, binds, l),
                None => Ok(binds),
            };
            match after_left {
                Err(e) => Err(e),
                Ok(b1) => match n.0.right {
                    Some(x) => if resolve_with(count, par, b1, x.0.meta.scoop as int, name_of(x)) is Some {
                        Ok(b1)
                    } else {
                        Err(name_of(x))
                    },
                    None => Ok(b1),
                },
            }
        },
        CommandAstBody::Assignation => {
            let after_left = match n.0.left {
                Some(x) => if x.0.content is Ident {
                    if resolve_with(count, par, binds, x.0.meta.scoop as int, name_of(x)) is Some {
                        Ok(binds)
                    } else {
                        Err(name_of(x))
                    }
                } else {
                    deps_walk(count, par, binds, x)
                },
                None => Ok(binds),
            };
            match after_left {
                Err(e) => Err(e),
                Ok(b1) => match n.0.right {
                    Some(r) => deps_walk(count, par, b1, r),
                    None => Ok(b1),
                },
            }
        },
        CommandAstBody::Declare => {
            let b1 = match n.0.left {
                Some(x) => declared(binds, n.0.meta.scoop as int, name_of(x)),
                None => binds,
            };
            match n.0.right {
                Some(r) => deps_walk(count, par, b1, r),
                None => Ok(b1),
            }
        },
        _ => {
            let after_left = match n.0.left {
                Some(l) => deps_walk(count, par, binds, l),
                None => Ok(binds),
            };
            match after_left {
                Err(e) => Err(e),
                Ok(b1) => match n.0.right {
                    Some(r) => deps_walk(count, par, b1, r),
                    None => Ok(b1),
                },
            }
        },
    }
}

/// The bindings after walking `n`, or `binds` where the walk fails.
pub open spec fn binds_after(
    count: nat,
    par: spec_fn(int) -> Option<ScoopID>,
    binds: spec_fn(int, Seq<char>) -> bool,
    n: Option<Node>,
) -> spec_fn(int, Seq<char>) -> bool {
    match n {
        Some(x) => match deps_walk(count, par, binds, x) {
            Ok(b) => b,
            Err(_) => binds,
        },
        None => binds,
    }
}

/// `o` is `i` as the resolution pass leaves it: each call target and each
/// identifier assigned to points at the nearest scope binding its name at
/// the point of the walk, and each declared identifier at its scope.
pub open spec fn resolved_as(
    count: nat,
    par: spec_fn(int) -> Option<ScoopID>,
    binds: spec_fn(int, Seq<char>) -> bool,
    i: Node,
    o: Node,
) -> bool
    decreases i,
{
    match i.0.content {
        CommandAstBody::Call => {
            let left_ok = match (i.0.left, o.0.left) {
                (Some(a), Some(b)) => resolved_as(count, par, binds, a, b),
                _ => true,
            };
            let b1 = binds_after(count, par, binds, i.0.left);
            left_ok && match (i.0.right, o.0.right) {
                (Some(x), Some(y)) => y.0.meta.reference_to == resolve_with(count, par, b1, x.0.meta.scoop as int, name_of(x)),
                _ => true,
            }
        },
        CommandAstBody::Assignation => {
            let left_ok = match (i.0.left, o.0.left) {
                (Some(x), Some(y)) => if x.0.content is Ident {
                    y.0.meta.reference_to == resolve_with(count, par, binds, x.0.meta.scoop as int, name_of(x))
                } else {
                    resolved_as(count, par, binds, x, y)
                },
                _ => true,
            };
            let b1 = match i.0.left {
                Some(x) => if x.0.content is Ident {
                    binds
                } else {
                    binds_after(count, par, binds, i.0.left)
                },
                None => binds,
            };
            left_ok && match (i.0.right, o.0.right) {
                (Some(a), Some(b)) => resolved_as(count, par, b1, a, b),
                _ => true,
            }
        },
        CommandAstBody::Declare => {
            let left_ok = match o.0.left {
                Some(y) => y.0.meta.reference_to == Some(i.0.meta.scoop),
                None => true,
            };
            let b1 = match i.0.left {
                Some(x) => declared(binds, i.0.meta.scoop as int, name_of(x)),
                None => binds,
            };
            left_ok && match (i.0.right, o.0.right) {
                (Some(a), Some(b)) => resolved_as(count, par, b1, a, b),
                _ => true,
            }
        },
        _ => {
            let left_ok = match (i.0.left, o.0.left) {
                (Some(a), Some(b)) => resolved_as(count, par, binds, a, b),
                _ => true,
            };
            let b1 = binds_after(count, par, binds, i.0.left);
            left_ok && match (i.0.right, o.0.right) {
                (Some(a), Some(b)) => resolved_as(count, par, b1, a, b),
                _ => true,
            }
        },
    }
}

/// Every binding of `b` is one `a` had, to the same cell, or points at a cell
/// allocated after `a`: bindings never reuse an older cell.
pub open spec fn refs_fresh(a: AstContext, b: AstContext) -> bool {
    &&& a.ref_count() <= b.ref_count()
    &&& forall|s: int, nm: Seq<char>| #[trigger] b.owns(s, nm) ==> (a.owns(s, nm) && b.scope(s).reference_of(nm)
        == a.scope(s).reference_of(nm)) || (a.ref_count() < b.scope(s).reference_of(nm) <= b.ref_count())
}

proof fn lemma_refs_fresh_trans(a: AstContext, b: AstContext, c: AstContext)
    requires
        refs_fresh(a, b),
        refs_fresh(b, c),
    ensures
        refs_fresh(a, c),
{
    assert forall|s: int, nm: Seq<char>| #[trigger] c.owns(s, nm) implies (a.owns(s, nm) && c.scope(s).reference_of(nm)
        == a.scope(s).reference_of(nm)) || (a.ref_count() < c.scope(s).reference_of(nm) <= c.ref_count()) by {
        if b.owns(s, nm) && c.scope(s).reference_of(nm) == b.scope(s).reference_of(nm) {
            assert(b.owns(s, nm));
        }
    }
}

proof fn lemma_refs_fresh_refl(a: AstContext)
    ensures
        refs_fresh(a, a),
{
}

proof fn lemma_same_parents(a: AstContext, b: AstContext)
    requires
        a.grows_into(&b),
    ensures
        parents_of(a) == parents_of(b),
{
    assert(parents_of(a) =~= parents_of(b));
}

proof fn lemma_binds_ext(ctx: AstContext, b: spec_fn(int, Seq<char>) -> bool)
    requires
        forall|s: int, nm: Seq<char>| #[trigger] ctx.owns(s, nm) == b(s, nm),
    ensures
        binds_of(ctx) == b,
{
    assert(binds_of(ctx) =~= b);
}

pub proof fn lemma_resolve_with(ctx: AstContext, s: int, name: Seq<char>)
    ensures
        resolve_with(ctx.scope_count(), parents_of(ctx), binds_of(ctx), s, name) == ctx.resolve(s, name),
    decreases s,
{
    if ctx.valid_scope(s) && !ctx.owns(s, name) {
        match ctx.scope(s).parent {
            Some(p) => if 0 < p < s {
                lemma_resolve_with(ctx, p as int, name);
            },
            None => {},
        }
    }
}

/// The identifier `x` is resolved in `ctx`: it points at a scope that binds
/// its name.
pub open spec fn ident_resolved(ctx: AstContext, x: Node) -> bool {
    x.0.meta.reference_to matches Some(s) && ctx.owns(s as int, name_of(x))
}

/// Every identifier that `n` uses as a call target or an assignment target
/// is resolved in `ctx`, and every declared name is bound in the declaring
/// scope, which its identifier points at.
pub open spec fn uses_resolved(ctx: AstContext, n: Node) -> bool
    decreases n,
{
    let left_ok = match n.0.left {
        Some(l) => uses_resolved(ctx, l),
        None => true,
    };
    let right_ok = match n.0.right {
        Some(r) => uses_resolved(ctx, r),
        None => true,
    };
    match n.0.content {
        CommandAstBody::Call => left_ok && match n.0.right {
            Some(x) => x.0.content is Ident && ident_resolved(ctx, x),
            None => true,
        },
        CommandAstBody::Assignation => right_ok && match n.0.left {
            Some(x) => if x.0.content is Ident {
                ident_resolved(ctx, x)
            } else {
                uses_resolved(ctx, x)
            },
            None => true,
        },
        CommandAstBody::Declare => right_ok && match n.0.left {
            Some(x) => x.0.meta.reference_to == Some(n.0.meta.scoop) && ctx.owns(
                n.0.meta.scoop as int,
                name_of(x),
            ),
            None => true,
        },
        _ => left_ok && right_ok,
    }
}

pub proof fn lemma_uses_resolved_grow(a: AstContext, b: AstContext, n: Node)
    requires
        uses_resolved(a, n),
        a.grows_into(&b),
    ensures
        uses_resolved(b, n),
    decreases n,
{
    match n.0.left {
        Some(l) => {
            if !(n.0.content is Call || n.0.content is Declare || n.0.content is Assignation) || (n.0.content is Assignation && !(l.0.content is Ident)) {
                lemma_uses_resolved_grow(a, b, l);
            }
            if n.0.content is Call {
                lemma_uses_resolved_grow(a, b, l);
            }
        },
        None => {},
    }
    match n.0.right {
        Some(r) => {
            if !(n.0.content is Call) {
                lemma_uses_resolved_grow(a, b, r);
            }
        },
        None => {},
    }
}

proof fn lemma_grows_trans(a: AstContext, b: AstContext, c: AstContext)
    requires
        a.grows_into(&b),
        b.grows_into(&c),
    ensures
        a.grows_into(&c),
{
    assert forall|s: int| a.valid_scope(s) implies #[trigger] c.scope(s).parent == a.scope(s).parent by {
        assert(b.scope(s).parent == a.scope(s).parent);
    }
    assert forall|s: int, name: Seq<char>| #[trigger] a.owns(s, name) implies c.owns(s, name) by {
        assert(b.owns(s, name));
    }
}

impl AstContext {
    /// The scope that `resolve` finds binds the name, and is the scope of the
    /// use or one of its ancestors.
    pub proof fn lemma_resolve_owns(&self, s: int, name: Seq<char>)
        requires
            self.wf(),
        ensures
            self.resolve(s, name) matches Some(t) ==> self.owns(t as int, name) && 1 <= t <= s,
        decreases s,
    {
        if self.valid_scope(s) && !self.owns(s, name) {
            match self.scope(s).parent {
                Some(p) => if 0 < p < s {
                    self.lemma_resolve_owns(p as int, name);
                },
                None => {},
            }
        }
    }

    /// Resolves the identifier `node` from its scope up the parents; an
    /// unbound name is `ReferenceNotFound`.
    pub fn aggregate_reference(&self, node: Node) -> (r: Result<Node, Error>)
        requires
            self.wf(),
            node.0.content is Ident,
            self.valid_scope(node.0.meta.scoop as int),
        ensures
            r is Ok <==> self.resolve(node.0.meta.scoop as int, name_of(node)) is Some,
            r matches Ok(n) ==> n.0.content == node.0.content && n.0.left == node.0.left
                && n.0.right == node.0.right && n.0.meta.scoop == node.0.meta.scoop
                && n.0.meta.reference_to == self.resolve(node.0.meta.scoop as int, name_of(node)),
            r matches Err(e) ==> e is ReferenceNotFound && e->ReferenceNotFound_0@ == name_of(node),
    {
        let ghost name = name_of(node);
        let Node(b) = node;
        let CommandAstNode { meta, content, left, right } = *b;
        let label: &str = match &content {
            CommandAstBody::Ident { span } => span.as_str(),
            _ => "",
        };
        let mut cur = meta.scoop;
        loop
            invariant
                self.wf(),
                self.valid_scope(cur as int),
                label@ == name,
                name == name_of(node),
                meta == node.0.meta,
                content == node.0.content,
                left == node.0.left,
                right == node.0.right,
                self.resolve(cur as int, name) == self.resolve(meta.scoop as int, name),
            decreases cur,
        {
            match self.scoops[cur - 1].lookup(label) {
                Some(_) => {
                    let found = cur;
                    assert(self.owns(cur as int, name));
                    assert(self.resolve(cur as int, name) == Some(cur));
                    return Ok(Node(Box::new(CommandAstNode {
                        meta: NodeContext { scoop: meta.scoop, reference_to: Some(found) },
                        content,
                        left,
                        right,
                    })));
                },
                None => {},
            }
            match self.scoops[cur - 1].parent {
                Some(p) => {
                    proof {
                        assert(self.scoops[cur - 1].parent matches Some(q) ==> 1 <= q <= cur - 1);
                    }
                    cur = p;
                },
                None => {
                    assert(!self.owns(cur as int, name));
                    assert(self.resolve(cur as int, name) is None);
                    return Err(Error::ReferenceNotFound(String::from_str(label)));
                },
            }
        }
    }

    fn bind_in(&mut self, scoop: ScoopID, label: &str, reference: Reference)
        requires
            old(self).wf(),
            old(self).valid_scope(scoop as int),
        ensures
            final(self).wf(),
            final(self).owns(scoop as int, label@),
            old(self).grows_into(final(self)),
            final(self).ref_count() == old(self).ref_count(),
            final(self).scope_count() == old(self).scope_count(),
            forall|s: int, name: Seq<char>| #[trigger] final(self).owns(s, name) <==> (old(self).owns(s, name) || (s == scoop && name == label@)),
            forall|x: Reference| #[trigger] final(self).cell(x) == old(self).cell(x),
            final(self).scope(scoop as int).reference_of(label@) == reference,
            forall|s: int, name: Seq<char>| !(s == scoop && name == label@) && old(self).owns(s, name) ==> #[trigger] final(self).scope(s).reference_of(name)
                == old(self).scope(s).reference_of(name),
    {
        let ghost before = *self;
        let mut sc = self.scoops.remove(scoop - 1);
        sc.bind(label, reference);
        self.scoops.insert(scoop - 1, sc);
        proof {
            assert(self.memory == old(self).memory);
            assert forall|x: Reference| #[trigger] self.cell(x) == old(self).cell(x) by {}
            assert forall|k: int| 0 <= k < self.scoops.len() && k != scoop - 1 implies #[trigger] self.scoops[k] == before.scoops[k] by {}
            assert forall|s: int, name: Seq<char>| #[trigger] old(self).owns(s, name) implies self.owns(s, name) by {
                if s != scoop {
                    assert(self.scoops[s - 1] == before.scoops[s - 1]);
                }
            }
            assert forall|s: int, name: Seq<char>| !(s == scoop && name == label@) && old(self).owns(s, name) implies #[trigger] self.scope(s).reference_of(name)
                == old(self).scope(s).reference_of(name) by {
                if s != scoop {
                    assert(self.scoops[s - 1] == before.scoops[s - 1]);
                }
            }
            assert forall|s: int| old(self).valid_scope(s) implies #[trigger] self.scope(s).parent == old(self).scope(s).parent by {
                if s != scoop {
                    assert(self.scoops[s - 1] == before.scoops[s - 1]);
                }
            }
        }
    }

    /// Gives every node its scope: a block opens a child scope of the scope it
    /// stands in, every other node stands in its parent's scope.
    #[verifier::rlimit(60)]
    pub fn aggregate_scoop(&mut self, node: Node, parent: ScoopID) -> (r: Node)
        requires
            old(self).wf(),
            old(self).valid_scope(parent as int),
            old(self).scope_count() + tree_size(node) <= usize::MAX,
        ensures
            final(self).wf(),
            same_shape(node, r),
            scopes_within(r, final(self).scope_count()),
            scoped_under(*final(self), r, parent as int),
            r.0.meta.scoop == (if node.0.content is Block {
                old(self).scope_count() + 1int
            } else {
                parent as int
            }),
            old(self).scope_count() <= final(self).scope_count() <= old(self).scope_count()
                + tree_size(node),
            final(self).ref_count() == old(self).ref_count(),
            forall|s: int| old(self).valid_scope(s) ==> #[trigger] final(self).scope(s).parent
                == old(self).scope(s).parent,
            forall|s: int, name: Seq<char>| old(self).valid_scope(s) ==> (#[trigger] final(self).owns(s, name) <==> old(self).owns(s, name)),
            forall|s: int, name: Seq<char>| old(self).valid_scope(s) && old(self).owns(s, name) ==> #[trigger] final(self).scope(s).reference_of(name)
                == old(self).scope(s).reference_of(name),
            forall|x: Reference| #[trigger] final(self).cell(x) == old(self).cell(x),
            r == scope_pass(node, parent, old(self).scope_count()).0,
            final(self).scope_count() == old(self).scope_count() + scope_pass(node, parent, old(self).scope_count()).1.len(),
            forall|k: int| 0 <= k < scope_pass(node, parent, old(self).scope_count()).1.len() ==> #[trigger] final(self).scope(
                old(self).scope_count() + 1 + k).parent == Some(scope_pass(node, parent, old(self).scope_count()).1[k]),
            forall|s: int, name: Seq<char>| old(self).scope_count() < s <= final(self).scope_count() ==> !#[trigger] final(self).owns(s, name),
            forall|k: int| 0 <= k < scope_pass(node, parent, old(self).scope_count()).1.len() ==> 1 <= #[trigger] scope_pass(node, parent, old(self).scope_count()).1[k]
                <= old(self).scope_count() + k,
            forall|k: int| 0 <= k < scope_pass(node, parent, old(self).scope_count()).1.len() ==> final(self).scope(
                #[trigger] scope_pass(node, parent, old(self).scope_count()).1[k] as int).children@.contains((old(self).scope_count() + 1 + k) as ScoopID),
            forall|t: int, c: ScoopID| old(self).valid_scope(t) && #[trigger] old(self).scope(t).children@.contains(c) ==> final(self).scope(t).children@.contains(c),
        decreases node,
    {
        let ghost start = *self;
        let ghost sp = scope_pass(node, parent, start.scope_count());
        let ghost nl = node.0.left;
        let ghost nr = node.0.right;
        let Node(b) = node;
        let CommandAstNode { meta, content, left, right } = *b;
        let is_block = matches!(content, CommandAstBody::Block);
        let scope = if is_block {
            self.create_scoop(Some(parent))
        } else {
            parent
        };
        let ghost mid = *self;
        let left2 = match left {
            Some(l) => Some(self.aggregate_scoop(l, scope)),
            None => None,
        };
        let ghost mid2 = *self;
        let right2 = match right {
            Some(x) => Some(self.aggregate_scoop(x, scope)),
            None => None,
        };
        proof {
            if left2 is Some {
                lemma_scopes_within_grow(left2->Some_0, mid2.scope_count(), self.scope_count());
                lemma_scoped_under_grow(mid2, *self, left2->Some_0, scope as int);
            }
            if is_block {
                assert(mid.scope(scope as int).parent == Some(parent));
                assert(mid2.scope(scope as int).parent == Some(parent));
                assert(self.scope(scope as int).parent == Some(parent));
            }
        }
        let result = Node(Box::new(CommandAstNode {
            meta: NodeContext { scoop: scope, reference_to: meta.reference_to },
            content,
            left: left2,
            right: right2,
        }));
        proof {
            reveal_with_fuel(same_shape, 2);
            let own: Seq<ScoopID> = if is_block { seq![parent] } else { Seq::empty() };
            let lps: Seq<ScoopID> = match nl {
                Some(l) => scope_pass(l, scope, start.scope_count() + own.len()).1,
                None => Seq::empty(),
            };
            let rps: Seq<ScoopID> = match nr {
                Some(x) => scope_pass(x, scope, start.scope_count() + own.len() + lps.len()).1,
                None => Seq::empty(),
            };
            assert(sp.1 == own + lps + rps);
            assert(mid.scope_count() == start.scope_count() + own.len());
            assert(mid2.scope_count() == mid.scope_count() + lps.len());
            assert forall|t: int, c: ScoopID| start.valid_scope(t) && #[trigger] start.scope(t).children@.contains(c) implies mid.scope(t).children@.contains(c) by {
                if is_block && t == parent as int {
                    lemma_push_keeps(start.scope(t).children@, (start.scope_count() + 1) as ScoopID, c);
                }
            }
            assert forall|t: int, c: ScoopID| start.valid_scope(t) && #[trigger] start.scope(t).children@.contains(c) implies self.scope(t).children@.contains(c) by {
                assert(mid.scope(t).children@.contains(c));
                assert(mid.valid_scope(t));
                assert(mid2.scope(t).children@.contains(c));
                assert(mid2.valid_scope(t));
            }
            assert forall|k: int| 0 <= k < sp.1.len() implies self.scope(#[trigger] sp.1[k] as int).children@.contains((start.scope_count() + 1 + k) as ScoopID) by {
                if k < own.len() {
                    lemma_push_keeps(start.scope(parent as int).children@, (start.scope_count() + 1) as ScoopID, 0);
                    assert(mid.scope(parent as int).children@.contains((start.scope_count() + 1) as ScoopID));
                    assert(mid.valid_scope(parent as int));
                    assert(mid2.scope(parent as int).children@.contains((start.scope_count() + 1) as ScoopID));
                    assert(mid2.valid_scope(parent as int));
                } else if k < own.len() + lps.len() {
                    let k2 = k - own.len();
                    assert(1 <= lps[k2] <= mid.scope_count() + k2);
                    assert(mid2.scope(lps[k2] as int).children@.contains((mid.scope_count() + 1 + k2) as ScoopID));
                    assert(mid2.valid_scope(lps[k2] as int));
                } else {
                    let k3 = k - own.len() - lps.len();
                    assert(self.scope(rps[k3] as int).children@.contains((mid2.scope_count() + 1 + k3) as ScoopID));
                }
            }
            assert forall|k: int| 0 <= k < sp.1.len() implies #[trigger] self.scope(start.scope_count() + 1 + k).parent == Some(sp.1[k]) by {
                if k < own.len() {
                    assert(mid.scope(start.scope_count() + 1int).parent == Some(parent));
                    assert(mid.valid_scope(start.scope_count() + 1int));
                    assert(mid2.scope(start.scope_count() + 1int).parent == Some(parent));
                } else if k < own.len() + lps.len() {
                    let k2 = k - own.len();
                    assert(mid2.scope(mid.scope_count() + 1 + k2).parent == Some(lps[k2]));
                    assert(mid2.valid_scope(mid.scope_count() + 1 + k2));
                } else {
                    let k3 = k - own.len() - lps.len();
                    assert(self.scope(mid2.scope_count() + 1 + k3).parent == Some(rps[k3]));
                }
            }
        }
        result
    }

    /// Resolves the names the tree uses: a declaration binds its name in its
    /// scope to a fresh cell; an assignment to a bare name and a call resolve
    /// their identifier up the scope chain; everything else is walked.
    pub fn aggregate_deps(&mut self, node: Node) -> (r: Result<Node, Error>)
        requires
            old(self).wf(),
            wf_node(node),
            scopes_within(node, old(self).scope_count()),
            old(self).ref_count() + tree_size(node) <= usize::MAX,
        ensures
            final(self).wf(),
            final(self).scope_count() == old(self).scope_count(),
            old(self).grows_into(final(self)),
            r is Ok ==> forall|s: int, nm: Seq<char>| #[trigger] walk_declares(node, s, nm) ==> final(self).owns(s, nm)
                && old(self).ref_count() < final(self).scope(s).reference_of(nm) <= final(self).ref_count(),
            refs_fresh(*old(self), *final(self)),
            final(self).ref_count() <= old(self).ref_count() + tree_size(node),
            r matches Ok(n) ==> same_shape(node, n),
            r matches Ok(n) ==> wf_node(n),
            r matches Ok(n) ==> scopes_within(n, final(self).scope_count()),
            r matches Ok(n) ==> n.0.meta.scoop == node.0.meta.scoop,
            r matches Ok(n) ==> uses_resolved(*final(self), n),
            r matches Err(e) ==> e is ReferenceNotFound,
            ({
                let w = deps_walk(old(self).scope_count(), parents_of(*old(self)), binds_of(*old(self)), node);
                &&& (r is Ok <==> w is Ok)
                &&& (r is Err ==> r->Err_0 is ReferenceNotFound && r->Err_0->ReferenceNotFound_0@ == w->Err_0)
                &&& (r is Ok ==> forall|s: int, nm: Seq<char>| #[trigger] final(self).owns(s, nm) == (w->Ok_0)(s, nm))
                &&& (r is Ok ==> resolved_as(old(self).scope_count(), parents_of(*old(self)), binds_of(*old(self)), node, r->Ok_0))
            }),
        decreases node,
    {
        let ghost start = *self;
        let ghost cnt = start.scope_count();
        let ghost par = parents_of(start);
        let ghost bnd = binds_of(start);
        let ghost nl = node.0.left;
        let ghost nr = node.0.right;
        proof {
            reveal_with_fuel(scopes_within, 2);
        }
        let Node(b) = node;
        let CommandAstNode { meta, content, left, right } = *b;
        let mut left2: Option<Node> = None;
        let mut right2: Option<Node> = None;
        match content {
            CommandAstBody::Call => {
                match left {
                    Some(l) => match self.aggregate_deps(l) {
                        Ok(x) => { left2 = Some(x); },
                        Err(e) => { return Err(e); },
                    },
                    None => {},
                }
                let ghost cur = *self;
                let ghost b1 = binds_after(cnt, par, bnd, nl);
                proof {
                    lemma_same_parents(start, cur);
                    lemma_binds_ext(cur, b1);
                }
                match right {
                    Some(x) => {
                        proof {
                            self.lemma_resolve_owns(x.0.meta.scoop as int, name_of(x));
                            lemma_resolve_with(cur, x.0.meta.scoop as int, name_of(x));
                        }
                        match self.aggregate_reference(x) {
                            Ok(y) => { right2 = Some(y); },
                            Err(e) => { return Err(e); },
                        }
                    },
                    None => {},
                }
                proof {
                    assert forall|sc: int, nm: Seq<char>| #[trigger] walk_declares(node, sc, nm) implies self.owns(sc, nm)
                        && start.ref_count() < self.scope(sc).reference_of(nm) <= self.ref_count() by {
                        assert(nl is Some && walk_declares(nl->Some_0, sc, nm));
                    }
                }
            },
            CommandAstBody::Assignation => {
                match left {
                    Some(l) => {
                        if matches!(l.0.content, CommandAstBody::Ident { .. }) {
                            proof {
                                self.lemma_resolve_owns(l.0.meta.scoop as int, name_of(l));
                                lemma_resolve_with(start, l.0.meta.scoop as int, name_of(l));
                            }
                            match self.aggregate_reference(l) {
                                Ok(y) => { left2 = Some(y); },
                                Err(e) => { return Err(e); },
                            }
                        } else {
                            match self.aggregate_deps(l) {
                                Ok(y) => { left2 = Some(y); },
                                Err(e) => { return Err(e); },
                            }
                        }
                    },
                    None => {},
                }
                let ghost mid = *self;
                let ghost b1 = match nl {
                    Some(x) => if x.0.content is Ident {
                        bnd
                    } else {
                        binds_after(cnt, par, bnd, nl)
                    },
                    None => bnd,
                };
                proof {
                    lemma_same_parents(start, mid);
                    lemma_binds_ext(mid, b1);
                }
                match right {
                    Some(x) => match self.aggregate_deps(x) {
                        Ok(y) => { right2 = Some(y); },
                        Err(e) => { return Err(e); },
                    },
                    None => {},
                }
                proof {
                    if left2 is Some && !(left2->Some_0.0.content is Ident) {
                        lemma_uses_resolved_grow(mid, *self, left2->Some_0);
                    }
                    assert forall|sc: int, nm: Seq<char>| #[trigger] walk_declares(node, sc, nm) implies self.owns(sc, nm)
                        && start.ref_count() < self.scope(sc).reference_of(nm) <= self.ref_count() by {
                        if nr is Some && walk_declares(nr->Some_0, sc, nm) {
                        } else {
                            assert(nl is Some && walk_declares(nl->Some_0, sc, nm));
                            assert(mid.owns(sc, nm));
                            if nr is Some {
                                lemma_fresh_stays(start, mid, *self, sc, nm);
                            }
                        }
                    }
                }
            },
            CommandAstBody::Declare => {
                let reference = self.new_ref();
                proof {
                    assert(start.grows_into(self));
                }
                let ghost before_bind = *self;
                match left {
                    Some(x) => {
                        let Node(xb) = x;
                        let CommandAstNode { meta: xmeta, content: xcontent, left: xl, right: xr } = *xb;
                        let label: &str = match &xcontent {
                            CommandAstBody::Ident { span } => span.as_str(),
                            _ => "",
                        };
                        self.bind_in(meta.scoop, label, reference);
                        left2 = Some(Node(Box::new(CommandAstNode {
                            meta: NodeContext { scoop: xmeta.scoop, reference_to: Some(meta.scoop) },
                            content: xcontent,
                            left: xl,
                            right: xr,
                        })));
                    },
                    None => {},
                }
                let ghost mid = *self;
                let ghost b1 = match nl {
                    Some(x) => declared(bnd, meta.scoop as int, name_of(x)),
                    None => bnd,
                };
                proof {
                    assert(start.grows_into(&mid));
                    lemma_same_parents(start, mid);
                    assert forall|t: int, m: Seq<char>| #[trigger] mid.owns(t, m) == b1(t, m) by {
                        assert(before_bind.owns(t, m) == start.owns(t, m));
                    }
                    lemma_binds_ext(mid, b1);
                }
                match right {
                    Some(x) => match self.aggregate_deps(x) {
                        Ok(y) => { right2 = Some(y); },
                        Err(e) => {
                            proof {
                                lemma_grows_trans(start, mid, *self);
                            }
                            return Err(e);
                        },
                    },
                    None => {},
                }
                proof {
                    lemma_grows_trans(start, mid, *self);
                    assert forall|sc: int, nm: Seq<char>| #[trigger] walk_declares(node, sc, nm) implies self.owns(sc, nm)
                        && start.ref_count() < self.scope(sc).reference_of(nm) <= self.ref_count() by {
                        if nr is Some && walk_declares(nr->Some_0, sc, nm) {
                        } else {
                            assert(mid.owns(sc, nm));
                            assert(mid.scope(sc).reference_of(nm) == start.ref_count() + 1);
                            if nr is Some {
                                lemma_fresh_stays(start, mid, *self, sc, nm);
                            }
                        }
                    }
                }
            },
            _ => {
                match left {
                    Some(l) => match self.aggregate_deps(l) {
                        Ok(x) => { left2 = Some(x); },
                        Err(e) => { return Err(e); },
                    },
                    None => {},
                }
                let ghost mid = *self;
                let ghost b1 = binds_after(cnt, par, bnd, nl);
                proof {
                    lemma_same_parents(start, mid);
                    lemma_binds_ext(mid, b1);
                }
                match right {
                    Some(x) => match self.aggregate_deps(x) {
                        Ok(y) => { right2 = Some(y); },
                        Err(e) => { return Err(e); },
                    },
                    None => {},
                }
                proof {
                    if left2 is Some {
                        lemma_uses_resolved_grow(mid, *self, left2->Some_0);
                    }
                    assert forall|sc: int, nm: Seq<char>| #[trigger] walk_declares(node, sc, nm) implies self.owns(sc, nm)
                        && start.ref_count() < self.scope(sc).reference_of(nm) <= self.ref_count() by {
                        if nr is Some && walk_declares(nr->Some_0, sc, nm) {
                        } else {
                            assert(nl is Some && walk_declares(nl->Some_0, sc, nm));
                            assert(mid.owns(sc, nm));
                            if nr is Some {
                                lemma_fresh_stays(start, mid, *self, sc, nm);
                            }
                        }
                    }
                }
            },
        }
        let result = Node(Box::new(CommandAstNode { meta, content, left: left2, right: right2 }));
        proof {
            reveal_with_fuel(same_shape, 2);
            if node.0.left is Some {
                lemma_same_shape_refl(node.0.left->Some_0);
            }
            if node.0.right is Some {
                lemma_same_shape_refl(node.0.right->Some_0);
            }
            assert(same_shape(node, result));
            lemma_same_shape_wf(node, result);
        }
        Ok(result)
    }
}

} // verus!
