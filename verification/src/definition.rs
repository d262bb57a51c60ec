//! Static tree definitions: a flat node array indexed by `NodeId`.
use vstd::prelude::*;

use crate::blackboard::{
    find_key_spec, BlackboardKeyDefinition, BlackboardKeyId, BlackboardKeyView, BlackboardSchema,
};
use crate::nodes::{NodeKind, NodeKindView, ServiceBinding, ServiceBindingView};

verus! {

#[derive(Clone, Copy, Debug, PartialEq, Eq, Structural, Hash, PartialOrd, Ord)]
pub struct BehaviorTreeDefinitionId(pub u16);

#[derive(Clone, Copy, Debug, PartialEq, Eq, Structural, Hash, PartialOrd, Ord)]
pub struct NodeId(pub u16);

#[derive(Debug)]
pub struct NodeDefinition {
    pub id: NodeId,
    pub name: String,
    pub path: String,
    pub kind: NodeKind,
    pub children: Vec<NodeId>,
    pub services: Vec<ServiceBinding>,
    pub tags: Vec<String>,
    pub watch_keys: Vec<BlackboardKeyId>,
}

#[derive(Debug)]
pub struct BehaviorTreeDefinition {
    pub name: String,
    pub root: NodeId,
    pub nodes: Vec<NodeDefinition>,
    pub blackboard_schema: BlackboardSchema,
    pub watched_keys: Vec<BlackboardKeyId>,
}

/// The content of a node definition.
pub struct NodeView {
    pub id: NodeId,
    pub name: Seq<char>,
    pub path: Seq<char>,
    pub kind: NodeKindView,
    pub children: Seq<NodeId>,
    pub services: Seq<ServiceBindingView>,
    pub tags: Seq<Seq<char>>,
    pub watch_keys: Seq<BlackboardKeyId>,
}

/// The content of a tree definition.
pub struct DefinitionView {
    pub name: Seq<char>,
    pub root: NodeId,
    pub nodes: Seq<NodeView>,
    pub keys: Seq<BlackboardKeyView>,
    pub watched_keys: Seq<BlackboardKeyId>,
}

pub open spec fn service_views(services: Seq<ServiceBinding>) -> Seq<ServiceBindingView> {
    services.map_values(|s: ServiceBinding| s@)
}

pub open spec fn text_views(texts: Seq<String>) -> Seq<Seq<char>> {
    texts.map_values(|t: String| t@)
}

pub open spec fn key_views(keys: Seq<BlackboardKeyDefinition>) -> Seq<BlackboardKeyView> {
    keys.map_values(|k: BlackboardKeyDefinition| k@)
}

pub open spec fn node_views(nodes: Seq<NodeDefinition>) -> Seq<NodeView> {
    nodes.map_values(|n: NodeDefinition| n@)
}

impl View for NodeDefinition {
    type V = NodeView;

    open spec fn view(&self) -> NodeView {
        NodeView {
            id: self.id,
            name: self.name@,
            path: self.path@,
            kind: self.kind@,
            children: self.children@,
            services: service_views(self.services@),
            tags: text_views(self.tags@),
            watch_keys: self.watch_keys@,
        }
    }
}

impl View for BehaviorTreeDefinition {
    type V = DefinitionView;

    open spec fn view(&self) -> DefinitionView {
        DefinitionView {
            name: self.name@,
            root: self.root,
            nodes: node_views(self.nodes@),
            keys: key_views(self.blackboard_schema.keys@),
            watched_keys: self.watched_keys@,
        }
    }
}

/// The child lists of `nodes`, position by position.
pub open spec fn graph(nodes: Seq<NodeView>) -> Seq<Seq<NodeId>> {
    nodes.map_values(|n: NodeView| n.children)
}

/// Every child id names a node.
pub open spec fn children_in_range(g: Seq<Seq<NodeId>>) -> bool {
    forall|i: int, j: int| 0 <= i < g.len() && 0 <= j < g[i].len() ==> (#[trigger] g[i][j]).0 < g.len()
}

/// Leaves have no children and decorators exactly one.
pub open spec fn arity_ok(nodes: Seq<NodeView>) -> bool {
    forall|i: int|
        0 <= i < nodes.len() ==> {
            &&& ((#[trigger] nodes[i]).kind.is_leaf() ==> nodes[i].children.len() == 0)
            &&& (nodes[i].kind.is_decorator() ==> nodes[i].children.len() == 1)
        }
}

/// `rank` gives every child a smaller rank than its parent.
pub open spec fn ranked_by(g: Seq<Seq<NodeId>>, rank: Seq<nat>) -> bool {
    &&& rank.len() == g.len()
    &&& forall|i: int, j: int|
        0 <= i < g.len() && 0 <= j < g[i].len() ==> rank[(#[trigger] g[i][j]).0 as int] < rank[i]
}

/// The child relation has no cycle.
pub open spec fn acyclic(g: Seq<Seq<NodeId>>) -> bool {
    exists|rank: Seq<nat>| ranked_by(g, rank)
}

/// A rank witnessing acyclicity.
pub open spec fn some_rank(g: Seq<Seq<NodeId>>) -> Seq<nat> {
    choose|rank: Seq<nat>| ranked_by(g, rank)
}

impl DefinitionView {
    /// A definition the tick engine can run: the root and every child exist,
    /// leaves and decorators have their arity, and there is no cycle.
    pub open spec fn executable(self) -> bool {
        &&& self.root.0 < self.nodes.len()
        &&& children_in_range(graph(self.nodes))
        &&& arity_ok(self.nodes)
        &&& acyclic(graph(self.nodes))
    }
}

/// A copy of a list of texts.
fn clone_texts(texts: &Vec<String>) -> (r: Vec<String>)
    ensures
        text_views(r@) == text_views(texts@),
{
    let mut out: Vec<String> = Vec::new();
    let mut i: usize = 0;
    while i < texts.len()
        invariant
            i <= texts@.len(),
            out@.len() == i,
            forall|j: int| 0 <= j < i ==> (#[trigger] out@[j])@ == texts@[j]@,
        decreases texts@.len() - i,
    {
        out.push(texts[i].clone());
        i = i + 1;
    }
    assert(text_views(out@) =~= text_views(texts@));
    out
}

fn clone_services(services: &Vec<ServiceBinding>) -> (r: Vec<ServiceBinding>)
    ensures
        service_views(r@) == service_views(services@),
{
    let mut out: Vec<ServiceBinding> = Vec::new();
    let mut i: usize = 0;
    while i < services.len()
        invariant
            i <= services@.len(),
            out@.len() == i,
            forall|j: int| 0 <= j < i ==> (#[trigger] out@[j])@ == services@[j]@,
        decreases services@.len() - i,
    {
        out.push(services[i].clone());
        i = i + 1;
    }
    assert(service_views(out@) =~= service_views(services@));
    out
}

fn clone_ids(ids: &Vec<NodeId>) -> (r: Vec<NodeId>)
    ensures
        r@ == ids@,
{
    let mut out: Vec<NodeId> = Vec::new();
    let mut i: usize = 0;
    while i < ids.len()
        invariant
            i <= ids@.len(),
            out@ == ids@.take(i as int),
        decreases ids@.len() - i,
    {
        out.push(ids[i]);
        assert(out@ =~= ids@.take(i + 1));
        i = i + 1;
    }
    assert(ids@.take(i as int) == ids@);
    out
}

impl Clone for NodeDefinition {
    fn clone(&self) -> (r: Self)
        ensures
            r@ == self@,
    {
        NodeDefinition {
            id: self.id,
            name: self.name.clone(),
            path: self.path.clone(),
            kind: self.kind.clone(),
            children: clone_ids(&self.children),
            services: clone_services(&self.services),
            tags: clone_texts(&self.tags),
            watch_keys: crate::nodes::keys_from_slice(self.watch_keys.as_slice()),
        }
    }
}

impl Clone for BehaviorTreeDefinition {
    fn clone(&self) -> (r: Self)
        ensures
            r@ == self@,
    {
        let mut nodes: Vec<NodeDefinition> = Vec::new();
        let mut i: usize = 0;
        while i < self.nodes.len()
            invariant
                i <= self.nodes@.len(),
                nodes@.len() == i,
                forall|j: int| 0 <= j < i ==> (#[trigger] nodes@[j])@ == self.nodes@[j]@,
            decreases self.nodes@.len() - i,
        {
            nodes.push(self.nodes[i].clone());
            i = i + 1;
        }
        assert(node_views(nodes@) =~= node_views(self.nodes@));
        BehaviorTreeDefinition {
            name: self.name.clone(),
            root: self.root,
            nodes,
            blackboard_schema: self.blackboard_schema.clone(),
            watched_keys: crate::nodes::keys_from_slice(self.watched_keys.as_slice()),
        }
    }
}

impl BehaviorTreeDefinition {
    pub fn node(&self, id: NodeId) -> (r: Option<&NodeDefinition>)
        ensures
            (id.0 < self.nodes@.len()) == (r is Some),
            r is Some ==> *r->0 == self.nodes@[id.0 as int],
    {
        let index = id.0 as usize;
        if index < self.nodes.len() {
            Some(&self.nodes[index])
        } else {
            None
        }
    }

    pub fn find_blackboard_key(&self, name: &str) -> (r: Option<BlackboardKeyId>)
        ensures
            r == find_key_spec(self.blackboard_schema.keys@, name@),
    {
        self.blackboard_schema.find_key(name)
    }
}


/// `b` is a child of `a`.
pub open spec fn edge(g: Seq<Seq<NodeId>>, a: int, b: int) -> bool {
    &&& 0 <= a < g.len()
    &&& exists|j: int| 0 <= j < g[a].len() && (#[trigger] g[a][j]).0 == b
}

/// Step `k` of `p` follows a child edge.
pub open spec fn path_step(g: Seq<Seq<NodeId>>, p: Seq<int>, k: int) -> bool {
    edge(g, p[k], p[k + 1])
}

/// `p` is a non-empty walk along child edges.
pub open spec fn is_path(g: Seq<Seq<NodeId>>, p: Seq<int>) -> bool {
    &&& p.len() >= 1
    &&& forall|k: int| 0 <= k < p.len() - 1 ==> #[trigger] path_step(g, p, k)
}

/// `b` can be reached from `a` by following child edges (in zero or more
/// steps).
pub open spec fn reachable(g: Seq<Seq<NodeId>>, a: int, b: int) -> bool {
    exists|p: Seq<int>| #[trigger] is_path(g, p) && p[0] == a && p.last() == b
}

/// `x` lies on a cycle of child edges.
pub open spec fn on_cycle(g: Seq<Seq<NodeId>>, x: int) -> bool {
    exists|p: Seq<int>| #[trigger] is_path(g, p) && p.len() >= 2 && p[0] == x && p.last() == x
}

pub proof fn lemma_path_single(g: Seq<Seq<NodeId>>, a: int)
    ensures
        is_path(g, seq![a]),
        reachable(g, a, a),
{
    assert(is_path(g, seq![a]));
}

pub proof fn lemma_path_push(g: Seq<Seq<NodeId>>, p: Seq<int>, b: int)
    requires
        is_path(g, p),
        edge(g, p.last(), b),
    ensures
        is_path(g, p.push(b)),
        p.push(b)[0] == p[0],
        p.push(b).last() == b,
{
    let q = p.push(b);
    assert forall|k: int| 0 <= k < q.len() - 1 implies #[trigger] path_step(g, q, k) by {
        if k < p.len() - 1 {
            assert(path_step(g, p, k));
        } else {
            assert(q[k] == p.last());
        }
    }
}

pub proof fn lemma_reach_step(g: Seq<Seq<NodeId>>, a: int, b: int, c: int)
    requires
        reachable(g, a, b),
        edge(g, b, c),
    ensures
        reachable(g, a, c),
{
    let p = choose|p: Seq<int>| #[trigger] is_path(g, p) && p[0] == a && p.last() == b;
    lemma_path_push(g, p, c);
}


/// Reaching `c` from a child `b` of `a` reaches it from `a`.
pub proof fn lemma_reach_prepend(g: Seq<Seq<NodeId>>, a: int, b: int, c: int)
    requires
        edge(g, a, b),
        reachable(g, b, c),
    ensures
        reachable(g, a, c),
{
    let p = choose|p: Seq<int>| #[trigger] is_path(g, p) && p[0] == b && p.last() == c;
    let q = seq![a] + p;
    assert forall|k: int| 0 <= k < q.len() - 1 implies #[trigger] path_step(g, q, k) by {
        if k == 0 {
            assert(q[0] == a && q[1] == p[0]);
        } else {
            assert(path_step(g, p, k - 1));
            assert(q[k] == p[k - 1] && q[k + 1] == p[k]);
        }
    }
    assert(is_path(g, q) && q[0] == a && q.last() == c);
}

/// A node other than `a` that `a` reaches is reached through one of `a`'s
/// children.
pub proof fn lemma_reach_split(g: Seq<Seq<NodeId>>, a: int, c: int)
    requires
        reachable(g, a, c),
        c != a,
    ensures
        exists|m: int| 0 <= m < g[a].len() && #[trigger] reachable(g, a, c) && reachable(g, g[a][m].0 as int, c),
{
    let p = choose|p: Seq<int>| #[trigger] is_path(g, p) && p[0] == a && p.last() == c;
    assert(p.len() >= 2);
    assert(path_step(g, p, 0));
    let m = choose|m: int| 0 <= m < g[a].len() && (#[trigger] g[a][m]).0 == p[1];
    let q = p.subrange(1, p.len() as int);
    assert forall|k: int| 0 <= k < q.len() - 1 implies #[trigger] path_step(g, q, k) by {
        assert(path_step(g, p, k + 1));
        assert(q[k] == p[k + 1] && q[k + 1] == p[k + 2]);
    }
    assert(is_path(g, q) && q[0] == p[1] && q.last() == c);
}

/// Anything a child reaches, its parent reaches; so whatever a parent does
/// not reach, no child reaches either.
pub proof fn lemma_outside_child(g: Seq<Seq<NodeId>>, a: int, m: int)
    requires
        0 <= a < g.len(),
        0 <= m < g[a].len(),
    ensures
        forall|j: int| #[trigger] reachable(g, g[a][m].0 as int, j) ==> reachable(g, a, j),
{
    assert(edge(g, a, g[a][m].0 as int));
    assert forall|j: int| #[trigger] reachable(g, g[a][m].0 as int, j) implies reachable(g, a, j) by {
        lemma_reach_prepend(g, a, g[a][m].0 as int, j);
    }
}

} // verus!
