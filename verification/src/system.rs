//! The system builder: registration of named, fallible work routines with
//! declared dependencies, and a one-shot build pass that runs every reachable
//! routine exactly once in dependency order.
//!
//! The builder owns a name table, a dependency graph whose node `0` is the
//! synthetic root, and a reusable cycle oracle.  Registration keeps the graph
//! acyclic; `build` executes along a topological order of the nodes reachable
//! from the root and stops at the first failure.

use crate::graph::{
    add_edge_rel, add_node_rel, lemma_acyclic_add_edge, lemma_no_incoming_unreachable,
    lemma_no_succ_reaches, lemma_order_respects_reaches, lemma_reaches_last_step,
    lemma_same_edges_acyclic, topo_order_ok, CycleOracle, DepGraph,
};
use vstd::prelude::*;

verus! {

/// The errors of the scheduler.
#[derive(Debug, Clone, PartialEq, Eq)]
pub enum SystemError {
    /// The name table referenced a node absent from the graph while a
    /// routine was being replaced: an internal-consistency violation.
    DuplicateSystem(String),
    /// A requested dependency edge would have created a cycle.
    WouldCycle,
    /// A dependency was named during registration but its system was never
    /// registered, and the stand-in node was executed.
    MissingDependentSystem(String),
}

pub type SystemResult<T> = Result<T, SystemError>;

/// A unit of work that a system performs when the build pass reaches it.
///
/// Implementations live with the caller; the scheduler only demands a
/// fallible, zero-argument call.
pub trait Routine {
    fn run(&mut self) -> SystemResult<()>;
}

/// Opaque handle of a registered system within one builder.
#[derive(Debug, Clone, Copy, PartialEq, Eq, Structural)]
pub struct NodeId(pub usize);

impl NodeId {
    /// The handle as a plain index.
    pub fn index(self) -> (r: usize)
        ensures
            r == self.0,
    {
        self.0
    }
}

/// What a graph node carries: the root marker, a stand-in for a dependency
/// that was named but never registered, or a real routine.
pub enum SystemNode<R> {
    Root,
    Stub(String),
    System(R),
}

/// First node id registered under `name`, scanning from the front.
pub open spec fn lookup(table: Seq<(String, usize)>, name: Seq<char>) -> Option<usize>
    decreases table.len(),
{
    if table.len() == 0 {
        None
    } else if table.first().0@ == name {
        Some(table.first().1)
    } else {
        lookup(table.drop_first(), name)
    }
}

pub proof fn lemma_lookup_some(table: Seq<(String, usize)>, name: Seq<char>)
    requires
        lookup(table, name) is Some,
    ensures
        exists|i: int|
            0 <= i < table.len() && (#[trigger] table[i]).0@ == name && table[i].1 == lookup(
                table,
                name,
            ).unwrap(),
    decreases table.len(),
{
    if table.first().0@ == name {
        assert(table[0].0@ == name && table[0].1 == lookup(table, name).unwrap());
    } else {
        lemma_lookup_some(table.drop_first(), name);
        let i = choose|i: int|
            0 <= i < table.drop_first().len() && (#[trigger] table.drop_first()[i]).0@ == name
                && table.drop_first()[i].1 == lookup(table.drop_first(), name).unwrap();
        assert(table[i + 1].0@ == name && table[i + 1].1 == lookup(table, name).unwrap());
    }
}

pub proof fn lemma_lookup_none(table: Seq<(String, usize)>, name: Seq<char>)
    requires
        lookup(table, name) is None,
    ensures
        forall|i: int| 0 <= i < table.len() ==> (#[trigger] table[i]).0@ != name,
    decreases table.len(),
{
    if table.len() > 0 {
        lemma_lookup_none(table.drop_first(), name);
        assert forall|i: int| 0 <= i < table.len() implies (#[trigger] table[i]).0@ != name by {
            if i > 0 {
                assert(table.drop_first()[i - 1] == table[i]);
            }
        }
    }
}

proof fn lemma_lookup_push(table: Seq<(String, usize)>, name: Seq<char>, entry: (String, usize))
    ensures
        lookup(table.push(entry), name) == (if lookup(table, name) is Some {
            lookup(table, name)
        } else if entry.0@ == name {
            Some(entry.1)
        } else {
            None
        }),
    decreases table.len(),
{
    let t2 = table.push(entry);
    if table.len() == 0 {
        assert(t2[0] == entry);
        assert(t2.first() == entry);
        assert(t2.drop_first() =~= Seq::<(String, usize)>::empty());
        assert(lookup(table, name) is None);
        assert(lookup(t2.drop_first(), name) is None);
        if entry.0@ == name {
            assert(lookup(t2, name) == Some(entry.1));
        } else {
            assert(lookup(t2, name) is None);
        }
    } else {
        assert(t2[0] == table[0]);
        assert(t2.first() == table.first());
        assert(t2.drop_first() =~= table.drop_first().push(entry));
        lemma_lookup_push(table.drop_first(), name, entry);
        assert(lookup(t2.drop_first(), name) == lookup(table.drop_first().push(entry), name));
    }
}

/// A name found in a well-formed builder's table resolves to a real,
/// non-root node.
pub proof fn lemma_lookup_in_range<R>(b: SystemBuilder<R>, name: Seq<char>)
    requires
        builder_wf(b),
        lookup(b.table@, name) is Some,
    ensures
        1 <= lookup(b.table@, name).unwrap() < b.graph.node_count(),
{
    lemma_lookup_some(b.table@, name);
}

/// Extending the table with a fresh entry resolves that entry's name to it
/// and leaves every other name as it was.
pub proof fn lemma_lookup_after_push(table: Seq<(String, usize)>, name: String, node: usize)
    ensures
        lookup(table, name@) is None ==> lookup(table.push((name, node)), name@) == Some(node),
        forall|other: Seq<char>|
            other != name@ ==> lookup(table.push((name, node)), other) == lookup(table, other),
{
    lemma_lookup_push(table, name@, (name, node));
    assert forall|other: Seq<char>| other != name@ implies lookup(table.push((name, node)), other)
        == lookup(table, other) by {
        lemma_lookup_push(table, other, (name, node));
        if lookup(table, other) is Some {
        } else {
            assert(lookup(table.push((name, node)), other) is None);
        }
    }
}

/// The dependency-ordered construction scheduler.
///
/// Owns the name table, the dependency graph (node `0` is the root) and the
/// cycle oracle for its whole registration phase; a single `build` call
/// consumes it.
pub struct SystemBuilder<R> {
    pub table: Vec<(String, usize)>,
    pub payloads: Vec<SystemNode<R>>,
    pub graph: DepGraph,
    pub oracle: CycleOracle,
}

/// The builder's registration-phase invariant: graph and payload arena agree,
/// node `0` is the one root, has no incoming edges and lists each of its
/// successors only once, the graph is acyclic, and the name table maps
/// distinct names to distinct real nodes.
pub open spec fn builder_wf<R>(b: SystemBuilder<R>) -> bool {
    &&& b.graph.wf()
    &&& b.graph.acyclic()
    &&& b.payloads@.len() == b.graph.node_count()
    &&& b.graph.node_count() >= 1
    &&& b.payloads@[0] is Root
    &&& forall|i: int| 1 <= i < b.payloads@.len() ==> !((#[trigger] b.payloads@[i]) is Root)
    &&& forall|u: usize, v: usize| #[trigger] b.graph.has_edge(u, v) ==> v != 0
    &&& forall|i: int, j: int|
        0 <= i < j < b.graph.succ(0).len() ==> (#[trigger] b.graph.succ(0)[i]) != (
        #[trigger] b.graph.succ(0)[j])
    &&& forall|i: int|
        0 <= i < b.table@.len() ==> 1 <= (#[trigger] b.table@[i]).1 < b.graph.node_count()
    &&& forall|i: int, j: int|
        0 <= i < j < b.table@.len() ==> (#[trigger] b.table@[i]).0@ != (
        #[trigger] b.table@[j]).0@
}

/// A freshly constructed builder: only the root node, no names, no edges.
pub open spec fn initial_builder<R>(b: SystemBuilder<R>) -> bool {
    &&& b.table@.len() == 0
    &&& b.payloads@.len() == 1
    &&& b.graph.node_count() == 1
    &&& b.graph.succ(0) == Seq::<usize>::empty()
}

/// `post` is `pre` with `routine` registered under `name` as node `node`:
/// either the routine of the already-known node is replaced in place, or a
/// fresh node is created and recorded.  Nothing else changes.
pub open spec fn register_rel<R>(
    pre: SystemBuilder<R>,
    post: SystemBuilder<R>,
    name: String,
    routine: R,
    node: usize,
) -> bool {
    match lookup(pre.table@, name@) {
        Some(id) => {
            &&& node == id
            &&& post.graph == pre.graph
            &&& post.table@ == pre.table@
            &&& post.payloads@ == pre.payloads@.update(id as int, SystemNode::System(routine))
        },
        None => {
            &&& node == pre.graph.node_count()
            &&& add_node_rel(pre.graph, post.graph, node)
            &&& post.table@ == pre.table@.push((name, node))
            &&& post.payloads@ == pre.payloads@.push(SystemNode::System(routine))
        },
    }
}

impl<R: Routine> SystemBuilder<R> {
    /// A builder holding only the root node.
    pub fn new() -> (r: SystemBuilder<R>)
        ensures
            builder_wf(r),
            initial_builder(r),
    {
        let mut graph = DepGraph { adj: Vec::new() };
        let root = graph.add_node();
        let mut payloads: Vec<SystemNode<R>> = Vec::new();
        payloads.push(SystemNode::Root);
        let b = SystemBuilder { table: Vec::new(), payloads, graph, oracle: CycleOracle::new() };
        proof {
            assert(b.graph.succ(0) =~= Seq::<usize>::empty());
            assert forall|p: Seq<usize>|
                !(#[trigger] b.graph.is_path(p) && p.len() >= 2 && p.first() == p.last()) by {
                if b.graph.is_path(p) && p.len() >= 2 {
                    assert(b.graph.has_edge(p[0], p[1]));
                    assert(b.graph.succ(p[0]).len() == 0);
                }
            }
            assert forall|u: usize, v: usize| !(#[trigger] b.graph.has_edge(u, v)) by {
                if b.graph.has_edge(u, v) {
                    assert(b.graph.succ(u).len() == 0);
                }
            }
        }
        b
    }

    /// Registers `constructor` under `name`: creates the node if the name is
    /// new, otherwise replaces the known node's routine in place, keeping all
    /// of its edges.
    fn add_system_impl(&mut self, name: String, constructor: R) -> (r: SystemResult<usize>)
        requires
            builder_wf(*old(self)),
        ensures
            builder_wf(*final(self)),
            r matches Ok(node) && register_rel(*old(self), *final(self), name, constructor, node),
            r matches Ok(node) && 1 <= node < final(self).graph.node_count(),
            final(self).graph.node_count() >= old(self).graph.node_count(),
    {
        let found = find_entry(&self.table, &name);
        proof {
            if lookup(self.table@, name@) is Some {
                lemma_lookup_some(self.table@, name@);
            } else {
                lemma_lookup_none(self.table@, name@);
            }
        }
        match found {
            Some(id) => {
                if id < self.payloads.len() {
                    self.payloads[id] = SystemNode::System(constructor);
                    Ok(id)
                } else {
                    // The name table knew a node the graph does not hold;
                    // report it rather than ignore it.  The invariant rules
                    // this out.
                    Err(SystemError::DuplicateSystem(name))
                }
            },
            None => {
                let node = self.graph.add_node();
                self.payloads.push(SystemNode::System(constructor));
                self.table.push((name, node));
                proof {
                    lemma_same_edges_acyclic(old(self).graph, self.graph);
                    lemma_lookup_none(old(self).table@, name@);
                    assert forall|i: int, j: int|
                        0 <= i < j < self.table@.len() implies (#[trigger] self.table@[i]).0@ != (
                    #[trigger] self.table@[j]).0@ by {
                        if j < old(self).table@.len() {
                        } else {
                            assert(self.table@[j].0@ == name@);
                            assert(self.table@[i] == old(self).table@[i]);
                        }
                    }
                }
                Ok(node)
            },
        }
    }

    /// Registers a system with no declared dependencies and connects it to
    /// the root, so the build pass always reaches it.  A node already hanging
    /// below the root is not wired again: the root holds exactly one edge to
    /// each dependency-free system, however often its name is re-registered.
    pub fn add_system(&mut self, name: String, constructor: R) -> (r: SystemResult<NodeId>)
        requires
            builder_wf(*old(self)),
        ensures
            builder_wf(*final(self)),
            exists|node: usize|
                {
                    &&& #[trigger] add_system_rel(
                        *old(self),
                        *final(self),
                        name,
                        constructor,
                        node,
                    )
                    &&& r == Ok::<NodeId, SystemError>(NodeId(node))
                },
    {
        let node = match self.add_system_impl(name, constructor) {
            Ok(node) => node,
            Err(e) => {
                return Err(e);
            },
        };
        let ghost mid = *self;
        if !self.graph.edge_exists(0, node) {
            proof {
                if self.graph.reaches(node, 0) {
                    lemma_no_incoming_unreachable(self.graph, node, 0);
                }
            }
            self.graph.add_edge(0, node);
            proof {
                lemma_acyclic_add_edge(mid.graph, self.graph, 0, node);
                let s_new = self.graph.succ(0);
                let s_old = mid.graph.succ(0);
                assert(s_new == s_old.push(node));
                assert forall|i: int, j: int| 0 <= i < j < s_new.len() implies (
                #[trigger] s_new[i]) != (#[trigger] s_new[j]) by {
                    if j < s_old.len() {
                        assert(s_new[i] == s_old[i] && s_new[j] == s_old[j]);
                    } else {
                        assert(s_new[j] == node);
                        assert(s_new[i] == s_old[i]);
                        if s_old[i] == node {
                            assert(s_old.contains(node));
                            assert(mid.graph.has_edge(0, node));
                        }
                    }
                }
            }
        }
        proof {
            assert(add_system_rel(*old(self), *final(self), name, constructor, node));
        }
        Ok(NodeId(node))
    }
}

/// `post` is `pre` with `routine` registered under `name` as node `node` and
/// an edge from the root to it; the edge is added only if it was not already
/// present, so the root never holds parallel edges to one system.
pub open spec fn add_system_rel<R>(
    pre: SystemBuilder<R>,
    post: SystemBuilder<R>,
    name: String,
    routine: R,
    node: usize,
) -> bool {
    exists|mid: SystemBuilder<R>|
        {
            &&& #[trigger] register_rel(pre, mid, name, routine, node)
            &&& post.table@ == mid.table@
            &&& post.payloads@ == mid.payloads@
            &&& if mid.graph.has_edge(0, node) {
                post.graph == mid.graph
            } else {
                add_edge_rel(mid.graph, post.graph, 0, node)
            }
        }
}

/// `a` and `b` agree on everything but the cycle oracle's scratch space.
pub open spec fn same_core<R>(a: SystemBuilder<R>, b: SystemBuilder<R>) -> bool {
    &&& b.table@ == a.table@
    &&& b.payloads@ == a.payloads@
    &&& b.graph == a.graph
}

/// One dependency of `node` processed: an unknown name gains a stand-in node
/// wired below the root and before `node`; a known name is wired before
/// `node` unless that edge would close a cycle, in which case nothing
/// changes and the step reports failure.
pub open spec fn dep_step_rel<R>(
    pre: SystemBuilder<R>,
    post: SystemBuilder<R>,
    node: usize,
    dep: String,
    ok: bool,
) -> bool {
    match lookup(pre.table@, dep@) {
        Some(d) => {
            if pre.graph.reaches(node, d) {
                &&& !ok
                &&& same_core(pre, post)
            } else {
                &&& ok
                &&& post.table@ == pre.table@
                &&& post.payloads@ == pre.payloads@
                &&& add_edge_rel(pre.graph, post.graph, d, node)
            }
        },
        None => {
            &&& ok
            &&& exists|p: usize, mid1: DepGraph, mid2: DepGraph|
                {
                    &&& p == pre.graph.node_count()
                    &&& #[trigger] add_node_rel(pre.graph, mid1, p)
                    &&& #[trigger] add_edge_rel(mid1, mid2, 0, p)
                    &&& add_edge_rel(mid2, post.graph, p, node)
                    &&& post.table@ == pre.table@.push((dep, p))
                    &&& post.payloads@ == pre.payloads@.push(SystemNode::Stub(dep))
                }
        },
    }
}

/// `chain` witnesses that `deps` was processed in order between `pre` and
/// `post`, every step succeeding: `chain[k]` is the state before the `k`-th
/// step.
pub open spec fn chain_ok<R>(
    pre: SystemBuilder<R>,
    post: SystemBuilder<R>,
    node: usize,
    deps: Seq<String>,
    chain: Seq<SystemBuilder<R>>,
) -> bool {
    &&& chain.len() == deps.len() + 1
    &&& chain.first() == pre
    &&& same_core(chain.last(), post)
    &&& forall|k: int|
        0 <= k < deps.len() ==> #[trigger] dep_step_rel(chain[k], chain[k + 1], node, deps[k], true)
}

/// All of `deps` processed in order, every step succeeding.
pub open spec fn deps_ok_rel<R>(
    pre: SystemBuilder<R>,
    post: SystemBuilder<R>,
    node: usize,
    deps: Seq<String>,
) -> bool {
    exists|chain: Seq<SystemBuilder<R>>| #[trigger] chain_ok(pre, post, node, deps, chain)
}

/// `deps` processed in order: either every step succeeded, or the first
/// failing step stopped the call, leaving the earlier steps applied.
pub open spec fn add_deps_rel<R>(
    pre: SystemBuilder<R>,
    post: SystemBuilder<R>,
    node: usize,
    deps: Seq<String>,
    ok: bool,
) -> bool {
    if ok {
        deps_ok_rel(pre, post, node, deps)
    } else {
        exists|mid: SystemBuilder<R>, i: int|
            {
                &&& 0 <= i < deps.len()
                &&& #[trigger] deps_ok_rel(pre, mid, node, deps.take(i))
                &&& dep_step_rel(mid, post, node, deps[i], false)
            }
    }
}

impl<R: Routine> SystemBuilder<R> {
    /// Registers `constructor` under `name` and wires each dependency in
    /// `deps` to run before it.  Unknown dependency names get stand-in nodes
    /// that fail the build if they are never registered; a dependency edge
    /// that would close a cycle aborts the call with `WouldCycle`, leaving
    /// the edges added so far in place.
    pub fn add_system_with_deps(
        &mut self,
        name: String,
        constructor: R,
        deps: Vec<String>,
    ) -> (r: SystemResult<NodeId>)
        requires
            builder_wf(*old(self)),
        ensures
            builder_wf(*final(self)),
            exists|mid: SystemBuilder<R>, node: usize|
                {
                    &&& #[trigger] register_rel(*old(self), mid, name, constructor, node)
                    &&& add_deps_rel(mid, *final(self), node, deps@, r is Ok)
                    &&& r == (if r is Ok {
                        Ok::<NodeId, SystemError>(NodeId(node))
                    } else {
                        Err::<NodeId, SystemError>(SystemError::WouldCycle)
                    })
                },
    {
        let node = match self.add_system_impl(name, constructor) {
            Ok(n) => n,
            Err(e) => {
                return Err(e);
            },
        };
        let ghost s_reg = *self;
        let ghost mut chain: Seq<SystemBuilder<R>> = seq![s_reg];
        let mut i: usize = 0;
        while i < deps.len()
            invariant
                builder_wf(*self),
                i <= deps@.len(),
                1 <= node < self.graph.node_count(),
                register_rel(*old(self), s_reg, name, constructor, node),
                chain.len() == i + 1,
                chain.first() == s_reg,
                chain.last() == *self,
                forall|k: int|
                    0 <= k < i ==> #[trigger] dep_step_rel(
                        chain[k],
                        chain[k + 1],
                        node,
                        deps@[k],
                        true,
                    ),
            decreases deps@.len() - i,
        {
            let dep = deps[i].clone();
            let ghost s_i = *self;
            let found = find_entry(&self.table, &dep);
            match found {
                None => {
                    let p = self.graph.add_node();
                    let ghost g1 = self.graph;
                    self.payloads.push(SystemNode::Stub(dep.clone()));
                    proof {
                        if g1.reaches(p, 0) {
                            lemma_no_succ_reaches(g1, p, 0);
                        }
                    }
                    self.graph.add_edge(0, p);
                    let ghost g2 = self.graph;
                    self.table.push((dep, p));
                    proof {
                        lemma_same_edges_acyclic(s_i.graph, g1);
                        lemma_acyclic_add_edge(g1, g2, 0, p);
                        // node cannot reach p: the only edge into p comes
                        // from the root, and nothing reaches the root.
                        if g2.reaches(node, p) {
                            lemma_reaches_last_step(g2, node, p);
                            let x = choose|x: usize|
                                #[trigger] g2.reaches(node, x) && g2.has_edge(x, p);
                            assert(x == 0) by {
                                if x != 0 {
                                    assert(g1.has_edge(x, p));
                                    assert(s_i.graph.has_edge(x, p));
                                    assert(s_i.graph.in_range(p));
                                }
                            }
                            assert(forall|u: usize| !(#[trigger] g2.has_edge(u, 0)));
                            lemma_no_incoming_unreachable(g2, node, 0);
                            assert(false);
                        }
                    }
                    self.graph.add_edge(p, node);
                    proof {
                        lemma_acyclic_add_edge(g2, self.graph, p, node);
                        // The root's successor list gains only the fresh
                        // node p, which it could not have held before.
                        assert(self.graph.succ(0) == s_i.graph.succ(0).push(p));
                        let s_new = self.graph.succ(0);
                        let s_old = s_i.graph.succ(0);
                        assert forall|ri: int, rj: int| 0 <= ri < rj < s_new.len() implies (
                        #[trigger] s_new[ri]) != (#[trigger] s_new[rj]) by {
                            if rj < s_old.len() {
                                assert(s_new[ri] == s_old[ri] && s_new[rj] == s_old[rj]);
                            } else {
                                assert(s_new[rj] == p);
                                assert(s_new[ri] == s_old[ri]);
                                if s_old[ri] == p {
                                    assert(s_old.contains(p));
                                    assert(s_i.graph.has_edge(0, p));
                                    assert(s_i.graph.in_range(p));
                                }
                            }
                        }
                        lemma_lookup_none(s_i.table@, dep@);
                        assert forall|ti: int, tj: int|
                            0 <= ti < tj < self.table@.len() implies (
                        #[trigger] self.table@[ti]).0@ != (#[trigger] self.table@[tj]).0@ by {
                            if tj < s_i.table@.len() {
                            } else {
                                assert(self.table@[tj].0@ == dep@);
                                assert(self.table@[ti] == s_i.table@[ti]);
                            }
                        }
                        assert(dep_step_rel(s_i, *self, node, deps@[i as int], true)) by {
                            assert(deps@[i as int] == dep);
                            assert(add_node_rel(s_i.graph, g1, p));
                            assert(add_edge_rel(g1, g2, 0, p));
                            assert(add_edge_rel(g2, self.graph, p, node));
                            assert(self.table@ == s_i.table@.push((dep, p)));
                            assert(self.payloads@ == s_i.payloads@.push(SystemNode::Stub(dep)));
                        }
                    }
                },
                Some(d) => {
                    proof {
                        lemma_lookup_some(self.table@, dep@);
                    }
                    let cycles = self.oracle.query(&self.graph, node, d);
                    if cycles {
                        proof {
                            assert(same_core(s_i, *self));
                            assert(dep_step_rel(s_i, *self, node, deps@[i as int], false));
                            assert(chain_ok(s_reg, s_i, node, deps@.take(i as int), chain));
                            assert(deps_ok_rel(s_reg, s_i, node, deps@.take(i as int)));
                            assert(add_deps_rel(s_reg, *self, node, deps@, false));
                        }
                        return Err(SystemError::WouldCycle);
                    }
                    self.graph.add_edge(d, node);
                    proof {
                        lemma_acyclic_add_edge(s_i.graph, self.graph, d, node);
                        assert(d != 0);
                        assert(self.graph.succ(0) == s_i.graph.succ(0));
                        assert(dep_step_rel(s_i, *self, node, deps@[i as int], true));
                    }
                },
            }
            proof {
                let chain0 = chain;
                chain = chain.push(*self);
                assert(chain.last() == *self);
                assert(chain.first() == s_reg);
                assert forall|k: int| 0 <= k < i + 1 implies #[trigger] dep_step_rel(
                    chain[k],
                    chain[k + 1],
                    node,
                    deps@[k],
                    true,
                ) by {
                    if k < i {
                        assert(chain[k] == chain0[k]);
                        assert(chain[k + 1] == chain0[k + 1]);
                        assert(dep_step_rel(chain0[k], chain0[k + 1], node, deps@[k], true));
                    } else {
                        assert(chain[k] == chain0[k]);
                        assert(chain0[k] == chain0.last());
                        assert(chain[k] == s_i);
                        assert(chain[k + 1] == *self);
                    }
                }
            }
            i = i + 1;
        }
        proof {
            assert(deps@.take(deps@.len() as int) =~= deps@);
            assert(chain_ok(s_reg, *self, node, deps@, chain));
            assert(deps_ok_rel(s_reg, *self, node, deps@));
        }
        Ok(NodeId(node))
    }
}

/// Some node reachable from the root is a stand-in for a system that was
/// never registered.
pub open spec fn stub_reachable<R>(g: DepGraph, ps: Seq<SystemNode<R>>) -> bool {
    exists|s: usize| s < g.node_count() && #[trigger] g.reaches(0, s) && ps[s as int] is Stub
}

/// Every reachable real system has a reachable stand-in among its
/// (transitive) dependencies, so no routine may run before some stand-in
/// fails.
pub open spec fn systems_blocked<R>(g: DepGraph, ps: Seq<SystemNode<R>>) -> bool {
    forall|i: usize|
        i < g.node_count() && #[trigger] g.reaches(0, i) && ps[i as int] is System
            ==> exists|s: usize|
            s < g.node_count() && #[trigger] g.reaches(0, s) && ps[s as int] is Stub && g.reaches(
                s,
                i,
            )
}

/// Runs the routine stored at `idx`, leaving every other entry untouched.
fn run_at<R: Routine>(ps: &mut Vec<SystemNode<R>>, idx: usize) -> (r: SystemResult<()>)
    requires
        idx < old(ps)@.len(),
        old(ps)@[idx as int] is System,
    ensures
        final(ps)@.len() == old(ps)@.len(),
        forall|t: int| 0 <= t < old(ps)@.len() && t != idx ==> final(ps)@[t] == old(ps)@[t],
        final(ps)@[idx as int] is System,
{
    match &mut ps[idx] {
        SystemNode::System(rt) => rt.run(),
        // The precondition rules the other payloads out.
        _ => Ok(()),
    }
}

impl<R: Routine> SystemBuilder<R> {
    /// Reserved extension point for declaring a dependency between two
    /// already-registered systems; deliberately leaves the builder unchanged.
    pub fn add_dep(&mut self, _name: String, _dep: String) -> (r: SystemResult<()>)
        ensures
            r == Ok::<(), SystemError>(()),
            *final(self) == *old(self),
    {
        Ok(())
    }

    /// The order a build pass of this builder follows: a topological
    /// ordering of the graph's nodes reachable from the root, every
    /// reachable node exactly once and each only after all of its reachable
    /// predecessors.  `build` computes its order with this same procedure.
    pub fn schedule(&self) -> (order: Vec<usize>)
        requires
            builder_wf(*self),
        ensures
            topo_order_ok(self.graph, 0, order@),
            forall|i: int|
                0 <= i < order@.len() ==> (#[trigger] order@[i]) < self.graph.node_count(),
    {
        self.graph.topo_from(0)
    }

    /// Consumes the builder and runs every routine reachable from the root
    /// exactly once, in the order `schedule` gives — each only after all of
    /// its reachable predecessors — and stops at the first failure,
    /// returning it.
    ///
    /// The root node itself carries no routine and is never invoked; when
    /// nothing reachable carries a routine or a stand-in, the build succeeds
    /// outright.  If a stand-in for an unregistered dependency is reachable,
    /// the build cannot succeed; if moreover every reachable real system
    /// lies behind such a stand-in, the first failure is the stand-in's
    /// `MissingDependentSystem` error and no routine runs at all.
    #[verifier::loop_isolation(false)]
    pub fn build(self) -> (r: SystemResult<()>)
        requires
            builder_wf(self),
        ensures
            r is Ok ==> forall|i: usize|
                i < self.graph.node_count() && #[trigger] self.graph.reaches(0, i) ==> !(
                self.payloads@[i as int] is Stub),
            (forall|i: usize|
                i < self.graph.node_count() && #[trigger] self.graph.reaches(0, i)
                    ==> self.payloads@[i as int] is Root) ==> r == Ok::<(), SystemError>(()),
            stub_reachable(self.graph, self.payloads@) && systems_blocked(
                self.graph,
                self.payloads@,
            ) ==> (r is Err && exists|s: usize|
                s < self.graph.node_count() && #[trigger] self.graph.reaches(0, s) && (
                self.payloads@[s as int] matches SystemNode::Stub(nm) && r == Err::<
                    (),
                    SystemError,
                >(SystemError::MissingDependentSystem(nm)))),
    {
        let ghost g = self.graph;
        let ghost pays = self.payloads@;
        let order = self.schedule();
        let mut this = self;
        let ghost ord = order@;
        let mut j: usize = 0;
        while j < order.len()
            invariant
                j <= ord.len(),
                this.payloads@.len() == pays.len(),
                forall|t: int|
                    0 <= t < pays.len() ==> (((#[trigger] this.payloads@[t]) is Root) <==> (
                    pays[t] is Root)) && ((this.payloads@[t] is Stub) <==> (pays[t] is Stub)) && ((
                    this.payloads@[t] is System) <==> (pays[t] is System)) && (pays[t] is Stub
                        ==> this.payloads@[t] == pays[t]),
                forall|k: int| 0 <= k < j ==> !((#[trigger] pays[ord[k] as int]) is Stub),
            decreases ord.len() - j,
        {
            let idx = order[j];
            assert(g.reaches(0, idx));
            match &this.payloads[idx] {
                SystemNode::Root => {},
                SystemNode::Stub(nm) => {
                    return Err(SystemError::MissingDependentSystem(nm.clone()));
                },
                SystemNode::System(_) => {
                    proof {
                        // Under the blocked hypothesis this point is not
                        // reachable: the stand-in blocking this system would
                        // stand earlier in the order and would have already
                        // stopped the build.
                        if stub_reachable(g, pays) && systems_blocked(g, pays) {
                            assert(pays[idx as int] is System);
                            let s = choose|s: usize|
                                s < g.node_count() && #[trigger] g.reaches(0, s) && pays[s as int]
                                    is Stub && g.reaches(s, idx);
                            assert(ord.contains(s));
                            let ks = choose|k: int| 0 <= k < ord.len() && ord[k] == s;
                            lemma_order_respects_reaches(g, 0, ord, ks, j as int);
                            assert(!(pays[ord[ks] as int] is Stub));
                            assert(false);
                        }
                    }
                    let res = run_at(&mut this.payloads, idx);
                    match res {
                        Ok(()) => {},
                        Err(e) => {
                            return Err(e);
                        },
                    }
                },
            }
            j = j + 1;
        }
        proof {
            if stub_reachable(g, pays) {
                let s = choose|s: usize|
                    s < g.node_count() && #[trigger] g.reaches(0, s) && pays[s as int] is Stub;
                assert(ord.contains(s));
                let ks = choose|k: int| 0 <= k < ord.len() && ord[k] == s;
                assert(!(pays[ord[ks] as int] is Stub));
                assert(false);
            }
        }
        Ok(())
    }
}

/// First entry of `table` whose name equals `name`.
fn find_entry(table: &Vec<(String, usize)>, name: &String) -> (r: Option<usize>)
    ensures
        r == lookup(table@, name@),
{
    let mut k: usize = 0;
    proof {
        assert(table@.skip(0) =~= table@);
    }
    while k < table.len()
        invariant
            k <= table@.len(),
            lookup(table@, name@) == lookup(table@.skip(k as int), name@),
        decreases table@.len() - k,
    {
        if table[k].0 == *name {
            proof {
                assert(table@.skip(k as int).first() == table@[k as int]);
            }
            return Some(table[k].1);
        }
        proof {
            assert(table@.skip(k as int).first() == table@[k as int]);
            assert(table@.skip(k as int).drop_first() =~= table@.skip(k as int + 1));
        }
        k = k + 1;
    }
    proof {
        assert(table@.skip(k as int).len() == 0);
    }
    None
}

} // verus!
