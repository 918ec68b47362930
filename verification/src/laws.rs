//! The scheduler's laws: properties relating several registration calls,
//! stated over the relations that the builder's contracts establish and
//! proved once and for all.
//!
//! Each law takes the builder states before and after the calls it speaks
//! of, with the calls' contracts as hypotheses.

use crate::graph::{
    add_edge_rel, add_node_rel, lemma_add_edge_rel_edges, lemma_add_node_rel_edges, DepGraph,
};
use crate::system::{
    add_deps_rel, add_system_rel, builder_wf, chain_ok, dep_step_rel, deps_ok_rel,
    initial_builder, lemma_lookup_after_push, lemma_lookup_in_range, lookup, register_rel,
    stub_reachable, systems_blocked, SystemBuilder, SystemNode,
};
use vstd::prelude::*;

verus! {

/// After a registration, the name resolves to the returned node, other names
/// resolve as before, and the node holds the new routine.
pub proof fn lemma_register_lookup<R>(
    pre: SystemBuilder<R>,
    post: SystemBuilder<R>,
    name: String,
    routine: R,
    node: usize,
)
    requires
        builder_wf(pre),
        register_rel(pre, post, name, routine, node),
    ensures
        lookup(post.table@, name@) == Some(node),
        forall|other: Seq<char>|
            other != name@ ==> lookup(post.table@, other) == lookup(pre.table@, other),
        1 <= node < post.graph.node_count(),
        post.payloads@.len() == post.graph.node_count(),
        post.payloads@[node as int] == SystemNode::System(routine),
{
    match lookup(pre.table@, name@) {
        Some(id) => {
            lemma_lookup_in_range(pre, name@);
        },
        None => {
            lemma_lookup_after_push(pre.table@, name, node);
        },
    }
}

/// Registering a system whose single dependency name is unknown creates one
/// stand-in node for it, records it under the dependency's name, and wires
/// root -> stand-in -> node; nothing else changes.  Returns the stand-in's
/// handle.
pub proof fn lemma_single_unknown_dep<R>(
    m1: SystemBuilder<R>,
    b1: SystemBuilder<R>,
    node: usize,
    dep: String,
) -> (p: usize)
    requires
        deps_ok_rel(m1, b1, node, seq![dep]),
        lookup(m1.table@, dep@) is None,
        m1.payloads@.len() == m1.graph.node_count(),
    ensures
        p == m1.graph.node_count(),
        lookup(b1.table@, dep@) == Some(p),
        b1.table@ == m1.table@.push((dep, p)),
        b1.payloads@ == m1.payloads@.push(SystemNode::Stub(dep)),
        b1.graph.node_count() == m1.graph.node_count() + 1,
        b1.graph.has_edge(0, p),
        b1.graph.has_edge(p, node),
        forall|u: usize, v: usize|
            b1.graph.has_edge(u, v) <==> (m1.graph.has_edge(u, v) || (u == 0 && v == p) || (u == p
                && v == node)),
{
    let deps = seq![dep];
    let chain = choose|chain: Seq<SystemBuilder<R>>| #[trigger] chain_ok(m1, b1, node, deps, chain);
    assert(dep_step_rel(chain[0], chain[1], node, deps[0], true));
    assert(chain[0] == m1);
    assert(chain[1] == chain.last());
    let step_post = chain[1];
    let (p, mid1, mid2) = choose|p: usize, mid1: DepGraph, mid2: DepGraph|
        {
            &&& p == m1.graph.node_count()
            &&& #[trigger] add_node_rel(m1.graph, mid1, p)
            &&& #[trigger] add_edge_rel(mid1, mid2, 0, p)
            &&& add_edge_rel(mid2, step_post.graph, p, node)
            &&& step_post.table@ == m1.table@.push((dep, p))
            &&& step_post.payloads@ == m1.payloads@.push(SystemNode::Stub(dep))
        };
    lemma_add_node_rel_edges(m1.graph, mid1, p);
    lemma_add_edge_rel_edges(mid1, mid2, 0, p);
    lemma_add_edge_rel_edges(mid2, step_post.graph, p, node);
    lemma_lookup_after_push(m1.table@, dep, p);
    assert(b1.table@ == step_post.table@);
    assert(b1.graph == step_post.graph);
    assert(b1.graph.node_count() == mid2.node_count());
    assert(b1.graph.has_edge(0, p));
    assert(b1.graph.has_edge(p, node));
    p
}

/// **Forward reference resolution.**  Declaring a dependency on a
/// not-yet-registered name `B` creates a stand-in; registering `B` later
/// overwrites that same node's routine in place, keeping the edges
/// B -> A and root -> B, so `B` is no longer a stand-in and every build
/// order runs it before `A`.
pub proof fn lemma_forward_reference<R>(
    b0: SystemBuilder<R>,
    m1: SystemBuilder<R>,
    b1: SystemBuilder<R>,
    b2: SystemBuilder<R>,
    name_a: String,
    name_b: String,
    ra: R,
    rb: R,
    na: usize,
    nb: usize,
)
    requires
        builder_wf(b0),
        name_a@ != name_b@,
        lookup(b0.table@, name_b@) is None,
        register_rel(b0, m1, name_a, ra, na),
        deps_ok_rel(m1, b1, na, seq![name_b]),
        add_system_rel(b1, b2, name_b, rb, nb),
    ensures
        lookup(b1.table@, name_b@) == Some(nb),
        b1.payloads@[nb as int] is Stub,
        b2.payloads@[nb as int] == SystemNode::System(rb),
        b2.graph.has_edge(nb, na),
        b2.graph.has_edge(0, nb),
{
    lemma_register_lookup(b0, m1, name_a, ra, na);
    assert(lookup(m1.table@, name_b@) is None);
    let p = lemma_single_unknown_dep(m1, b1, na, name_b);
    assert(b1.payloads@[p as int] == SystemNode::<R>::Stub(name_b)) by {
        assert(b1.payloads@[m1.payloads@.len() as int] == SystemNode::<R>::Stub(name_b));
    }
    let mb = choose|m: SystemBuilder<R>|
        {
            &&& #[trigger] register_rel(b1, m, name_b, rb, nb)
            &&& b2.table@ == m.table@
            &&& b2.payloads@ == m.payloads@
            &&& if m.graph.has_edge(0, nb) {
                b2.graph == m.graph
            } else {
                add_edge_rel(m.graph, b2.graph, 0, nb)
            }
        };
    assert(nb == p);
    assert(b2.payloads@[p as int] == SystemNode::System(rb)) by {
        assert(mb.payloads@ == b1.payloads@.update(p as int, SystemNode::System(rb)));
    }
    // The stand-in already hangs below the root, so no second root edge is
    // added and the graph is unchanged.
    assert(mb.graph == b1.graph);
    assert(mb.graph.has_edge(0, nb));
    assert(b2.graph == b1.graph);
    assert(b2.graph.has_edge(nb, na));
    assert(b2.graph.has_edge(0, nb));
}

/// **Cycle rejection.**  After `A` was declared to depend on `B`, an attempt
/// to declare `B` depending on `A` reports failure (the call returns
/// `WouldCycle`), and no edge is added: the graph is exactly as it was, and
/// only `B`'s routine replacement remains applied.
pub proof fn lemma_cycle_rejected<R>(
    b0: SystemBuilder<R>,
    m1: SystemBuilder<R>,
    b1: SystemBuilder<R>,
    m2: SystemBuilder<R>,
    b2: SystemBuilder<R>,
    name_a: String,
    name_b: String,
    ra: R,
    rb: R,
    na: usize,
    nb: usize,
    ok2: bool,
)
    requires
        builder_wf(b0),
        name_a@ != name_b@,
        lookup(b0.table@, name_b@) is None,
        register_rel(b0, m1, name_a, ra, na),
        deps_ok_rel(m1, b1, na, seq![name_b]),
        register_rel(b1, m2, name_b, rb, nb),
        add_deps_rel(m2, b2, nb, seq![name_a], ok2),
    ensures
        !ok2,
        b2.graph == b1.graph,
        b2.table@ == b1.table@,
        b2.payloads@ == b1.payloads@.update(nb as int, SystemNode::System(rb)),
{
    lemma_register_lookup(b0, m1, name_a, ra, na);
    assert(lookup(m1.table@, name_b@) is None);
    let p = lemma_single_unknown_dep(m1, b1, na, name_b);
    // B resolves to the stand-in node, so registering B updates it in place.
    assert(nb == p);
    assert(m2.graph == b1.graph);
    assert(m2.table@ == b1.table@);
    // A is still in the table under its own node.
    assert(lookup(b1.table@, name_a@) == Some(na)) by {
        lemma_lookup_after_push(m1.table@, name_b, p);
    }
    // B reaches A directly, so the edge A -> B would close a cycle.
    assert(m2.graph.reaches(nb, na)) by {
        let q = seq![nb, na];
        assert(q.len() == 2 && q.first() == nb && q.last() == na);
        assert(m2.graph.has_edge(nb, na));
        assert(m2.graph.in_range(na)) by {
            assert(na < m1.graph.node_count());
            assert(m2.graph.node_count() == m1.graph.node_count() + 1);
        }
        assert(m2.graph.is_path(q));
    }
    if ok2 {
        let chain = choose|chain: Seq<SystemBuilder<R>>|
            #[trigger] chain_ok(m2, b2, nb, seq![name_a], chain);
        assert(dep_step_rel(chain[0], chain[1], nb, seq![name_a][0], true));
        assert(chain[0] == m2);
        assert(false);
    }
    let (mid, i) = choose|mid: SystemBuilder<R>, i: int|
        {
            &&& 0 <= i < seq![name_a].len()
            &&& #[trigger] deps_ok_rel(m2, mid, nb, seq![name_a].take(i))
            &&& dep_step_rel(mid, b2, nb, seq![name_a][i], false)
        };
    assert(i == 0);
    let chain0 = choose|chain: Seq<SystemBuilder<R>>|
        #[trigger] chain_ok(m2, mid, nb, seq![name_a].take(0), chain);
    assert(chain0.len() == 1);
    assert(chain0.first() == m2 && chain0.last() == chain0.first());
    assert(mid.table@ == m2.table@ && mid.payloads@ == m2.payloads@ && mid.graph == m2.graph);
    assert(b2.table@ == mid.table@ && b2.payloads@ == mid.payloads@ && b2.graph == mid.graph);
}

/// **Unresolved dependency.**  Starting from a fresh builder, registering
/// `A` with the single unknown dependency `B` leaves a builder in which a
/// stand-in for `B` is reachable and blocks every real system, and every
/// reachable stand-in carries `B`'s name; by `build`'s contract any build of
/// it fails with `MissingDependentSystem` naming `B`, before any routine
/// runs.
pub proof fn lemma_unresolved_dependency<R>(
    b0: SystemBuilder<R>,
    m1: SystemBuilder<R>,
    b1: SystemBuilder<R>,
    name_a: String,
    name_b: String,
    ra: R,
)
    requires
        builder_wf(b0),
        initial_builder(b0),
        name_a@ != name_b@,
        register_rel(b0, m1, name_a, ra, 1),
        deps_ok_rel(m1, b1, 1, seq![name_b]),
    ensures
        stub_reachable(b1.graph, b1.payloads@),
        systems_blocked(b1.graph, b1.payloads@),
        forall|s: usize|
            s < b1.graph.node_count() && (#[trigger] b1.payloads@[s as int]) is Stub
                ==> b1.payloads@[s as int] == SystemNode::<R>::Stub(name_b),
{
    assert(lookup(b0.table@, name_a@) is None);
    assert(lookup(b0.table@, name_b@) is None);
    lemma_register_lookup(b0, m1, name_a, ra, 1);
    assert(m1.graph.node_count() == 2);
    assert(m1.payloads@ == b0.payloads@.push(SystemNode::System(ra)));
    let p = lemma_single_unknown_dep(m1, b1, 1, name_b);
    assert(p == 2);
    assert(b1.graph.node_count() == 3);
    assert(b1.payloads@.len() == 3);
    assert(b1.payloads@[0] == b0.payloads@[0]);
    assert(b1.payloads@[1] == SystemNode::System(ra));
    assert(b1.payloads@[2] == SystemNode::<R>::Stub(name_b));
    assert(b1.graph.reaches(0, 2)) by {
        let q = seq![0usize, 2usize];
        assert(q.len() == 2 && q.first() == 0 && q.last() == 2);
        assert(b1.graph.is_path(q));
    }
    assert(b1.graph.reaches(2, 1)) by {
        let q = seq![2usize, 1usize];
        assert(q.len() == 2 && q.first() == 2 && q.last() == 1);
        assert(b1.graph.is_path(q));
    }
    assert(stub_reachable(b1.graph, b1.payloads@));
    assert forall|i: usize|
        i < b1.graph.node_count() && #[trigger] b1.graph.reaches(0, i) && b1.payloads@[i as int]
            is System implies exists|s: usize|
        s < b1.graph.node_count() && #[trigger] b1.graph.reaches(0, s) && b1.payloads@[s as int]
            is Stub && b1.graph.reaches(s, i) by {
        assert(i == 1);
        assert(b1.graph.reaches(0, 2) && b1.payloads@[2] is Stub && b1.graph.reaches(2, 1));
    }
}

/// **Idempotent naming.**  Registering the same name twice leaves exactly one
/// node for it: the second call returns the first call's node, overwrites its
/// routine with the newer one, and adds no entry and no node.
pub proof fn lemma_idempotent_naming<R>(
    b0: SystemBuilder<R>,
    b1: SystemBuilder<R>,
    b2: SystemBuilder<R>,
    name: String,
    r1: R,
    r2: R,
    n1: usize,
    n2: usize,
)
    requires
        builder_wf(b0),
        add_system_rel(b0, b1, name, r1, n1),
        add_system_rel(b1, b2, name, r2, n2),
    ensures
        n2 == n1,
        lookup(b2.table@, name@) == Some(n1),
        b2.payloads@[n1 as int] == SystemNode::System(r2),
        b2.payloads@.len() == b1.payloads@.len(),
        b2.table@ == b1.table@,
{
    let m1 = choose|m: SystemBuilder<R>|
        {
            &&& #[trigger] register_rel(b0, m, name, r1, n1)
            &&& b1.table@ == m.table@
            &&& b1.payloads@ == m.payloads@
        };
    lemma_register_lookup(b0, m1, name, r1, n1);
    assert(lookup(b1.table@, name@) == Some(n1));
    let m2 = choose|m: SystemBuilder<R>|
        {
            &&& #[trigger] register_rel(b1, m, name, r2, n2)
            &&& b2.table@ == m.table@
            &&& b2.payloads@ == m.payloads@
        };
    assert(n2 == n1);
    assert(b2.payloads@ == b1.payloads@.update(n1 as int, SystemNode::System(r2)));
    assert(n1 < b1.payloads@.len());
}

/// **Default root edge.**  A system registered through `add_system` hangs
/// directly below the root, so the build pass always reaches it; and the
/// root's successor list names each node only once, so there is exactly one
/// root edge to it no matter how often its name is registered.
pub proof fn lemma_default_root_edge<R>(
    b0: SystemBuilder<R>,
    b1: SystemBuilder<R>,
    name: String,
    routine: R,
    node: usize,
)
    requires
        builder_wf(b0),
        add_system_rel(b0, b1, name, routine, node),
    ensures
        b1.graph.has_edge(0, node),
        b1.graph.reaches(0, node),
        forall|i: int, j: int|
            0 <= i < j < b1.graph.succ(0).len() ==> (#[trigger] b1.graph.succ(0)[i]) != (
            #[trigger] b1.graph.succ(0)[j]),
{
    let m1 = choose|m: SystemBuilder<R>|
        {
            &&& #[trigger] register_rel(b0, m, name, routine, node)
            &&& b1.table@ == m.table@
            &&& b1.payloads@ == m.payloads@
            &&& if m.graph.has_edge(0, node) {
                b1.graph == m.graph
            } else {
                add_edge_rel(m.graph, b1.graph, 0, node)
            }
        };
    lemma_register_lookup(b0, m1, name, routine, node);
    // Registration leaves the root's successor list as it was.
    assert(m1.graph.succ(0) == b0.graph.succ(0)) by {
        if lookup(b0.table@, name@) is None {
            assert(0 < b0.graph.node_count());
        }
    }
    if m1.graph.has_edge(0, node) {
        assert(b1.graph.has_edge(0, node));
    } else {
        assert(b1.graph.succ(0) == m1.graph.succ(0).push(node));
        assert(b1.graph.succ(0)[m1.graph.succ(0).len() as int] == node);
        assert(b1.graph.has_edge(0, node));
        let s_new = b1.graph.succ(0);
        let s_old = m1.graph.succ(0);
        assert forall|i: int, j: int| 0 <= i < j < s_new.len() implies (#[trigger] s_new[i]) != (
        #[trigger] s_new[j]) by {
            if j < s_old.len() {
                assert(s_new[i] == s_old[i] && s_new[j] == s_old[j]);
            } else {
                assert(s_new[j] == node);
                assert(s_new[i] == s_old[i]);
                if s_old[i] == node {
                    assert(s_old.contains(node));
                    assert(m1.graph.has_edge(0, node));
                }
            }
        }
    }
    let p = seq![0usize, node];
    assert(p.len() == 2 && p.first() == 0 && p.last() == node);
    assert(b1.graph.is_path(p));
    assert(b1.graph.reaches(0, node));
}

} // verus!
