//! Directed dependency graph over integer node handles.
//!
//! Nodes are the indices `0 .. node_count()`; edges are kept as adjacency
//! lists.  The module provides the reachability and acyclicity notions the
//! scheduler's invariants are stated with, a reusable reachability query
//! (the cycle oracle), and a topological ordering of the nodes reachable
//! from a chosen start node.

use vstd::prelude::*;

verus! {

/// Arena-style directed graph: node `u`'s successors are `adj[u]`.
pub struct DepGraph {
    pub adj: Vec<Vec<usize>>,
}

impl DepGraph {
    /// Number of nodes; every index below this is a node of the graph.
    pub open spec fn node_count(self) -> nat {
        self.adj@.len()
    }

    pub open spec fn in_range(self, u: usize) -> bool {
        u < self.node_count()
    }

    /// The successor list of `u`.
    pub open spec fn succ(self, u: usize) -> Seq<usize>
        recommends
            self.in_range(u),
    {
        self.adj@[u as int]@
    }

    /// There is a directed edge from `u` to `v`.
    pub open spec fn has_edge(self, u: usize, v: usize) -> bool {
        self.in_range(u) && self.succ(u).contains(v)
    }

    /// Every edge target is a node of the graph.
    pub open spec fn wf(self) -> bool {
        forall|u: usize, v: usize| #[trigger] self.has_edge(u, v) ==> self.in_range(v)
    }

    /// `p` is a walk through the graph: nonempty, in range, and each
    /// consecutive pair is an edge.
    pub open spec fn is_path(self, p: Seq<usize>) -> bool {
        &&& p.len() >= 1
        &&& forall|i: int| 0 <= i < p.len() ==> self.in_range(#[trigger] p[i])
        &&& forall|i: int| 0 <= i < p.len() - 1 ==> self.has_edge(#[trigger] p[i], p[i + 1])
    }

    /// `b` can be reached from `a` by following zero or more edges.
    pub open spec fn reaches(self, a: usize, b: usize) -> bool {
        exists|p: Seq<usize>| #[trigger] self.is_path(p) && p.first() == a && p.last() == b
    }

    /// No nonempty cycle: no walk of at least one edge returns to its start.
    pub open spec fn acyclic(self) -> bool {
        forall|p: Seq<usize>| !(#[trigger] self.is_path(p) && p.len() >= 2 && p.first() == p.last())
    }

    /// No edge points at `t`.
    pub open spec fn no_incoming(self, t: usize) -> bool {
        forall|u: usize| !(#[trigger] self.has_edge(u, t))
    }

    /// Appends a fresh node with no edges and returns its handle.
    pub fn add_node(&mut self) -> (id: usize)
        ensures
            add_node_rel(*old(self), *final(self), id),
            forall|a: usize, b: usize|
                final(self).has_edge(a, b) <==> old(self).has_edge(a, b),
    {
        let id = self.adj.len();
        self.adj.push(Vec::new());
        proof {
            assert(final(self).succ(id) =~= Seq::<usize>::empty());
            assert forall|u: usize| u < old(self).node_count() implies final(self).succ(u)
                == old(self).succ(u) by {
                assert(final(self).adj@[u as int] == old(self).adj@[u as int]);
            }
            assert forall|a: usize, b: usize|
                final(self).has_edge(a, b) <==> old(self).has_edge(a, b) by {
                if a < old(self).node_count() {
                    assert(final(self).succ(a) == old(self).succ(a));
                } else if a == id {
                    assert(final(self).succ(id) =~= Seq::<usize>::empty());
                }
            }
        }
        id
    }

    /// Adds the directed edge `u -> v`; parallel edges are allowed.
    pub fn add_edge(&mut self, u: usize, v: usize)
        requires
            old(self).in_range(u),
            old(self).in_range(v),
        ensures
            add_edge_rel(*old(self), *final(self), u, v),
            forall|a: usize, b: usize|
                final(self).has_edge(a, b) <==> (old(self).has_edge(a, b) || (a == u && b == v)),
    {
        let row = &mut self.adj[u];
        row.push(v);
        proof {
            assert forall|w: usize| w < old(self).node_count() && w != u implies final(self).succ(
                w,
            ) == old(self).succ(w) by {
                assert(final(self).adj@[w as int] == old(self).adj@[w as int]);
            }
            assert forall|a: usize, b: usize|
                final(self).has_edge(a, b) <==> (old(self).has_edge(a, b) || (a == u && b
                    == v)) by {
                if a == u {
                    assert(final(self).succ(u) == old(self).succ(u).push(v));
                    if final(self).succ(u).contains(b) {
                        let k = choose|k: int|
                            0 <= k < final(self).succ(u).len() && final(self).succ(u)[k] == b;
                        if k < old(self).succ(u).len() {
                            assert(old(self).succ(u)[k] == b);
                        } else {
                            assert(b == v);
                        }
                    }
                    if old(self).succ(u).contains(b) {
                        let k = choose|k: int|
                            0 <= k < old(self).succ(u).len() && old(self).succ(u)[k] == b;
                        assert(final(self).succ(u)[k] == b);
                    }
                    if b == v {
                        assert(final(self).succ(u)[old(self).succ(u).len() as int] == v);
                    }
                } else if a < old(self).node_count() {
                    assert(final(self).succ(a) == old(self).succ(a));
                }
            }
        }
    }
}

/// `g2` is `g1` with one fresh, edgeless node `id` appended.
pub open spec fn add_node_rel(g1: DepGraph, g2: DepGraph, id: usize) -> bool {
    &&& id == g1.node_count()
    &&& g2.node_count() == g1.node_count() + 1
    &&& forall|u: usize| u < g1.node_count() ==> #[trigger] g2.succ(u) == g1.succ(u)
    &&& g2.succ(id) == Seq::<usize>::empty()
}

/// `g2` is `g1` with the edge `u -> v` appended.
pub open spec fn add_edge_rel(g1: DepGraph, g2: DepGraph, u: usize, v: usize) -> bool {
    &&& g2.node_count() == g1.node_count()
    &&& u < g1.node_count()
    &&& v < g1.node_count()
    &&& g2.succ(u) == g1.succ(u).push(v)
    &&& forall|w: usize| w < g1.node_count() && w != u ==> #[trigger] g2.succ(w) == g1.succ(w)
}

/// Appending a node changes no edge.
pub proof fn lemma_add_node_rel_edges(g1: DepGraph, g2: DepGraph, id: usize)
    requires
        add_node_rel(g1, g2, id),
    ensures
        forall|a: usize, b: usize| g2.has_edge(a, b) <==> g1.has_edge(a, b),
{
    assert forall|a: usize, b: usize| g2.has_edge(a, b) <==> g1.has_edge(a, b) by {
        if a < g1.node_count() {
            assert(g2.succ(a) == g1.succ(a));
        } else if a == id {
            assert(g2.succ(id).len() == 0);
        }
    }
}

/// Appending the edge `u -> v` adds exactly that edge.
pub proof fn lemma_add_edge_rel_edges(g1: DepGraph, g2: DepGraph, u: usize, v: usize)
    requires
        add_edge_rel(g1, g2, u, v),
    ensures
        forall|a: usize, b: usize|
            g2.has_edge(a, b) <==> (g1.has_edge(a, b) || (a == u && b == v)),
{
    assert forall|a: usize, b: usize|
        g2.has_edge(a, b) <==> (g1.has_edge(a, b) || (a == u && b == v)) by {
        if a == u {
            assert(g2.succ(u) == g1.succ(u).push(v));
            if g2.succ(u).contains(b) {
                let k = choose|k: int| 0 <= k < g2.succ(u).len() && g2.succ(u)[k] == b;
                if k < g1.succ(u).len() {
                    assert(g1.succ(u)[k] == b);
                } else {
                    assert(b == v);
                }
            }
            if g1.succ(u).contains(b) {
                let k = choose|k: int| 0 <= k < g1.succ(u).len() && g1.succ(u)[k] == b;
                assert(g2.succ(u)[k] == b);
            }
            if b == v {
                assert(g2.succ(u)[g1.succ(u).len() as int] == v);
            }
        } else if a < g1.node_count() {
            assert(g2.succ(a) == g1.succ(a));
        }
    }
}

/// A node reaches itself.
pub proof fn lemma_reaches_refl(g: DepGraph, a: usize)
    requires
        g.in_range(a),
    ensures
        g.reaches(a, a),
{
    let p = seq![a];
    assert(g.is_path(p));
    assert(p.first() == a && p.last() == a);
}

/// Reachability extends across a single further edge.
pub proof fn lemma_reaches_step(g: DepGraph, a: usize, b: usize, c: usize)
    requires
        g.reaches(a, b),
        g.has_edge(b, c),
        g.wf(),
    ensures
        g.reaches(a, c),
{
    let p = choose|p: Seq<usize>| g.is_path(p) && p.first() == a && p.last() == b;
    let q = p.push(c);
    assert(q.first() == a && q.last() == c);
    assert forall|i: int| 0 <= i < q.len() - 1 implies g.has_edge(#[trigger] q[i], q[i + 1]) by {
        if i < p.len() - 1 {
            assert(q[i] == p[i] && q[i + 1] == p[i + 1]);
        } else {
            assert(q[i] == b && q[i + 1] == c);
        }
    }
    assert(g.is_path(q));
}

/// Reachability is transitive.
pub proof fn lemma_reaches_trans(g: DepGraph, a: usize, b: usize, c: usize)
    requires
        g.reaches(a, b),
        g.reaches(b, c),
    ensures
        g.reaches(a, c),
{
    let p = choose|p: Seq<usize>| g.is_path(p) && p.first() == a && p.last() == b;
    let q = choose|q: Seq<usize>| g.is_path(q) && q.first() == b && q.last() == c;
    let r = p + q.drop_first();
    assert(r.first() == a);
    if q.len() == 1 {
        assert(r =~= p);
    } else {
        assert(r.last() == c);
        assert forall|i: int| 0 <= i < r.len() - 1 implies g.has_edge(#[trigger] r[i], r[i + 1]) by {
            if i < p.len() - 1 {
                assert(r[i] == p[i] && r[i + 1] == p[i + 1]);
            } else if i == p.len() - 1 {
                assert(r[i] == b && r[i + 1] == q[1]);
                assert(g.has_edge(q[0], q[1]));
            } else {
                let j = i - p.len() + 1;
                assert(r[i] == q[j] && r[i + 1] == q[j + 1]);
                assert(g.has_edge(q[j], q[j + 1]));
            }
        }
        assert(g.is_path(r));
    }
}

/// A nontrivial reachability fact decomposes at its last edge.
pub proof fn lemma_reaches_last_step(g: DepGraph, a: usize, b: usize)
    requires
        g.reaches(a, b),
        a != b,
    ensures
        exists|x: usize| #[trigger] g.reaches(a, x) && g.has_edge(x, b),
{
    let p = choose|p: Seq<usize>| g.is_path(p) && p.first() == a && p.last() == b;
    lemma_reaches_last_step_path(g, p);
}

proof fn lemma_reaches_last_step_path(g: DepGraph, p: Seq<usize>)
    requires
        g.is_path(p),
        p.first() != p.last(),
    ensures
        exists|x: usize| #[trigger] g.reaches(p.first(), x) && g.has_edge(x, p.last()),
    decreases p.len(),
{
    let x = p[p.len() - 2];
    let q = p.drop_last();
    assert(g.is_path(q));
    assert(q.first() == p.first() && q.last() == x);
    assert(g.reaches(p.first(), x));
    assert(g.has_edge(x, p.last()));
}

/// Nothing but `t` itself reaches a node with no incoming edges.
pub proof fn lemma_no_incoming_unreachable(g: DepGraph, s: usize, t: usize)
    requires
        g.no_incoming(t),
        s != t,
    ensures
        !g.reaches(s, t),
{
    if g.reaches(s, t) {
        lemma_reaches_last_step(g, s, t);
        let x = choose|x: usize| #[trigger] g.reaches(s, x) && g.has_edge(x, t);
        assert(!g.has_edge(x, t));
    }
}

/// Whatever a path of `g2` connects was already connected in `g1`, except
/// across the one new edge `u -> v`.
proof fn lemma_path_decompose_new_edge(
    g1: DepGraph,
    g2: DepGraph,
    u: usize,
    v: usize,
    p: Seq<usize>,
)
    requires
        g1.node_count() == g2.node_count(),
        forall|a: usize, b: usize|
            g2.has_edge(a, b) <==> (g1.has_edge(a, b) || (a == u && b == v)),
        g1.in_range(u),
        g1.in_range(v),
        g2.is_path(p),
    ensures
        g1.reaches(p.first(), p.last()) || (g1.reaches(p.first(), u) && g1.reaches(v, p.last())),
    decreases p.len(),
{
    if p.len() == 1 {
        assert(g1.is_path(p));
    } else {
        let rest = p.drop_first();
        assert(g2.is_path(rest));
        lemma_path_decompose_new_edge(g1, g2, u, v, rest);
        assert(g2.has_edge(p[0], p[1]));
        if g1.has_edge(p[0], p[1]) {
            if g1.reaches(rest.first(), rest.last()) {
                let q = choose|q: Seq<usize>|
                    g1.is_path(q) && q.first() == rest.first() && q.last() == rest.last();
                let w = seq![p[0]] + q;
                assert(w.first() == p.first() && w.last() == p.last());
                assert forall|i: int| 0 <= i < w.len() - 1 implies g1.has_edge(
                    #[trigger] w[i],
                    w[i + 1],
                ) by {
                    if i == 0 {
                        assert(w[0] == p[0] && w[1] == q[0]);
                        assert(q[0] == p[1]);
                    } else {
                        assert(w[i] == q[i - 1] && w[i + 1] == q[i]);
                        assert(g1.has_edge(q[i - 1], q[i]));
                    }
                }
                assert(g1.is_path(w));
            } else {
                let q = choose|q: Seq<usize>|
                    g1.is_path(q) && q.first() == rest.first() && q.last() == u;
                let w = seq![p[0]] + q;
                assert(w.first() == p.first() && w.last() == u);
                assert forall|i: int| 0 <= i < w.len() - 1 implies g1.has_edge(
                    #[trigger] w[i],
                    w[i + 1],
                ) by {
                    if i == 0 {
                        assert(w[0] == p[0] && w[1] == q[0]);
                        assert(q[0] == p[1]);
                    } else {
                        assert(w[i] == q[i - 1] && w[i + 1] == q[i]);
                        assert(g1.has_edge(q[i - 1], q[i]));
                    }
                }
                assert(g1.is_path(w));
                assert(g1.reaches(p.first(), u));
            }
        } else {
            assert(p[0] == u && p[1] == v);
            lemma_reaches_refl(g1, u);
            if g1.reaches(rest.first(), rest.last()) {
                assert(g1.reaches(v, p.last()));
            } else {
                assert(g1.reaches(v, u));
                assert(g1.reaches(v, p.last())) by {
                    lemma_reaches_trans(g1, v, u, v);
                    assert(rest.last() == p.last());
                    lemma_reaches_trans(g1, v, v, rest.last());
                }
            }
        }
    }
}

/// Adding an edge whose reverse connection does not already exist keeps the
/// graph acyclic.
pub proof fn lemma_acyclic_add_edge(g1: DepGraph, g2: DepGraph, u: usize, v: usize)
    requires
        g1.node_count() == g2.node_count(),
        forall|a: usize, b: usize|
            g2.has_edge(a, b) <==> (g1.has_edge(a, b) || (a == u && b == v)),
        g1.in_range(u),
        g1.in_range(v),
        g1.acyclic(),
        !g1.reaches(v, u),
    ensures
        g2.acyclic(),
{
    assert forall|p: Seq<usize>|
        !(#[trigger] g2.is_path(p) && p.len() >= 2 && p.first() == p.last()) by {
        if g2.is_path(p) && p.len() >= 2 && p.first() == p.last() {
            // A cycle of g2 either lies in g1 (contradicting acyclicity) or
            // crosses the new edge, giving a g1-connection from v back to u.
            if exists|i: int|
                0 <= i < p.len() - 1 && !g1.has_edge(#[trigger] p[i], p[i + 1]) {
                let i = choose|i: int|
                    0 <= i < p.len() - 1 && !g1.has_edge(#[trigger] p[i], p[i + 1]);
                assert(g2.has_edge(p[i], p[i + 1]));
                assert(p[i] == u && p[i + 1] == v);
                let q = p.subrange(i + 1, p.len() as int);
                assert(g2.is_path(q)) by {
                    assert forall|k: int| 0 <= k < q.len() - 1 implies g2.has_edge(
                        #[trigger] q[k],
                        q[k + 1],
                    ) by {
                        assert(q[k] == p[i + 1 + k] && q[k + 1] == p[i + 2 + k]);
                    }
                }
                assert(q.first() == v && q.last() == p.last());
                let w = p.subrange(0, i + 1);
                assert(g2.is_path(w)) by {
                    assert forall|k: int| 0 <= k < w.len() - 1 implies g2.has_edge(
                        #[trigger] w[k],
                        w[k + 1],
                    ) by {
                        assert(w[k] == p[k] && w[k + 1] == p[k + 1]);
                    }
                }
                assert(w.first() == p.first() && w.last() == u);
                lemma_path_decompose_new_edge(g1, g2, u, v, q);
                lemma_path_decompose_new_edge(g1, g2, u, v, w);
                // Both branches of each decomposition yield g1-reachability
                // from v to u.
                if g1.reaches(v, p.last()) {
                    if g1.reaches(p.first(), u) {
                        lemma_reaches_trans(g1, v, p.last(), u);
                    } else {
                        lemma_reaches_trans(g1, v, p.first(), u);
                    }
                } else {
                    assert(g1.reaches(v, u));
                }
                assert(false);
            } else {
                assert(g1.is_path(p));
                assert(false);
            }
        }
    }
}

/// Two graphs with the same edges are both acyclic or both not.
pub proof fn lemma_same_edges_acyclic(g1: DepGraph, g2: DepGraph)
    requires
        forall|a: usize, b: usize| g1.has_edge(a, b) <==> g2.has_edge(a, b),
        g1.acyclic(),
        g2.node_count() >= g1.node_count(),
    ensures
        g2.acyclic(),
{
    assert forall|p: Seq<usize>|
        !(#[trigger] g2.is_path(p) && p.len() >= 2 && p.first() == p.last()) by {
        if g2.is_path(p) && p.len() >= 2 && p.first() == p.last() {
            // Every element of a cycle is the source of some edge, so the
            // whole cycle lies inside g1 as well.
            assert forall|i: int| 0 <= i < p.len() implies g1.in_range(#[trigger] p[i]) by {
                if i < p.len() - 1 {
                    assert(g2.has_edge(p[i], p[i + 1]));
                    assert(g1.has_edge(p[i], p[i + 1]));
                } else {
                    assert(p[i] == p.first());
                    assert(g2.has_edge(p[0], p[1]));
                    assert(g1.has_edge(p[0], p[1]));
                }
            }
            assert forall|i: int| 0 <= i < p.len() - 1 implies g1.has_edge(
                #[trigger] p[i],
                p[i + 1],
            ) by {
                assert(g2.has_edge(p[i], p[i + 1]));
            }
            assert(g1.is_path(p));
            assert(false);
        }
    }
}

/// A set of flags that contains `from` and is closed under edges contains
/// everything reachable from `from`.
pub proof fn lemma_closed_flags_cover(g: DepGraph, flags: Seq<bool>, from: usize, t: usize)
    requires
        flags.len() == g.node_count(),
        from < g.node_count(),
        flags[from as int],
        forall|a: usize, b: usize|
            #[trigger] g.has_edge(a, b) && flags[a as int] ==> flags[b as int],
        g.wf(),
        g.reaches(from, t),
    ensures
        flags[t as int],
{
    let p = choose|p: Seq<usize>| g.is_path(p) && p.first() == from && p.last() == t;
    lemma_closed_flags_cover_path(g, flags, p);
}

proof fn lemma_closed_flags_cover_path(g: DepGraph, flags: Seq<bool>, p: Seq<usize>)
    requires
        flags.len() == g.node_count(),
        g.is_path(p),
        flags[p.first() as int],
        forall|a: usize, b: usize|
            #[trigger] g.has_edge(a, b) && flags[a as int] ==> flags[b as int],
        g.wf(),
    ensures
        flags[p.last() as int],
    decreases p.len(),
{
    if p.len() > 1 {
        let rest = p.drop_first();
        assert(g.has_edge(p[0], p[1]));
        assert(flags[p[1] as int]);
        assert(g.is_path(rest));
        lemma_closed_flags_cover_path(g, flags, rest);
    }
}

/// Every nonempty set of nodes of an acyclic graph contains a node with no
/// predecessor inside the set.
pub proof fn lemma_dag_has_source(g: DepGraph, s: Set<usize>)
    requires
        g.wf(),
        g.acyclic(),
        s.finite(),
        s.len() > 0,
        forall|x: usize| s.contains(x) ==> g.in_range(x),
    ensures
        exists|c: usize|
            s.contains(c) && forall|u: usize| s.contains(u) ==> !(#[trigger] g.has_edge(u, c)),
{
    let start = s.choose();
    lemma_dag_source_walk(g, s, start, Set::empty());
}

/// Walks predecessor links inside `s`; acyclicity keeps the walk from
/// revisiting a node, so it must end at a node with no predecessor in `s`.
proof fn lemma_dag_source_walk(g: DepGraph, s: Set<usize>, cur: usize, visited: Set<usize>)
    requires
        g.wf(),
        g.acyclic(),
        s.finite(),
        s.contains(cur),
        visited.subset_of(s),
        !visited.contains(cur),
        forall|x: usize| s.contains(x) ==> g.in_range(x),
        forall|w: usize| visited.contains(w) ==> g.reaches(cur, w),
    ensures
        exists|c: usize|
            s.contains(c) && forall|u: usize| s.contains(u) ==> !(#[trigger] g.has_edge(u, c)),
    decreases s.len() - visited.len(),
{
    vstd::set_lib::lemma_len_subset(visited, s);
    if exists|u: usize| s.contains(u) && #[trigger] g.has_edge(u, cur) {
        let u = choose|u: usize| s.contains(u) && #[trigger] g.has_edge(u, cur);
        if u == cur {
            let p = seq![cur, cur];
            assert(g.is_path(p));
            assert(false);
        } else if visited.contains(u) {
            // cur reaches u, and u -> cur closes a cycle.
            let p = choose|p: Seq<usize>| g.is_path(p) && p.first() == cur && p.last() == u;
            let q = p.push(cur);
            assert(q.first() == cur && q.last() == cur);
            assert forall|i: int| 0 <= i < q.len() - 1 implies g.has_edge(
                #[trigger] q[i],
                q[i + 1],
            ) by {
                if i < p.len() - 1 {
                    assert(q[i] == p[i] && q[i + 1] == p[i + 1]);
                } else {
                    assert(q[i] == u && q[i + 1] == cur);
                }
            }
            assert(g.is_path(q));
            assert(false);
        } else {
            let visited2 = visited.insert(cur);
            lemma_reaches_refl(g, cur);
            lemma_reaches_refl(g, u);
            lemma_reaches_step(g, u, u, cur);
            assert forall|w: usize| visited2.contains(w) implies g.reaches(u, w) by {
                if w != cur {
                    lemma_reaches_trans(g, u, cur, w);
                }
            }
            vstd::set_lib::lemma_len_subset(visited2, s);
            assert(visited2.len() == visited.len() + 1);
            lemma_dag_source_walk(g, s, u, visited2);
        }
    } else {
        assert(s.contains(cur) && forall|u: usize| s.contains(u) ==> !(#[trigger] g.has_edge(
            u,
            cur,
        )));
    }
}

/// A node with no successors reaches only itself.
pub proof fn lemma_no_succ_reaches(g: DepGraph, s: usize, t: usize)
    requires
        g.succ(s) == Seq::<usize>::empty(),
        g.reaches(s, t),
    ensures
        t == s,
{
    let p = choose|p: Seq<usize>| g.is_path(p) && p.first() == s && p.last() == t;
    if p.len() >= 2 {
        assert(g.has_edge(p[0], p[1]));
        assert(g.succ(s).contains(p[1]));
        assert(g.succ(s).len() == 0);
    }
}

/// The four guarantees of `DepGraph::topo_from`: the order lists exactly the
/// nodes reachable from `start`, each exactly once, and every edge whose
/// source is listed points forward in the order.
pub open spec fn topo_order_ok(g: DepGraph, start: usize, order: Seq<usize>) -> bool {
    &&& forall|i: int| 0 <= i < order.len() ==> g.reaches(start, #[trigger] order[i])
    &&& forall|v: usize| v < g.node_count() && g.reaches(start, v) ==> order.contains(v)
    &&& forall|i: int, j: int| 0 <= i < j < order.len() ==> order[i] != order[j]
    &&& forall|j: int, u: usize|
        0 <= j < order.len() && g.reaches(start, u) && #[trigger] g.has_edge(u, order[j])
            ==> exists|i: int| 0 <= i < j && order[i] == u
}

/// The set of nodes below `n` is finite.
proof fn lemma_bounded_usize_set_finite(n: usize)
    ensures
        Set::new(|c: usize| c < n).finite(),
    decreases n,
{
    if n == 0 {
        assert(Set::new(|c: usize| c < n) =~= Set::<usize>::empty());
    } else {
        let m = (n - 1) as usize;
        lemma_bounded_usize_set_finite(m);
        assert(Set::new(|c: usize| c < n) =~= Set::new(|c: usize| c < m).insert(m));
    }
}

/// In an order with the `topo_order_ok` guarantees, a node is listed before
/// everything it strictly reaches.
pub proof fn lemma_order_respects_reaches(
    g: DepGraph,
    start: usize,
    order: Seq<usize>,
    i: int,
    j: int,
)
    requires
        g.wf(),
        topo_order_ok(g, start, order),
        0 <= i < order.len(),
        0 <= j < order.len(),
        g.reaches(start, order[i]),
        g.reaches(order[i], order[j]),
        order[i] != order[j],
    ensures
        i < j,
{
    let p = choose|p: Seq<usize>|
        g.is_path(p) && p.first() == order[i] && p.last() == order[j];
    lemma_order_respects_path(g, start, order, p, i, j);
}

proof fn lemma_order_respects_path(
    g: DepGraph,
    start: usize,
    order: Seq<usize>,
    p: Seq<usize>,
    i: int,
    j: int,
)
    requires
        g.wf(),
        topo_order_ok(g, start, order),
        g.is_path(p),
        p.len() >= 2,
        0 <= i < order.len(),
        0 <= j < order.len(),
        order[i] == p.first(),
        order[j] == p.last(),
        g.reaches(start, p.first()),
    ensures
        i < j,
    decreases p.len(),
{
    assert(g.has_edge(p[0], p[1]));
    assert(g.reaches(start, p[1])) by {
        lemma_reaches_step(g, start, p[0], p[1]);
    }
    let j1 = choose|k: int| 0 <= k < order.len() && order[k] == p[1];
    assert(order.contains(p[1]));
    assert(exists|k: int| 0 <= k < j1 && order[k] == p[0]);
    let i1 = choose|k: int| 0 <= k < j1 && order[k] == p[0];
    assert(i1 == i) by {
        if i1 < i {
            assert(order[i1] != order[i]);
        } else if i < i1 {
            assert(order[i] != order[i1]);
        }
    }
    if p.len() == 2 {
        assert(j1 == j) by {
            if j1 < j {
                assert(order[j1] != order[j]);
            } else if j < j1 {
                assert(order[j] != order[j1]);
            }
        }
    } else {
        let rest = p.drop_first();
        assert(g.is_path(rest));
        lemma_order_respects_path(g, start, order, rest, j1, j);
    }
}

/// Number of `false` entries, the termination measure of the reachability
/// search.
pub open spec fn count_falses(s: Seq<bool>) -> nat
    decreases s.len(),
{
    if s.len() == 0 {
        0
    } else {
        (if s.last() {
            0nat
        } else {
            1nat
        }) + count_falses(s.drop_last())
    }
}

proof fn lemma_count_falses_update(s: Seq<bool>, i: int)
    requires
        0 <= i < s.len(),
        !s[i],
    ensures
        count_falses(s.update(i, true)) < count_falses(s),
    decreases s.len(),
{
    let t = s.update(i, true);
    if i == s.len() - 1 {
        assert(t.drop_last() =~= s.drop_last());
        lemma_count_falses_le(s.drop_last());
    } else {
        assert(t.drop_last() =~= s.drop_last().update(i, true));
        lemma_count_falses_update(s.drop_last(), i);
    }
}

proof fn lemma_count_falses_le(s: Seq<bool>)
    ensures
        count_falses(s) <= s.len(),
    decreases s.len(),
{
    if s.len() > 0 {
        lemma_count_falses_le(s.drop_last());
    }
}

/// Reusable scratch state for reachability queries: the visited flags and the
/// work stack keep their allocations across queries.
pub struct CycleOracle {
    pub visited: Vec<bool>,
    pub stack: Vec<usize>,
}

impl CycleOracle {
    pub fn new() -> (r: CycleOracle)
        ensures
            r.visited@.len() == 0,
            r.stack@.len() == 0,
    {
        CycleOracle { visited: Vec::new(), stack: Vec::new() }
    }

    /// Depth-first search: afterwards `visited[v]` holds exactly for the
    /// nodes reachable from `from`.
    pub fn compute(&mut self, g: &DepGraph, from: usize)
        requires
            g.wf(),
            g.in_range(from),
        ensures
            final(self).visited@.len() == g.node_count(),
            forall|v: usize|
                v < g.node_count() ==> (final(self).visited@[v as int] <==> g.reaches(from, v)),
    {
        let n = g.adj.len();
        self.visited.clear();
        while self.visited.len() < n
            invariant
                self.visited@.len() <= n,
                forall|k: int| 0 <= k < self.visited@.len() ==> !self.visited@[k],
            decreases n - self.visited@.len(),
        {
            self.visited.push(false);
        }
        self.stack.clear();
        let ghost blank = self.visited@;
        self.visited[from] = true;
        self.stack.push(from);
        proof {
            lemma_reaches_refl(*g, from);
            assert(self.stack@[0] == from);
            assert(self.stack@.contains(from));
            assert forall|a: usize|
                a < g.node_count() && #[trigger] self.visited@[a as int] implies a == from by {
                if a != from {
                    assert(self.visited@[a as int] == blank[a as int]);
                }
            }
        }
        while self.stack.len() > 0
            invariant
                g.wf(),
                g.in_range(from),
                self.visited@.len() == g.node_count(),
                self.visited@[from as int],
                forall|k: int|
                    0 <= k < self.stack@.len() ==> g.in_range(#[trigger] self.stack@[k])
                        && self.visited@[self.stack@[k] as int],
                forall|v: usize|
                    v < g.node_count() && #[trigger] self.visited@[v as int] ==> g.reaches(from, v),
                forall|a: usize, b: usize|
                    #[trigger] g.has_edge(a, b) && self.visited@[a as int]
                        && !self.stack@.contains(a) ==> self.visited@[b as int],
            decreases count_falses(self.visited@), self.stack@.len(),
        {
            let ghost v0 = self.visited@;
            let ghost s0 = self.stack@;
            let u = self.stack.pop().unwrap();
            let ghost s1 = self.stack@;
            proof {
                assert(s0 =~= s1.push(u));
                assert forall|a: usize| #[trigger] s0.contains(a) implies s1.contains(a) || a
                    == u by {
                    let j = choose|j: int| 0 <= j < s0.len() && s0[j] == a;
                    if j < s1.len() {
                        assert(s1[j] == a);
                    }
                }
                assert forall|a: usize| s1.contains(a) implies s0.contains(a) by {
                    let j = choose|j: int| 0 <= j < s1.len() && s1[j] == a;
                    assert(s0[j] == a);
                }
                assert(s0.contains(u)) by {
                    assert(s0[s0.len() - 1] == u);
                }
            }
            let row_len = g.adj[u].len();
            let mut k: usize = 0;
            while k < row_len
                invariant
                    g.wf(),
                    g.in_range(from),
                    g.in_range(u),
                    row_len == g.succ(u).len(),
                    k <= row_len,
                    self.visited@.len() == g.node_count(),
                    self.visited@[from as int],
                    self.visited@[u as int],
                    forall|j: int|
                        0 <= j < self.stack@.len() ==> g.in_range(#[trigger] self.stack@[j])
                            && self.visited@[self.stack@[j] as int],
                    forall|v: usize|
                        v < g.node_count() && #[trigger] self.visited@[v as int] ==> g.reaches(
                            from,
                            v,
                        ),
                    forall|a: usize, b: usize|
                        #[trigger] g.has_edge(a, b) && self.visited@[a as int]
                            && !self.stack@.contains(a) && a != u ==> self.visited@[b as int],
                    forall|j: int| 0 <= j < k ==> self.visited@[g.succ(u)[j] as int],
                    (self.visited@ == v0 && self.stack@ == s1) || count_falses(self.visited@)
                        < count_falses(v0),
                decreases row_len - k,
            {
                let v = g.adj[u][k];
                assert(g.has_edge(u, v)) by {
                    assert(g.succ(u)[k as int] == v);
                }
                if !self.visited[v] {
                    let ghost vcur = self.visited@;
                    let ghost scur = self.stack@;
                    self.visited[v] = true;
                    self.stack.push(v);
                    proof {
                        lemma_count_falses_update(vcur, v as int);
                        lemma_count_falses_le(vcur);
                        lemma_reaches_step(*g, from, u, v);
                        assert(self.stack@.last() == v);
                        assert(self.stack@.contains(v));
                        assert forall|a: usize| scur.contains(a) implies self.stack@.contains(
                            a,
                        ) by {
                            let j = choose|j: int| 0 <= j < scur.len() && scur[j] == a;
                            assert(self.stack@[j] == a);
                        }
                        assert(count_falses(self.visited@) < count_falses(v0));
                    }
                }
                proof {
                    assert(self.visited@[v as int]);
                    assert forall|j: int| 0 <= j < k + 1 implies self.visited@[g.succ(u)[j] as int]
                        by {
                        if j < k {
                            assert(g.has_edge(u, g.succ(u)[j]));
                        }
                    }
                }
                k = k + 1;
            }
            proof {
                assert forall|b: usize| #[trigger] g.has_edge(u, b) implies self
                    .visited@[b as int] by {
                    let j = choose|j: int| 0 <= j < g.succ(u).len() && g.succ(u)[j] == b;
                    assert(self.visited@[g.succ(u)[j] as int]);
                }
            }
        }
        proof {
            assert forall|v: usize| v < g.node_count() && g.reaches(from, v) implies self
                .visited@[v as int] by {
                lemma_closed_flags_cover(*g, self.visited@, from, v);
            }
        }
    }

    /// Whether `to` is reachable from `from`, reusing this oracle's scratch
    /// space.
    pub fn query(&mut self, g: &DepGraph, from: usize, to: usize) -> (r: bool)
        requires
            g.wf(),
            g.in_range(from),
            g.in_range(to),
        ensures
            r == g.reaches(from, to),
    {
        self.compute(g, from);
        self.visited[to]
    }
}

/// Whether an element of `row` equals `x`.
fn row_contains(row: &Vec<usize>, x: usize) -> (r: bool)
    ensures
        r == row@.contains(x),
{
    let mut k: usize = 0;
    while k < row.len()
        invariant
            k <= row@.len(),
            forall|j: int| 0 <= j < k ==> row@[j] != x,
        decreases row@.len() - k,
    {
        if row[k] == x {
            return true;
        }
        k = k + 1;
    }
    false
}

/// Whether every reachable, not yet emitted node lacks an edge into `c`.
fn all_preds_done(g: &DepGraph, reach: &Vec<bool>, done: &Vec<bool>, c: usize) -> (r: bool)
    requires
        g.wf(),
        reach@.len() == g.node_count(),
        done@.len() == g.node_count(),
        g.in_range(c),
    ensures
        r <==> forall|u: usize|
            u < g.node_count() && reach@[u as int] && !done@[u as int] ==> !(#[trigger] g.has_edge(
                u,
                c,
            )),
{
    let n = g.adj.len();
    let mut u: usize = 0;
    while u < n
        invariant
            g.wf(),
            reach@.len() == g.node_count(),
            done@.len() == g.node_count(),
            g.in_range(c),
            n == g.node_count(),
            u <= n,
            forall|w: usize|
                w < u && reach@[w as int] && !done@[w as int] ==> !(#[trigger] g.has_edge(w, c)),
        decreases n - u,
    {
        if reach[u] && !done[u] {
            if row_contains(&g.adj[u], c) {
                assert(g.has_edge(u, c));
                return false;
            }
            assert(!g.succ(u).contains(c));
        }
        u = u + 1;
    }
    true
}

impl DepGraph {
    /// Whether the edge `u -> v` is present.
    pub fn edge_exists(&self, u: usize, v: usize) -> (r: bool)
        requires
            self.in_range(u),
        ensures
            r == self.has_edge(u, v),
    {
        row_contains(&self.adj[u], v)
    }

    /// A topological ordering of the nodes reachable from `start`: every
    /// reachable node appears exactly once, and a node is listed only after
    /// all of its reachable predecessors.
    pub fn topo_from(&self, start: usize) -> (order: Vec<usize>)
        requires
            self.wf(),
            self.acyclic(),
            self.in_range(start),
        ensures
            topo_order_ok(*self, start, order@),
            forall|i: int| 0 <= i < order@.len() ==> (#[trigger] order@[i]) < self.node_count(),
    {
        let n = self.adj.len();
        let mut oracle = CycleOracle::new();
        oracle.compute(self, start);
        let reach = oracle.visited;
        let mut done: Vec<bool> = Vec::new();
        while done.len() < n
            invariant
                done@.len() <= n,
                forall|k: int| 0 <= k < done@.len() ==> !done@[k],
            decreases n - done@.len(),
        {
            done.push(false);
        }
        let mut order: Vec<usize> = Vec::new();
        loop
            invariant_except_break
                self.wf(),
                self.acyclic(),
                self.in_range(start),
                n == self.node_count(),
                reach@.len() == n,
                done@.len() == n,
                forall|v: usize| v < n ==> (reach@[v as int] <==> self.reaches(start, v)),
                forall|v: usize| v < n && #[trigger] done@[v as int] ==> reach@[v as int],
                forall|v: usize|
                    v < n ==> (#[trigger] done@[v as int] <==> order@.contains(v)),
                forall|i: int| 0 <= i < order@.len() ==> (#[trigger] order@[i]) < n,
                forall|i: int|
                    0 <= i < order@.len() ==> self.reaches(start, #[trigger] order@[i]),
                forall|i: int, j: int| 0 <= i < j < order@.len() ==> order@[i] != order@[j],
                forall|j: int, u: usize|
                    0 <= j < order@.len() && self.reaches(start, u) && #[trigger] self.has_edge(
                        u,
                        order@[j],
                    ) ==> exists|i: int| 0 <= i < j && order@[i] == u,
            ensures
                topo_order_ok(*self, start, order@),
                forall|i: int| 0 <= i < order@.len() ==> (#[trigger] order@[i]) < n,
            decreases count_falses(done@),
        {
            let mut found: Option<usize> = None;
            let mut c: usize = 0;
            while c < n && found.is_none()
                invariant
                    self.wf(),
                    n == self.node_count(),
                    reach@.len() == n,
                    done@.len() == n,
                    found matches Option::Some(f) ==> f < n && reach@[f as int]
                        && !done@[f as int] && forall|u: usize|
                        u < n && reach@[u as int] && !done@[u as int] ==> !(
                        #[trigger] self.has_edge(u, f)),
                    found is None ==> forall|w: usize|
                        w < c && #[trigger] reach@[w as int] && !done@[w as int] ==> exists|
                            u: usize,
                        |
                            u < n && reach@[u as int] && !done@[u as int] && #[trigger] self
                                .has_edge(u, w),
                    c <= n,
                decreases n - c,
            {
                if reach[c] && !done[c] && all_preds_done(self, &reach, &done, c) {
                    found = Some(c);
                }
                c = c + 1;
            }
            match found {
                Some(c) => {
                    let ghost d0 = done@;
                    let ghost o0 = order@;
                    done[c] = true;
                    order.push(c);
                    proof {
                        lemma_count_falses_update(d0, c as int);
                        assert(order@[o0.len() as int] == c);
                        assert forall|v: usize|
                            v < n implies (#[trigger] done@[v as int] <==> order@.contains(
                            v,
                        )) by {
                            if done@[v as int] {
                                if v == c {
                                    assert(order@[o0.len() as int] == v);
                                } else {
                                    assert(d0[v as int]);
                                    assert(o0.contains(v));
                                    let k = choose|k: int| 0 <= k < o0.len() && o0[k] == v;
                                    assert(order@[k] == v);
                                }
                            }
                            if order@.contains(v) {
                                let k = choose|k: int|
                                    0 <= k < order@.len() && order@[k] == v;
                                if k < o0.len() {
                                    assert(o0[k] == v);
                                    assert(d0[v as int]);
                                }
                            }
                        }
                        assert forall|i: int, j: int|
                            0 <= i < j < order@.len() implies order@[i] != order@[j] by {
                            if j < o0.len() {
                                assert(o0[i] == order@[i] && o0[j] == order@[j]);
                            } else {
                                assert(order@[j] == c);
                                assert(!d0[c as int]);
                                if order@[i] == c {
                                    assert(o0[i] == c);
                                    assert(o0.contains(c));
                                }
                            }
                        }
                        assert forall|j: int, u: usize|
                            0 <= j < order@.len() && self.reaches(start, u)
                                && #[trigger] self.has_edge(u, order@[j]) implies exists|i: int|
                            0 <= i < j && order@[i] == u by {
                            if j < o0.len() {
                                let i = choose|i: int| 0 <= i < j && o0[i] == u;
                                assert(order@[i] == u);
                            } else {
                                // u is a reachable predecessor of c, so it was
                                // already emitted before c was selected.
                                assert(order@[j] == c);
                                assert(d0[u as int]);
                                assert(o0.contains(u));
                                let i = choose|i: int| 0 <= i < o0.len() && o0[i] == u;
                                assert(order@[i] == u);
                            }
                        }
                    }
                },
                None => {
                    proof {
                        // Any remaining reachable node would give the
                        // remaining set a member, but an acyclic graph's
                        // nonempty node sets always contain a source, and a
                        // source would have been selected by the scan.
                        let s = Set::new(
                            |v: usize| v < n && reach@[v as int] && !done@[v as int],
                        );
                        if exists|v: usize| v < n && reach@[v as int] && !done@[v as int] {
                            let v0 = choose|v: usize|
                                v < n && reach@[v as int] && !done@[v as int];
                            assert(s.contains(v0));
                            lemma_bounded_usize_set_finite(n);
                            vstd::set_lib::lemma_set_subset_finite(
                                Set::new(|c2: usize| c2 < n),
                                s,
                            );
                            if s.len() == 0 {
                                s.lemma_len0_is_empty();
                                assert(!s.contains(v0));
                            }
                            lemma_dag_has_source(*self, s);
                            let c2 = choose|c2: usize|
                                s.contains(c2) && forall|u: usize|
                                    s.contains(u) ==> !(#[trigger] self.has_edge(u, c2));
                            assert(c2 < n && reach@[c2 as int] && !done@[c2 as int]);
                            assert(exists|u: usize|
                                u < n && reach@[u as int] && !done@[u as int]
                                    && #[trigger] self.has_edge(u, c2));
                            let u = choose|u: usize|
                                u < n && reach@[u as int] && !done@[u as int]
                                    && #[trigger] self.has_edge(u, c2);
                            assert(s.contains(u));
                            assert(false);
                        }
                        assert forall|v: usize|
                            v < n && self.reaches(start, v) implies order@.contains(v) by {
                            assert(reach@[v as int]);
                            assert(done@[v as int]);
                        }
                    }
                    break ;
                },
            }
        }
        order
    }
}

} // verus!
