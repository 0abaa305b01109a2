//! Removes a vertex and everything below it from a syntax graph.
use crate::digraph::{
    is_bfs_order, is_search_order, lemma_order_is_reach_set, lemma_without_insert, lemma_without_sound,
    vertex_set, GraphView, SyntaxGraph,
};
use vstd::prelude::*;

verus! {

pub struct NodeRemover;

impl NodeRemover {
    /// Deletes `node_ix` and every vertex reachable from it, with all their
    /// edges; the surviving edge lists keep their order. Returns the deleted
    /// vertices in breadth-first order from `node_ix`.
    pub fn remove_node(graph: &mut SyntaxGraph, node_ix: usize) -> (r: Vec<usize>)
        requires
            old(graph)@.sound(),
            old(graph)@.has(node_ix as nat),
        ensures
            is_bfs_order(old(graph)@, node_ix as nat, r@),
            forall|n: nat| #[trigger]
                vertex_set(r@).contains(n) <==> old(graph)@.reaches(node_ix as nat, n),
            final(graph)@ == old(graph)@.without(vertex_set(r@)),
            final(graph)@.sound(),
    {
        let ghost g0 = graph@;
        assert((node_ix as nat) < g0.slots);
        let order = graph.search_order(node_ix);
        proof {
            lemma_order_is_reach_set(g0, node_ix as nat, order@);
            assert(order@.take(0) =~= Seq::<usize>::empty());
            assert(vertex_set(order@.take(0)) =~= Set::<nat>::empty());
            assert(g0.without(Set::<nat>::empty()).nodes =~= g0.nodes);
            assert forall|k: nat| #[trigger] g0.children.dom().contains(k) implies g0.children[k].filter(
                crate::digraph::keeps(Set::<nat>::empty()),
            ) == g0.children[k] by {
                lemma_filter_nothing(g0.children[k]);
            }
            assert(g0.without(Set::<nat>::empty()).children =~= g0.children);
        }
        let mut i: usize = 0;
        while i < order.len()
            invariant
                0 <= i <= order.len(),
                g0.sound(),
                is_search_order(g0, node_ix as nat, order@),
                graph@ == g0.without(vertex_set(order@.take(i as int))),
            decreases order.len() - i,
        {
            let v = order[i];
            let ghost done = vertex_set(order@.take(i as int));
            proof {
                assert(g0.has(v as nat));
                assert((v as nat) < g0.slots);
                if done.contains(v as nat) {
                    let t0 = order@.take(i as int);
                    let j = choose|j: int| 0 <= j < t0.len() && #[trigger] t0[j] as nat == v as nat;
                    assert(order@[j] == order@[i as int]);
                }
                lemma_without_sound(g0, done);
                assert(graph@.has(v as nat));
                lemma_without_insert(g0, done, v as nat);
            }
            graph.remove_vertex(v);
            proof {
                let t0 = order@.take(i as int);
                let t1 = order@.take(i + 1);
                assert forall|n: nat| #[trigger] vertex_set(t1).contains(n) implies done.insert(v as nat).contains(n) by {
                    let j = choose|j: int| 0 <= j < t1.len() && #[trigger] t1[j] as nat == n;
                    if j < i {
                        assert(t0[j] == t1[j]);
                    }
                }
                assert forall|n: nat| #[trigger] done.insert(v as nat).contains(n) implies vertex_set(t1).contains(n) by {
                    if n == v as nat {
                        assert(t1[i as int] == v);
                    } else {
                        let j = choose|j: int| 0 <= j < t0.len() && #[trigger] t0[j] as nat == n;
                        assert(t1[j] == t0[j]);
                    }
                }
                assert(vertex_set(t1) =~= done.insert(v as nat));
            }
            i += 1;
        }
        proof {
            assert(order@.take(order@.len() as int) =~= order@);
            lemma_without_sound(g0, vertex_set(order@));
        }
        order
    }
}

proof fn lemma_filter_nothing(s: Seq<nat>)
    ensures
        s.filter(crate::digraph::keeps(Set::<nat>::empty())) == s,
    decreases s.len(),
{
    reveal(Seq::filter);
    if s.len() > 0 {
        lemma_filter_nothing(s.drop_last());
        assert(s.drop_last().push(s.last()) =~= s);
    }
}

/// Removal leaves nothing of the subtree behind: once `v` and the vertices that
/// the search from `v` listed are deleted, no descendant of `v` can be reached
/// from any vertex, the root included.
pub proof fn lemma_removed_unreachable(
    before: GraphView,
    after: GraphView,
    v: nat,
    removed: Seq<usize>,
)
    requires
        before.sound(),
        is_search_order(before, v, removed),
        after == before.without(vertex_set(removed)),
    ensures
        forall|d: nat, r: nat| before.reaches(v, d) ==> !#[trigger] after.reaches(r, d),
{
    lemma_order_is_reach_set(before, v, removed);
    lemma_without_sound(before, vertex_set(removed));
    assert forall|d: nat, r: nat| before.reaches(v, d) implies !#[trigger] after.reaches(r, d) by {
        assert(vertex_set(removed).contains(d));
        if after.reaches(r, d) {
            let p = choose|p: Seq<nat>| #[trigger] after.is_path(p) && p[0] == r && p.last() == d;
            assert(after.has(p[p.len() - 1]));
        }
    }
}

proof fn lemma_path_avoids(g: GraphView, gone: Set<nat>, p: Seq<nat>, k: int)
    requires
        g.is_path(p),
        !gone.contains(p.last()),
        forall|a: nat, b: nat| #[trigger] g.edge(a, b) && gone.contains(a) ==> gone.contains(b),
        0 <= k < p.len(),
    ensures
        !gone.contains(p[k]),
    decreases p.len() - k,
{
    if k < p.len() - 1 {
        lemma_path_avoids(g, gone, p, k + 1);
        assert(g.edge(p[k], p[k + 1]));
    }
}

/// Removing a vertex other than the root, with everything below it, leaves a
/// tree under the same root.
pub proof fn lemma_removal_keeps_tree(g: GraphView, root: nat, v: nat, removed: Seq<usize>)
    requires
        g.sound(),
        g.is_tree(root),
        v != root,
        is_search_order(g, v, removed),
    ensures
        g.without(vertex_set(removed)).is_tree(root),
        g.without(vertex_set(removed)).sound(),
        !vertex_set(removed).contains(root),
{
    let gone = vertex_set(removed);
    let h = g.without(gone);
    lemma_order_is_reach_set(g, v, removed);
    lemma_without_sound(g, gone);
    if gone.contains(root) {
        let p = choose|p: Seq<nat>| #[trigger] g.is_path(p) && p[0] == v && p.last() == root;
        assert(p.len() >= 2);
        assert(g.edge(p[p.len() - 2], p[(p.len() - 2) + 1]));
    }
    assert forall|a: nat, b: nat| #[trigger] g.edge(a, b) && gone.contains(a) implies gone.contains(b) by {
        assert(g.has(b));
        crate::digraph::lemma_reaches_step(g, v, a, b);
    }
    assert forall|u: nat| #[trigger] h.has(u) implies h.reaches(root, u) by {
        assert(g.has(u));
        let p = choose|p: Seq<nat>| #[trigger] g.is_path(p) && p[0] == root && p.last() == u;
        assert forall|k: int| 0 <= k < p.len() implies h.has(#[trigger] p[k]) by {
            lemma_path_avoids(g, gone, p, k);
        }
        assert forall|k: int| 0 <= k < p.len() - 1 implies #[trigger] h.edge(p[k], p[k + 1]) by {
            lemma_path_avoids(g, gone, p, k);
            lemma_path_avoids(g, gone, p, k + 1);
        }
        assert(h.is_path(p));
    }
    assert forall|a: nat| #[trigger] h.kids(a).no_duplicates() by {
        if h.children.dom().contains(a) {
            crate::digraph::lemma_filter_distinct(g.kids(a), crate::digraph::keeps(gone));
        }
    }
    assert forall|a: nat| !#[trigger] h.edge(a, root) by {
        assert(!g.edge(a, root));
    }
    assert forall|a: nat, b: nat, c: nat|
        #[trigger] h.edge(a, c) && #[trigger] h.edge(b, c) implies a == b by {
        assert(g.edge(a, c) && g.edge(b, c));
    }
}

} // verus!
