//! A directed graph of syntax vertices, kept in a petgraph `StableDiGraph`.
//!
//! Each vertex carries a slot number: the position of its syntax payload in the
//! owning tree's payload table. The graph is seen through `GraphView`: the live
//! vertices with their slots, and for each vertex the targets of its outgoing
//! edges, oldest edge first.
use petgraph::graph::NodeIndex;
use petgraph::stable_graph::StableDiGraph;
use petgraph::visit::{Bfs, Walker};
use petgraph::Direction;
use vstd::prelude::*;

verus! {

#[verifier::external_type_specification]
#[verifier::external_body]
#[verifier::reject_recursive_types(N)]
#[verifier::reject_recursive_types(E)]
#[verifier::reject_recursive_types(Ty)]
#[verifier::reject_recursive_types(Ix)]
pub struct ExStableGraph<N, E, Ty, Ix>(petgraph::stable_graph::StableGraph<N, E, Ty, Ix>);

#[verifier::external_type_specification]
#[verifier::external_body]
pub struct ExDirected(petgraph::Directed);

/// The live vertices of a petgraph graph, each with the weight it carries.
pub uninterp spec fn graph_nodes(g: StableDiGraph<usize, ()>) -> Map<nat, usize>;

/// For each live vertex, the targets of its outgoing edges in the order the
/// edges were added.
pub uninterp spec fn graph_children(g: StableDiGraph<usize, ()>) -> Map<nat, Seq<nat>>;

/// The number of vertex slots the graph has handed out, vacant ones included.
pub uninterp spec fn graph_slots(g: StableDiGraph<usize, ()>) -> nat;

/// The number of edge slots the graph has handed out, vacant ones included.
pub uninterp spec fn graph_edge_slots(g: StableDiGraph<usize, ()>) -> nat;

/// Vertex indices are `u32`; this one is reserved as "no vertex".
pub const INDEX_END: usize = 0xFFFF_FFFF;

/// Holds of the vertices outside `gone`.
pub open spec fn keeps(gone: Set<nat>) -> spec_fn(nat) -> bool {
    |x: nat| !gone.contains(x)
}

/// Holds of every vertex but `v`.
pub open spec fn other_than(v: nat) -> spec_fn(nat) -> bool {
    |x: nat| x != v
}

/// The vertices listed in `order`.
pub open spec fn vertex_set(order: Seq<usize>) -> Set<nat> {
    Set::new(|n: nat| exists|i: int| 0 <= i < order.len() && order[i] as nat == n)
}

/// What a graph holds, as mathematical values.
pub struct GraphView {
    pub nodes: Map<nat, usize>,
    pub children: Map<nat, Seq<nat>>,
    pub slots: nat,
    pub edge_slots: nat,
}

impl GraphView {
    pub open spec fn has(self, v: nat) -> bool {
        self.nodes.dom().contains(v)
    }

    /// The targets of `v`'s outgoing edges, in edge order.
    pub open spec fn kids(self, v: nat) -> Seq<nat> {
        if self.children.dom().contains(v) {
            self.children[v]
        } else {
            Seq::empty()
        }
    }

    pub open spec fn edge(self, a: nat, b: nat) -> bool {
        self.kids(a).contains(b)
    }

    /// The graph's own bookkeeping: edge lists exactly for live vertices, edges
    /// only between live vertices, indices below the slot count.
    pub open spec fn sound(self) -> bool {
        &&& self.children.dom() == self.nodes.dom()
        &&& self.slots <= INDEX_END
        &&& forall|v: nat| #[trigger] self.has(v) ==> v < self.slots
        &&& forall|a: nat, b: nat| #[trigger] self.edge(a, b) ==> self.has(a) && self.has(b)
    }

    /// `p` is a walk along edges through live vertices.
    pub open spec fn is_path(self, p: Seq<nat>) -> bool {
        &&& p.len() > 0
        &&& forall|i: int| 0 <= i < p.len() ==> self.has(#[trigger] p[i])
        &&& forall|i: int| 0 <= i < p.len() - 1 ==> #[trigger] self.edge(p[i], p[i + 1])
    }

    /// `b` can be reached from `a` by following edges (every vertex reaches itself).
    pub open spec fn reaches(self, a: nat, b: nat) -> bool {
        exists|p: Seq<nat>| #[trigger] self.is_path(p) && p[0] == a && p.last() == b
    }

    /// No vertex is the target of edges from two different vertices.
    pub open spec fn single_parent(self) -> bool {
        forall|a: nat, b: nat, c: nat|
            #[trigger] self.edge(a, c) && #[trigger] self.edge(b, c) ==> a == b
    }

    /// A tree hanging from `root`: no edge enters the root, no vertex has two
    /// parents or two edges from its parent, and every vertex can be reached
    /// from the root.
    pub open spec fn is_tree(self, root: nat) -> bool {
        &&& self.has(root)
        &&& forall|a: nat| !#[trigger] self.edge(a, root)
        &&& self.single_parent()
        &&& forall|a: nat| #[trigger] self.kids(a).no_duplicates()
        &&& forall|v: nat| #[trigger] self.has(v) ==> self.reaches(root, v)
    }

    /// The view after deleting the vertices in `gone` and every edge touching them.
    pub open spec fn without(self, gone: Set<nat>) -> GraphView {
        GraphView {
            nodes: self.nodes.remove_keys(gone),
            children: self.children.remove_keys(gone).map_values(
                |s: Seq<nat>| s.filter(keeps(gone)),
            ),
            slots: self.slots,
            edge_slots: self.edge_slots,
        }
    }
}

/// Some vertex before position `i` of `order` has an edge to `order[i]`.
pub open spec fn entered_earlier(g: GraphView, order: Seq<usize>, i: int) -> bool {
    exists|j: int| 0 <= j < i && #[trigger] g.edge(order[j] as nat, order[i] as nat)
}

/// An order in which breadth-first search from `start` may visit the graph:
/// `start` first, no vertex twice, each later vertex the target of an edge from
/// an earlier one, and every edge out of a visited vertex leading to a visited one.
pub open spec fn is_search_order(g: GraphView, start: nat, order: Seq<usize>) -> bool {
    &&& order.len() > 0
    &&& order[0] == start
    &&& order.no_duplicates()
    &&& forall|i: int| 0 <= i < order.len() ==> g.has(#[trigger] order[i] as nat)
    &&& forall|i: int| 0 < i < order.len() ==> #[trigger] entered_earlier(g, order, i)
    &&& forall|i: int, c: nat|
        0 <= i < order.len() && #[trigger] g.edge(order[i] as nat, c) ==> order.contains(
            c as usize,
        )
}

/// Position `j` of `order` holds the first vertex in `order` with an edge to
/// `order[i]`.
pub open spec fn first_parent_at(g: GraphView, order: Seq<usize>, i: int, j: int) -> bool {
    &&& 0 <= j < i < order.len()
    &&& g.edge(order[j] as nat, order[i] as nat)
    &&& forall|k: int| 0 <= k < j ==> !#[trigger] g.edge(order[k] as nat, order[i] as nat)
}

/// Position `a` holds the last `x` of `s`.
pub open spec fn last_at(s: Seq<nat>, x: nat, a: int) -> bool {
    &&& 0 <= a < s.len()
    &&& s[a] == x
    &&& forall|b: int| a < b < s.len() ==> #[trigger] s[b] != x
}

/// The order in which breadth-first search from `start` visits the graph,
/// following each vertex's edges newest first: a search order in which the
/// vertices after `start` come in the order of their first parent's position,
/// and the children of one first parent in the order of their newest edges
/// from it.
pub open spec fn is_bfs_order(g: GraphView, start: nat, order: Seq<usize>) -> bool {
    &&& is_search_order(g, start, order)
    &&& forall|i: int, j: int, pi: int, pj: int|
        #![trigger first_parent_at(g, order, i, pi), first_parent_at(g, order, j, pj)]
        0 < i < j && first_parent_at(g, order, i, pi) && first_parent_at(g, order, j, pj) ==> pi
            <= pj
    &&& forall|i: int, j: int, p: int, a: int, b: int|
        #![trigger first_parent_at(g, order, i, p), first_parent_at(g, order, j, p), last_at(g.kids(order[p] as nat), order[i] as nat, a), last_at(g.kids(order[p] as nat), order[j] as nat, b)]
        0 < i < j && first_parent_at(g, order, i, p) && first_parent_at(g, order, j, p) && last_at(
            g.kids(order[p] as nat),
            order[i] as nat,
            a,
        ) && last_at(g.kids(order[p] as nat), order[j] as nat, b) ==> a > b
}

/// A syntax graph: a petgraph directed graph whose vertices carry payload slots.
pub struct SyntaxGraph {
    pub g: StableDiGraph<usize, ()>,
}

impl View for SyntaxGraph {
    type V = GraphView;

    open spec fn view(&self) -> GraphView {
        GraphView {
            nodes: graph_nodes(self.g),
            children: graph_children(self.g),
            slots: graph_slots(self.g),
            edge_slots: graph_edge_slots(self.g),
        }
    }
}

impl SyntaxGraph {
    /// Relies on `StableGraph::new`: a graph with no vertex, no edge and no slot.
    #[verifier::external_body]
    pub(crate) fn empty() -> (r: SyntaxGraph)
        ensures
            graph_nodes(r.g).dom() == Set::<nat>::empty(),
            graph_children(r.g).dom() == Set::<nat>::empty(),
            graph_slots(r.g) == 0,
            graph_edge_slots(r.g) == 0,
    {
        SyntaxGraph { g: StableDiGraph::new() }
    }

    /// Relies on `StableGraph::add_node`: the new vertex takes a vacant slot or a
    /// new one, has no edges, and carries `weight`. It panics only when a new slot
    /// would be the reserved index, which `requires` rules out.
    #[verifier::external_body]
    pub(crate) fn add_node(&mut self, weight: usize) -> (r: usize)
        requires
            graph_slots(old(self).g) < INDEX_END,
        ensures
            !graph_nodes(old(self).g).dom().contains(r as nat),
            (r as nat) < graph_slots(final(self).g),
            graph_slots(final(self).g) <= graph_slots(old(self).g) + 1,
            graph_slots(old(self).g) <= graph_slots(final(self).g),
            graph_edge_slots(final(self).g) == graph_edge_slots(old(self).g),
            graph_nodes(final(self).g) == graph_nodes(old(self).g).insert(r as nat, weight),
            graph_children(final(self).g) == graph_children(old(self).g).insert(
                r as nat,
                Seq::empty(),
            ),
    {
        self.g.add_node(weight).index()
    }

    /// Relies on `StableGraph::add_edge`: the edge is put first in `a`'s list
    /// of outgoing edges, which iteration walks newest first; seen in the order
    /// of addition, `b` is appended to `a`'s targets. It takes a vacant edge
    /// slot or a new one. It panics on an endpoint that is not a live vertex, and
    /// when a new edge slot would be the reserved index, which `requires` rules out.
    #[verifier::external_body]
    pub(crate) fn add_edge(&mut self, a: usize, b: usize)
        requires
            graph_edge_slots(old(self).g) < INDEX_END,
            graph_nodes(old(self).g).dom().contains(a as nat),
            graph_nodes(old(self).g).dom().contains(b as nat),
            a < INDEX_END,
            b < INDEX_END,
        ensures
            graph_nodes(final(self).g) == graph_nodes(old(self).g),
            graph_slots(final(self).g) == graph_slots(old(self).g),
            graph_edge_slots(final(self).g) <= graph_edge_slots(old(self).g) + 1,
            graph_children(final(self).g) == graph_children(old(self).g).insert(
                a as nat,
                graph_children(old(self).g)[a as nat].push(b as nat),
            ),
    {
        self.g.add_edge(NodeIndex::new(a), NodeIndex::new(b), ());
    }

    /// Relies on `StableGraph::remove_node`: a live vertex is deleted together with
    /// every edge into or out of it, the other edge lists keeping their order; an
    /// index that is not live changes nothing.
    #[verifier::external_body]
    pub(crate) fn remove_vertex(&mut self, v: usize)
        requires
            v < INDEX_END,
        ensures
            graph_slots(final(self).g) == graph_slots(old(self).g),
            graph_edge_slots(final(self).g) == graph_edge_slots(old(self).g),
            graph_nodes(old(self).g).dom().contains(v as nat) ==> {
                &&& graph_nodes(final(self).g) == graph_nodes(old(self).g).remove(v as nat)
                &&& graph_children(final(self).g) == graph_children(old(self).g).remove(
                    v as nat,
                ).map_values(|s: Seq<nat>| s.filter(other_than(v as nat)))
            },
            !graph_nodes(old(self).g).dom().contains(v as nat) ==> {
                &&& graph_nodes(final(self).g) == graph_nodes(old(self).g)
                &&& graph_children(final(self).g) == graph_children(old(self).g)
            },
    {
        self.g.remove_node(NodeIndex::new(v));
    }

    /// Relies on `StableGraph::node_weight`: the weight of a live vertex.
    #[verifier::external_body]
    pub(crate) fn weight(&self, v: usize) -> (r: Option<usize>)
        requires
            v < INDEX_END,
        ensures
            graph_nodes(self.g).dom().contains(v as nat) ==> r == Some(
                graph_nodes(self.g)[v as nat],
            ),
            !graph_nodes(self.g).dom().contains(v as nat) ==> r is None,
    {
        self.g.node_weight(NodeIndex::new(v)).copied()
    }

    /// Relies on `StableGraph::neighbors_directed` with `Outgoing`: the targets
    /// of `v`'s outgoing edges, newest edge first.
    #[verifier::external_body]
    pub(crate) fn targets_newest_first(&self, v: usize) -> (r: Vec<usize>)
        requires
            graph_nodes(self.g).dom().contains(v as nat),
            v < INDEX_END,
        ensures
            r@.len() == graph_children(self.g)[v as nat].len(),
            forall|i: int|
                0 <= i < r@.len() ==> r@[i] as nat == graph_children(self.g)[v as nat].reverse()[i],
    {
        self.g.neighbors_directed(NodeIndex::new(v), Direction::Outgoing).map(|n| n.index()).collect()
    }

    /// The targets of `v`'s outgoing edges, oldest edge first.
    pub fn targets(&self, v: usize) -> (r: Vec<usize>)
        requires
            self@.sound(),
            self@.has(v as nat),
        ensures
            r@.len() == self@.kids(v as nat).len(),
            forall|i: int| 0 <= i < r@.len() ==> #[trigger] r@[i] as nat == self@.kids(v as nat)[i],
    {
        assert((v as nat) < self@.slots);
        let newest = self.targets_newest_first(v);
        let ghost kids = self@.kids(v as nat);
        let mut r: Vec<usize> = Vec::new();
        let mut i: usize = newest.len();
        while i > 0
            invariant
                0 <= i <= newest.len(),
                newest@.len() == kids.len(),
                forall|k: int| 0 <= k < newest@.len() ==> newest@[k] as nat == kids.reverse()[k],
                r@.len() == newest@.len() - i,
                forall|k: int| 0 <= k < r@.len() ==> #[trigger] r@[k] as nat == kids[k],
            decreases i,
        {
            i -= 1;
            let ghost k = r@.len() as int;
            r.push(newest[i]);
            assert(kids.reverse()[i as int] == kids[kids.len() - 1 - i]);
            assert(r@[k] as nat == kids[k]);
        }
        r
    }

    /// Relies on petgraph's `Bfs` from a live vertex: the vertices in the order
    /// the search visits them. It pops vertices from a queue, and on popping one
    /// pushes its not yet discovered targets as `neighbors` yields them, newest
    /// edge first.
    #[verifier::external_body]
    pub(crate) fn search_order(&self, start: usize) -> (r: Vec<usize>)
        requires
            graph_nodes(self.g).dom().contains(start as nat),
            start < INDEX_END,
        ensures
            is_bfs_order(
                GraphView {
                    nodes: graph_nodes(self.g),
                    children: graph_children(self.g),
                    slots: graph_slots(self.g),
                    edge_slots: graph_edge_slots(self.g),
                },
                start as nat,
                r@,
            ),
    {
        Bfs::new(&self.g, NodeIndex::new(start)).iter(&self.g).map(|n| n.index()).collect()
    }

    /// Relies on `StableGraph`'s `Clone`: the copy keeps every index.
    #[verifier::external_body]
    pub(crate) fn duplicate(&self) -> (r: SyntaxGraph)
        ensures
            graph_nodes(r.g) == graph_nodes(self.g),
            graph_children(r.g) == graph_children(self.g),
            graph_slots(r.g) == graph_slots(self.g),
            graph_edge_slots(r.g) == graph_edge_slots(self.g),
    {
        SyntaxGraph { g: self.g.clone() }
    }
}

/// A walk in one graph is a walk in every graph that has at least its vertices
/// and its edges.
pub proof fn lemma_path_in_larger(g1: GraphView, g2: GraphView, p: Seq<nat>)
    requires
        g1.is_path(p),
        forall|v: nat| g1.has(v) ==> #[trigger] g2.has(v),
        forall|a: nat, b: nat| g1.edge(a, b) ==> #[trigger] g2.edge(a, b),
    ensures
        g2.is_path(p),
{
    assert forall|i: int| 0 <= i < p.len() implies g2.has(#[trigger] p[i]) by {
        assert(g1.has(p[i]));
    }
    assert forall|i: int| 0 <= i < p.len() - 1 implies #[trigger] g2.edge(p[i], p[i + 1]) by {
        assert(g1.edge(p[i], p[i + 1]));
    }
}

/// A walk followed by one more edge is a walk.
pub proof fn lemma_path_push(g: GraphView, p: Seq<nat>, n: nat)
    requires
        g.is_path(p),
        g.has(n),
        g.edge(p.last(), n),
    ensures
        g.is_path(p.push(n)),
        p.push(n)[0] == p[0],
        p.push(n).last() == n,
{
    let q = p.push(n);
    assert forall|i: int| 0 <= i < q.len() implies g.has(#[trigger] q[i]) by {
        if i < p.len() {
            assert(q[i] == p[i]);
        }
    }
    assert forall|i: int| 0 <= i < q.len() - 1 implies #[trigger] g.edge(q[i], q[i + 1]) by {
        if i < p.len() - 1 {
            assert(q[i] == p[i] && q[i + 1] == p[i + 1]);
        }
    }
}

/// Every vertex reaches itself.
pub proof fn lemma_reaches_self(g: GraphView, v: nat)
    requires
        g.has(v),
    ensures
        g.reaches(v, v),
{
    let p = seq![v];
    assert(p[0] == v);
    assert(g.is_path(p));
}

/// Following one more edge keeps a vertex reachable.
pub proof fn lemma_reaches_step(g: GraphView, a: nat, b: nat, c: nat)
    requires
        g.reaches(a, b),
        g.has(c),
        g.edge(b, c),
    ensures
        g.reaches(a, c),
{
    let p = choose|p: Seq<nat>| #[trigger] g.is_path(p) && p[0] == a && p.last() == b;
    lemma_path_push(g, p, c);
    assert(g.is_path(p.push(c)));
}

/// Every vertex of a search order is reachable from the start.
pub proof fn lemma_order_reached(g: GraphView, start: nat, order: Seq<usize>, i: int)
    requires
        is_search_order(g, start, order),
        0 <= i < order.len(),
    ensures
        g.reaches(start, order[i] as nat),
    decreases i,
{
    if i == 0 {
        lemma_reaches_self(g, start);
    } else {
        assert(entered_earlier(g, order, i));
        let j = choose|j: int| 0 <= j < i && #[trigger] g.edge(order[j] as nat, order[i] as nat);
        lemma_order_reached(g, start, order, j);
        assert(g.has(order[i] as nat));
        lemma_reaches_step(g, start, order[j] as nat, order[i] as nat);
    }
}

proof fn lemma_walk_in_order(g: GraphView, start: nat, order: Seq<usize>, p: Seq<nat>, k: int)
    requires
        g.sound(),
        is_search_order(g, start, order),
        g.is_path(p),
        p[0] == start,
        0 <= k < p.len(),
    ensures
        order.contains(p[k] as usize),
    decreases k,
{
    if k == 0 {
        assert(order[0] == start);
    } else {
        lemma_walk_in_order(g, start, order, p, k - 1);
        let i = choose|i: int| 0 <= i < order.len() && order[i] == p[k - 1] as usize;
        assert(g.has(p[k - 1]));
        assert(order[i] as nat == p[k - 1]);
        assert(g.edge(p[k - 1], p[(k - 1) + 1]));
        assert(g.edge(order[i] as nat, p[k]));
    }
}

/// A search order lists exactly the vertices reachable from the start.
pub proof fn lemma_order_is_reach_set(g: GraphView, start: nat, order: Seq<usize>)
    requires
        g.sound(),
        is_search_order(g, start, order),
    ensures
        forall|n: nat| #[trigger] vertex_set(order).contains(n) <==> g.reaches(start, n),
{
    assert forall|n: nat| #[trigger] vertex_set(order).contains(n) <==> g.reaches(start, n) by {
        if vertex_set(order).contains(n) {
            let i = choose|i: int| 0 <= i < order.len() && order[i] as nat == n;
            lemma_order_reached(g, start, order, i);
        }
        if g.reaches(start, n) {
            let p = choose|p: Seq<nat>| #[trigger] g.is_path(p) && p[0] == start && p.last() == n;
            lemma_walk_in_order(g, start, order, p, p.len() - 1);
            let i = choose|i: int| 0 <= i < order.len() && order[i] == n as usize;
            assert(g.has(n));
            assert(order[i] as nat == n);
        }
    }
}

/// Filtering out a set and then one more vertex is filtering out both.
pub proof fn lemma_filter_twice(s: Seq<nat>, gone: Set<nat>, v: nat)
    ensures
        s.filter(keeps(gone)).filter(other_than(v)) == s.filter(keeps(gone.insert(v))),
    decreases s.len(),
{
    reveal(Seq::filter);
    if s.len() > 0 {
        lemma_filter_twice(s.drop_last(), gone, v);
        let x = s.last();
        let once = s.drop_last().filter(keeps(gone));
        if keeps(gone)(x) {
            assert(s.filter(keeps(gone)) == once.push(x));
            assert(once.push(x).drop_last() == once);
        } else {
            assert(s.filter(keeps(gone)) == once);
        }
    }
}

/// Deleting a set of vertices and then one more is deleting all of them.
pub proof fn lemma_without_insert(g: GraphView, gone: Set<nat>, v: nat)
    ensures
        ({
            let h = g.without(gone);
            GraphView {
                nodes: h.nodes.remove(v),
                children: h.children.remove(v).map_values(
                    |s: Seq<nat>| s.filter(other_than(v)),
                ),
                slots: h.slots,
                edge_slots: h.edge_slots,
            }
        }) == g.without(gone.insert(v)),
{
    let h = g.without(gone);
    let lhs = h.children.remove(v).map_values(|s: Seq<nat>| s.filter(other_than(v)));
    let rhs = g.without(gone.insert(v)).children;
    assert forall|k: nat| #[trigger] lhs.dom().contains(k) implies lhs[k] == rhs[k] by {
        lemma_filter_twice(g.children[k], gone, v);
    }
    assert(lhs =~= rhs);
    assert(h.nodes.remove(v) =~= g.without(gone.insert(v)).nodes);
}

/// Filtering keeps a sequence free of repeats.
pub proof fn lemma_filter_distinct(s: Seq<nat>, pred: spec_fn(nat) -> bool)
    requires
        s.no_duplicates(),
    ensures
        s.filter(pred).no_duplicates(),
    decreases s.len(),
{
    reveal(Seq::filter);
    if s.len() > 0 {
        let rest = s.drop_last();
        assert(rest.no_duplicates()) by {
            assert forall|i: int, j: int| 0 <= i < rest.len() && 0 <= j < rest.len() && i != j implies rest[i] != rest[j] by {
                assert(rest[i] == s[i] && rest[j] == s[j]);
            }
        }
        lemma_filter_distinct(rest, pred);
        if pred(s.last()) {
            if rest.filter(pred).contains(s.last()) {
                rest.lemma_filter_contains_rev(pred, s.last());
                let i = choose|i: int| 0 <= i < rest.len() && rest[i] == s.last();
                assert(s[i] == s[s.len() - 1]);
            }
            let f = rest.filter(pred).push(s.last());
            assert forall|i: int, j: int| 0 <= i < f.len() && 0 <= j < f.len() && i != j implies f[i] != f[j] by {
                if i < f.len() - 1 && j < f.len() - 1 {
                } else if i == f.len() - 1 {
                    assert(rest.filter(pred)[j] == f[j]);
                } else {
                    assert(rest.filter(pred)[i] == f[i]);
                }
            }
        }
    }
}

/// Deleting vertices keeps the graph's bookkeeping sound.
pub proof fn lemma_without_sound(g: GraphView, gone: Set<nat>)
    requires
        g.sound(),
    ensures
        g.without(gone).sound(),
        forall|v: nat| #[trigger] g.without(gone).has(v) <==> g.has(v) && !gone.contains(v),
        forall|a: nat, b: nat|
            #[trigger] g.without(gone).edge(a, b) <==> g.edge(a, b) && !gone.contains(a)
                && !gone.contains(b),
{
    broadcast use vstd::seq_lib::group_filter_ensures;
    let h = g.without(gone);
    assert(h.children.dom() =~= h.nodes.dom());
    assert forall|a: nat, b: nat| #[trigger] h.edge(a, b) <==> g.edge(a, b) && !gone.contains(a)
        && !gone.contains(b) by {
        if h.edge(a, b) {
            assert(h.children.dom().contains(a));
            g.children[a].lemma_filter_contains_rev(keeps(gone), b);
            let i = choose|i: int|
                0 <= i < g.children[a].filter(keeps(gone)).len() && g.children[a].filter(
                    keeps(gone),
                )[i] == b;
            assert(keeps(gone)(g.children[a].filter(keeps(gone))[i]));
        }
        if g.edge(a, b) && !gone.contains(a) && !gone.contains(b) {
            let i = choose|i: int| 0 <= i < g.children[a].len() && g.children[a][i] == b;
            assert(g.children.dom().contains(a));
            assert(g.children[a].filter(keeps(gone)).contains(g.children[a][i]));
        }
    }
    assert forall|v: nat| #[trigger] h.has(v) implies v < h.slots by {
        assert(g.has(v));
    }
    assert forall|a: nat, b: nat| #[trigger] h.edge(a, b) implies h.has(a) && h.has(b) by {
        assert(g.edge(a, b));
    }
}

} // verus!
