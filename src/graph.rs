//! The syntax tree as a graph, and the builder that fills it while a walk over
//! the syn tree enters and leaves the tracked pieces of syntax.
use crate::digraph::{
    lemma_path_in_larger, lemma_reaches_self, lemma_reaches_step, GraphView, SyntaxGraph,
    INDEX_END,
};
use crate::parser::{AstNode, NodeKind};
use vstd::prelude::*;

verus! {

/// The kind of syntax that vertex `v` of `g` stands for, by its payload slot.
pub open spec fn kind_in(g: GraphView, nodes: Seq<AstNode>, v: nat) -> NodeKind {
    nodes[g.nodes[v] as int].spec_kind()
}

/// Every vertex of `g` points into the payload table.
pub open spec fn payloads_fit(g: GraphView, nodes: Seq<AstNode>) -> bool {
    forall|v: nat| #[trigger] g.has(v) ==> (g.nodes[v] as int) < nodes.len()
}

/// The kind of syntax that vertex `v` stands for.
pub fn kind_at(graph: &SyntaxGraph, nodes: &Vec<AstNode>, v: usize) -> (r: NodeKind)
    requires
        graph@.sound(),
        payloads_fit(graph@, nodes@),
        graph@.has(v as nat),
    ensures
        r == kind_in(graph@, nodes@, v as nat),
{
    assert(graph@.has(v as nat) ==> (v as nat) < graph@.slots);
    let slot = graph.weight(v).unwrap();
    nodes[slot].kind()
}

/// A syntax tree: the graph, the payload table its vertices point into, and
/// the root vertex.
pub struct SyntaxTree {
    pub graph: SyntaxGraph,
    pub nodes: Vec<AstNode>,
    pub root_node: Option<usize>,
}

impl SyntaxTree {
    /// The kind of syntax that vertex `v` stands for.
    pub open spec fn kind_of(&self, v: nat) -> NodeKind {
        kind_in(self.graph@, self.nodes@, v)
    }

    /// The graph is sound, its vertices point into the payload table, and it is
    /// either empty without a root or a tree under a `SourceRoot` root.
    pub open spec fn wf(&self) -> bool {
        &&& self.graph@.sound()
        &&& self.graph@.slots <= self.nodes@.len()
        &&& self.graph@.edge_slots <= self.nodes@.len()
        &&& payloads_fit(self.graph@, self.nodes@)
        &&& match self.root_node {
            None => self.graph@.nodes.dom() == Set::<nat>::empty(),
            Some(r) => {
                &&& self.graph@.is_tree(r as nat)
                &&& self.kind_of(r as nat) == NodeKind::SourceRoot
            },
        }
    }

    /// An empty tree.
    pub fn new() -> (r: Self)
        ensures
            r.wf(),
            r.graph@.nodes.dom() == Set::<nat>::empty(),
            r.nodes@.len() == 0,
            r.root_node is None,
    {
        SyntaxTree { graph: SyntaxGraph::empty(), nodes: Vec::new(), root_node: None }
    }

    pub fn root_node(&self) -> (r: Option<usize>)
        ensures
            r == self.root_node,
    {
        self.root_node
    }

    pub fn as_ref(&self) -> (r: &SyntaxGraph)
        ensures
            r == &self.graph,
    {
        &self.graph
    }
}

/// Builds a syntax tree during a depth-first walk: each tracked piece of syntax
/// is entered (it becomes a child of the current vertex and the new current
/// vertex) and later left (the previous current vertex is restored).
pub struct GraphBuilder {
    pub syntax_tree: SyntaxTree,
    pub current_node: Option<usize>,
}

impl GraphBuilder {
    pub open spec fn wf(&self) -> bool {
        &&& self.syntax_tree.wf()
        &&& match self.current_node {
            Some(c) => self.syntax_tree.graph@.has(c as nat),
            None => true,
        }
        &&& self.syntax_tree.root_node is None ==> self.current_node is None
    }

    /// Whether entering a piece of syntax of kind `kind` adds a vertex: there is
    /// room for one more, and either a current vertex to hang it from or no root
    /// yet and the piece is the source root.
    pub open spec fn can_enter(&self, kind: NodeKind) -> bool {
        &&& self.syntax_tree.nodes@.len() < INDEX_END
        &&& (self.current_node is Some || (self.syntax_tree.root_node is None && kind
            == NodeKind::SourceRoot))
    }

    /// A builder over `syntax_tree`, positioned at `current_node` when that is
    /// a vertex of it, else at no vertex.
    pub fn new(syntax_tree: SyntaxTree, current_node: Option<usize>) -> (r: Self)
        requires
            syntax_tree.wf(),
        ensures
            r.wf(),
            r.syntax_tree == syntax_tree,
            r.current_node == (match current_node {
                Some(c) => if syntax_tree.graph@.has(c as nat) {
                    Some(c)
                } else {
                    None
                },
                None => None,
            }),
    {
        let current = match current_node {
            Some(c) => if c < INDEX_END && syntax_tree.graph.weight(c).is_some() {
                Some(c)
            } else {
                None
            },
            None => None,
        };
        proof {
            if let Some(c) = current_node {
                if syntax_tree.graph@.has(c as nat) {
                    assert((c as nat) < syntax_tree.graph@.slots);
                }
            }
        }
        GraphBuilder { syntax_tree, current_node: current }
    }

    pub fn syntax_tree(&self) -> (r: &SyntaxTree)
        ensures
            r == &self.syntax_tree,
    {
        &self.syntax_tree
    }

    /// The finished tree.
    pub fn into_syntax_tree(self) -> (r: SyntaxTree)
        requires
            self.wf(),
        ensures
            r == self.syntax_tree,
            r.wf(),
    {
        self.syntax_tree
    }

    /// Enters a piece of syntax. Where it can (see `can_enter`), adds a vertex
    /// for it under the current vertex (or as the root), with an edge from the
    /// current vertex after its earlier ones, and makes it current; else
    /// changes nothing. Returns the vertex that was current before, for `leave`.
    pub fn enter(&mut self, node: AstNode) -> (r: Option<usize>)
        requires
            old(self).wf(),
        ensures
            final(self).wf(),
            r == old(self).current_node,
            old(self).can_enter(node.spec_kind()) ==> ({
                let t0 = old(self).syntax_tree;
                let t1 = final(self).syntax_tree;
                let n = final(self).current_node->Some_0 as nat;
                &&& final(self).current_node is Some
                &&& !t0.graph@.has(n)
                &&& t1.nodes@ == t0.nodes@.push(node)
                &&& t1.graph@.nodes == t0.graph@.nodes.insert(n, t0.nodes@.len() as usize)
                &&& t1.graph@.children == match old(self).current_node {
                    Some(p) => t0.graph@.children.insert(n, Seq::empty()).insert(
                        p as nat,
                        t0.graph@.children[p as nat].push(n),
                    ),
                    None => t0.graph@.children.insert(n, Seq::empty()),
                }
                &&& t1.root_node == match old(self).current_node {
                    Some(_) => t0.root_node,
                    None => Some(n as usize),
                }
            }),
            !old(self).can_enter(node.spec_kind()) ==> *final(self) == *old(self),
    {
        let prev = self.current_node;
        let kind = node.kind();
        if self.syntax_tree.nodes.len() >= INDEX_END {
            return prev;
        }
        if prev.is_none() && !(self.syntax_tree.root_node.is_none() && kind == NodeKind::SourceRoot) {
            return prev;
        }
        let ghost t0 = self.syntax_tree;
        let ghost g0 = self.syntax_tree.graph@;
        let slot = self.syntax_tree.nodes.len();
        self.syntax_tree.nodes.push(node);
        let n = self.syntax_tree.graph.add_node(slot);
        let ghost g1 = self.syntax_tree.graph@;
        assert forall|a: nat, b: nat| #[trigger] g0.edge(a, b) implies g1.edge(a, b) by {
            assert(g0.kids(a) == g1.kids(a));
        }
        match prev {
            Some(p) => {
                self.syntax_tree.graph.add_edge(p, n);
                let ghost g2 = self.syntax_tree.graph@;
                proof {
                    lemma_hang_leaf(g0, g2, p as nat, n as nat, t0.root_node->Some_0 as nat);
                }
            },
            None => {
                self.syntax_tree.root_node = Some(n);
                proof {
                    assert(g0.children.dom() =~= Set::<nat>::empty());
                    assert(g1.children =~= map![n as nat => Seq::<nat>::empty()]);
                    assert(g1.nodes.dom() =~= set![n as nat]);
                    lemma_single_vertex_tree(self.syntax_tree.graph@, n as nat);
                }
            },
        }
        self.current_node = Some(n);
        proof {
            let t1 = self.syntax_tree;
            assert forall|v: nat| #[trigger] t1.graph@.has(v) implies (t1.graph@.nodes[v] as int)
                < t1.nodes@.len() by {
                if v != n as nat {
                    assert(g0.has(v));
                }
            }
            let g = t1.graph@;
            assert(g.children.dom() =~= g.nodes.dom());
            assert forall|v: nat| #[trigger] g.has(v) implies v < g.slots by {
                if v != n as nat {
                    assert(g0.has(v));
                }
            }
            assert forall|a: nat, b: nat| #[trigger] g.edge(a, b) implies g.has(a) && g.has(b) by {
                if prev is None {
                    assert(g.kids(a) =~= Seq::<nat>::empty());
                } else if g0.edge(a, b) {
                    assert(g0.has(a) && g0.has(b));
                }
            }
            assert(g.sound());
            let r = t1.root_node->Some_0 as nat;
            if r != n as nat {
                assert(g0.has(r));
                assert(t1.nodes@[t1.graph@.nodes[r] as int] == t0.nodes@[t0.graph@.nodes[r] as int]);
            }
        }
        prev
    }

    /// Leaves the current piece of syntax: `parent` becomes current again when
    /// it is `None` or a vertex of the tree; any other value changes nothing.
    pub fn leave(&mut self, parent: Option<usize>)
        requires
            old(self).wf(),
        ensures
            final(self).wf(),
            final(self).syntax_tree == old(self).syntax_tree,
            final(self).current_node == (match parent {
                Some(p) => if old(self).syntax_tree.graph@.has(p as nat) {
                    Some(p)
                } else {
                    old(self).current_node
                },
                None => None,
            }),
    {
        match parent {
            Some(p) => {
                if p < INDEX_END && self.syntax_tree.graph.weight(p).is_some() {
                    self.current_node = Some(p);
                } else {
                    proof {
                        if self.syntax_tree.graph@.has(p as nat) {
                            assert((p as nat) < self.syntax_tree.graph@.slots);
                        }
                    }
                }
            },
            None => {
                self.current_node = None;
            },
        }
    }
}

/// A well-formed tree with a root, as every builder holds and every accepted
/// deletion keeps, has exactly one root: the root is a source root, it is the
/// only vertex that no edge enters, every other vertex has exactly one parent,
/// and every vertex can be reached from the root.
pub proof fn lemma_single_root(t: SyntaxTree)
    requires
        t.wf(),
        t.root_node is Some,
    ensures
        ({
            let g = t.graph@;
            let r = t.root_node->Some_0 as nat;
            &&& g.has(r)
            &&& t.kind_of(r) == NodeKind::SourceRoot
            &&& forall|v: nat| #[trigger] g.has(v) ==> g.reaches(r, v)
            &&& forall|v: nat|
                #[trigger] g.has(v) ==> (v == r <==> forall|a: nat| !#[trigger] g.edge(a, v))
            &&& forall|a: nat, b: nat, v: nat|
                #[trigger] g.edge(a, v) && #[trigger] g.edge(b, v) ==> a == b
        }),
{
    let g = t.graph@;
    let r = t.root_node->Some_0 as nat;
    assert forall|v: nat| #[trigger] g.has(v) implies (v == r <==> forall|a: nat|
        !#[trigger] g.edge(a, v)) by {
        if v != r {
            assert(g.reaches(r, v));
            let p = choose|p: Seq<nat>| #[trigger] g.is_path(p) && p[0] == r && p.last() == v;
            assert(p.len() >= 2);
            assert(g.edge(p[p.len() - 2], p[(p.len() - 2) + 1]));
        }
    }
}

/// A graph of one vertex and no edge is a tree under that vertex.
proof fn lemma_single_vertex_tree(g: GraphView, n: nat)
    requires
        g.nodes.dom() == set![n],
        g.children == map![n => Seq::<nat>::empty()],
    ensures
        g.is_tree(n),
{
    assert(g.has(n));
    lemma_reaches_self(g, n);
    assert forall|a: nat, c: nat| !#[trigger] g.edge(a, c) by {
        if a == n {
            assert(g.kids(a) == Seq::<nat>::empty());
        }
    }
    assert forall|a: nat| #[trigger] g.kids(a).no_duplicates() by {
        if a == n {
            assert(g.kids(a) == Seq::<nat>::empty());
        }
    }
}

/// Hanging a new leaf `n` from a vertex `p` of a tree keeps it a tree.
proof fn lemma_hang_leaf(g0: GraphView, g2: GraphView, p: nat, n: nat, root: nat)
    requires
        g0.sound(),
        g0.is_tree(root),
        g0.has(p),
        !g0.has(n),
        g2.nodes.dom() == g0.nodes.dom().insert(n),
        g2.children == g0.children.insert(n, Seq::empty()).insert(p, g0.children[p].push(n)),
    ensures
        g2.is_tree(root),
        forall|a: nat, c: nat| #[trigger] g2.edge(a, c) <==> (g0.edge(a, c) || (a == p && c == n)),
{
    assert(p != n);
    assert forall|a: nat, c: nat| #[trigger]
        g2.edge(a, c) <==> (g0.edge(a, c) || (a == p && c == n)) by {
        if a == p {
            assert(g2.kids(a) == g0.kids(a).push(n));
            if g2.kids(a).contains(c) && c != n {
                let i = choose|i: int| 0 <= i < g2.kids(a).len() && g2.kids(a)[i] == c;
                assert(g0.kids(a)[i] == c);
            }
            if g0.kids(a).contains(c) {
                let i = choose|i: int| 0 <= i < g0.kids(a).len() && g0.kids(a)[i] == c;
                assert(g2.kids(a)[i] == c);
            }
            assert(g2.kids(a)[g0.kids(a).len() as int] == n);
        } else if a == n {
            assert(g2.kids(a) == Seq::<nat>::empty());
            assert(!g0.has(a));
            if g0.edge(a, c) {
                assert(g0.has(a));
            }
        } else {
            assert(g2.kids(a) == g0.kids(a));
        }
    }
    assert forall|a: nat, b: nat, c: nat|
        #[trigger] g2.edge(a, c) && #[trigger] g2.edge(b, c) implies a == b by {
        if c == n {
            if g0.edge(a, c) {
                assert(g0.has(c));
            }
            if g0.edge(b, c) {
                assert(g0.has(c));
            }
        } else {
            assert(g0.edge(a, c) && g0.edge(b, c));
        }
    }
    assert forall|a: nat| #[trigger] g2.kids(a).no_duplicates() by {
        if a == p {
            assert(g0.kids(a).no_duplicates());
            if g0.kids(a).contains(n) {
                assert(g0.edge(a, n));
            }
            let s = g0.kids(a).push(n);
            assert forall|i: int, j: int| 0 <= i < s.len() && 0 <= j < s.len() && i != j implies s[i] != s[j] by {
                if i < s.len() - 1 && j < s.len() - 1 {
                } else if i == s.len() - 1 {
                    assert(g0.kids(a)[j] == s[j]);
                } else {
                    assert(g0.kids(a)[i] == s[i]);
                }
            }
            assert(g2.kids(a) == s);
        } else if a == n {
            assert(g2.kids(a) == Seq::<nat>::empty());
        } else {
            assert(g2.kids(a) == g0.kids(a));
        }
    }
    assert forall|a: nat| !#[trigger] g2.edge(a, root) by {
        assert(!g0.edge(a, root));
    }
    assert forall|v: nat| #[trigger] g2.has(v) implies g2.reaches(root, v) by {
        if v == n {
            assert(g0.reaches(root, p));
            let q = choose|q: Seq<nat>| #[trigger] g0.is_path(q) && q[0] == root && q.last() == p;
            lemma_path_in_larger(g0, g2, q);
            assert(g2.reaches(root, p));
            lemma_reaches_step(g2, root, p, n);
        } else {
            assert(g0.has(v));
            assert(g0.reaches(root, v));
            let q = choose|q: Seq<nat>| #[trigger] g0.is_path(q) && q[0] == root && q.last() == v;
            lemma_path_in_larger(g0, g2, q);
            assert(g2.is_path(q));
        }
    }
}

} // verus!
