//! A searcher over the possible source code space for finding a minimal
//! reproduction of an error.
//!
//! The search works as a state machine that the caller drives:
//!
//! 1. The caller builds the project and hands the errors to `seed`; the first
//!    one is the master error, and its file is the one to reduce.
//! 2. The caller parses that file, builds its syntax tree and starts a
//!    `Reduction` on it. The candidates are the vertices in breadth-first order
//!    from the root, the root excluded.
//! 3. `next_candidate` picks the next candidate not yet skipped, deletes its
//!    subtree from a copy of the current graph and returns the regenerated file.
//!    The caller prints and writes it, builds again and hands the errors to
//!    `record_outcome`, which keeps the copy when the first error has the
//!    master's signature.
//! 4. When no candidate is left, `finish` regenerates the reduced file.
use crate::builder::{same_signature, BuildError, BuildErros, CodeBuilder, CodeBuilderError};
use crate::digraph::{is_bfs_order, is_search_order, vertex_set, GraphView, SyntaxGraph};
use crate::generator::{regenerable, regenerated_file, CodeGenerator, CodeGeneratorError};
use crate::graph::{payloads_fit, SyntaxTree};
use crate::remover::{lemma_removal_keeps_tree, NodeRemover};
use std::collections::HashSet;
use vstd::prelude::*;

verus! {

pub enum Target {
    /// The project in this directory.
    Path(String),
}

impl CodeBuilder {
    /// The code builder for a search target.
    pub fn from(value: Target) -> (r: CodeBuilder)
        ensures
            match (value, r) {
                (Target::Path(a), CodeBuilder::Path(b)) => a == b,
            },
    {
        match value {
            Target::Path(p) => CodeBuilder::Path(p),
        }
    }
}

/// A search for a minimal reproduction, run to its end.
pub trait Search {
    fn search(self) -> Result<(), SearcherError>;
}

pub struct ASTGuidedSearcher {
    pub target: Target,
}

impl ASTGuidedSearcher {
    pub fn new(target: Target) -> (r: Self)
        ensures
            r.target == target,
    {
        ASTGuidedSearcher { target }
    }
}

#[derive(Debug)]
pub enum SearcherError {
    BuildOperationError(CodeBuilderError),
    /// The master error names no file; holds its first line.
    ErrorSourceFileIsMissing(String),
    /// The master error's file could not be read; holds its path.
    ErrorSourceFileNotFound(String),
    /// The master error's file does not parse; holds syn's message.
    ErrorSourceFileNotParsed(String),
    /// The syntax tree has no root vertex.
    RootNodeFound,
    /// The reduced tree could not be turned back into source text.
    RegenerationFailed(CodeGeneratorError),
}

/// The master error of a build: `None` when it reported no error, the first
/// record when that one names a file, and `ErrorSourceFileIsMissing` with its
/// first line when it does not.
pub fn seed(errors: BuildErros) -> (r: Result<Option<BuildError>, SearcherError>)
    ensures
        errors.errors@.len() == 0 ==> r matches Ok(None),
        errors.errors@.len() > 0 && errors.errors@[0].source_file is Some ==> (r matches Ok(
            Some(e),
        ) && e == errors.errors@[0]),
        errors.errors@.len() > 0 && errors.errors@[0].source_file is None ==> (r matches Err(
            SearcherError::ErrorSourceFileIsMissing(src),
        ) && src == errors.errors@[0].error_src),
{
    let mut errors = errors.errors;
    if errors.len() == 0 {
        return Ok(None);
    }
    let first = errors.swap_remove(0);
    if first.source_file.is_none() {
        return Err(SearcherError::ErrorSourceFileIsMissing(first.error_src));
    }
    Ok(Some(first))
}

/// `g` without `v` and every vertex reachable from it.
pub open spec fn without_subtree(g: GraphView, v: nat) -> GraphView {
    g.without(Set::new(|n: nat| g.reaches(v, n)))
}

/// A deletion under trial: the vertex, the graph without its subtree, and the
/// vertices deleted.
pub struct Candidate {
    pub vertex: usize,
    pub graph: SyntaxGraph,
    pub removed: Vec<usize>,
}

/// The state of a reduction.
pub struct Reduction {
    /// The current (master) tree: accepted deletions are applied to it.
    pub tree: SyntaxTree,
    /// The root vertex.
    pub root: usize,
    /// The error that every accepted variant must reproduce.
    pub master_error: BuildError,
    /// The vertices of the starting tree in breadth-first order, root excluded.
    pub frontier: Vec<usize>,
    /// The position in `frontier` of the next vertex to try.
    pub next: usize,
    /// Vertices already tried, or deleted by an accepted candidate.
    pub skip: HashSet<usize>,
    /// The candidate whose build outcome is awaited.
    pub pending: Option<Candidate>,
    pub generator: CodeGenerator,
}

impl Reduction {
    /// Trying `v` is of no use: it was skipped already, or the current tree
    /// without `v`'s subtree cannot be regenerated.
    pub open spec fn passed_over(&self, skip: Set<usize>, v: usize) -> bool {
        skip.contains(v) || !regenerable(
            without_subtree(self.tree.graph@, v as nat),
            self.tree.nodes@,
            self.root as nat,
        )
    }

    pub open spec fn wf(&self) -> bool {
        &&& self.tree.wf()
        &&& self.tree.root_node == Some(self.root)
        &&& self.next <= self.frontier@.len()
        &&& self.frontier@.no_duplicates()
        &&& forall|j: int| 0 <= j < self.frontier@.len() ==> #[trigger] self.frontier@[j] != self.root
        &&& forall|j: int|
            0 <= j < self.frontier@.len() && !self.skip@.contains(#[trigger] self.frontier@[j])
                ==> self.tree.graph@.has(self.frontier@[j] as nat)
        &&& match self.pending {
            None => true,
            Some(c) => {
                &&& self.tree.graph@.has(c.vertex as nat)
                &&& c.vertex != self.root
                &&& is_search_order(self.tree.graph@, c.vertex as nat, c.removed@)
                &&& c.graph@ == self.tree.graph@.without(vertex_set(c.removed@))
            },
        }
    }

    /// Starts a reduction of `tree` that keeps `master_error`. The candidates
    /// are the tree's vertices in breadth-first order from the root, without
    /// the root; nothing is skipped yet.
    pub fn new(tree: SyntaxTree, master_error: BuildError) -> (r: Result<Self, SearcherError>)
        requires
            tree.wf(),
        ensures
            tree.root_node is None ==> r matches Err(SearcherError::RootNodeFound),
            tree.root_node is Some ==> (r matches Ok(s) && s.wf() && s.tree == tree && s.root
                == tree.root_node->Some_0 && s.master_error == master_error && s.next == 0
                && s.skip@ == Set::<usize>::empty() && s.pending is None && is_bfs_order(
                tree.graph@,
                s.root as nat,
                seq![s.root].add(s.frontier@),
            ) && s.frontier@.len() + 1 == tree.graph@.nodes.dom().len()),
    {
        let root = match tree.root_node {
            Some(r) => r,
            None => {
                return Err(SearcherError::RootNodeFound);
            },
        };
        assert((root as nat) < tree.graph@.slots);
        let order = tree.graph.search_order(root);
        let mut frontier: Vec<usize> = Vec::new();
        let mut k: usize = 1;
        while k < order.len()
            invariant
                1 <= k <= order@.len(),
                frontier@ == order@.subrange(1, k as int),
            decreases order.len() - k,
        {
            frontier.push(order[k]);
            k += 1;
            assert(frontier@ =~= order@.subrange(1, k as int));
        }
        proof {
            assert(seq![root].add(frontier@) =~= order@);
            assert forall|j: int| 0 <= j < frontier@.len() implies #[trigger] frontier@[j] != root by {
                assert(frontier@[j] == order@[j + 1]);
            }
            assert(frontier@.no_duplicates()) by {
                assert forall|a: int, b: int| 0 <= a < frontier@.len() && 0 <= b < frontier@.len() && a != b implies frontier@[a] != frontier@[b] by {
                    assert(frontier@[a] == order@[a + 1] && frontier@[b] == order@[b + 1]);
                }
            }
            assert forall|j: int| 0 <= j < frontier@.len() implies tree.graph@.has(#[trigger] frontier@[j] as nat) by {
                assert(frontier@[j] == order@[j + 1]);
            }
            crate::digraph::lemma_order_is_reach_set(tree.graph@, root as nat, order@);
            assert(vertex_set(order@) =~= tree.graph@.nodes.dom()) by {
                assert forall|n: nat| #[trigger] tree.graph@.nodes.dom().contains(n) implies vertex_set(order@).contains(n) by {
                    assert(tree.graph@.has(n));
                }
            }
            lemma_vertex_set_len(order@);
        }
        Ok(Reduction {
            tree,
            root,
            master_error,
            frontier,
            next: 0,
            skip: HashSet::new(),
            pending: None,
            generator: CodeGenerator::new(),
        })
    }

    /// Picks the next candidate: the first vertex of the frontier from `next`
    /// on that is not skipped and whose deletion regenerates. Every vertex it
    /// looks at joins `skip`. Returns the regenerated file of the current graph
    /// without the candidate's subtree, or `None` when the frontier is done.
    pub fn next_candidate(&mut self) -> (r: Option<syn::File>)
        requires
            old(self).wf(),
        ensures
            final(self).wf(),
            final(self).tree == old(self).tree,
            final(self).root == old(self).root,
            final(self).frontier == old(self).frontier,
            final(self).master_error == old(self).master_error,
            old(self).next <= final(self).next <= old(self).frontier@.len(),
            old(self).skip@.subset_of(final(self).skip@),
            forall|j: int|
                old(self).next <= j < final(self).next ==> final(self).skip@.contains(
                    #[trigger] old(self).frontier@[j],
                ),
            forall|u: usize| #[trigger]
                final(self).skip@.contains(u) ==> old(self).skip@.contains(u) || exists|j: int|
                    old(self).next <= j < final(self).next && old(self).frontier@[j] == u,
            r is None ==> final(self).next == old(self).frontier@.len() && final(self).pending is None
                && forall|j: int|
                old(self).next <= j < final(self).next ==> old(self).passed_over(
                    old(self).skip@,
                    #[trigger] old(self).frontier@[j],
                ),
            r is Some ==> ({
                let c = final(self).pending->Some_0;
                &&& final(self).pending is Some
                &&& final(self).next > old(self).next
                &&& c.vertex == old(self).frontier@[final(self).next - 1]
                &&& !old(self).skip@.contains(c.vertex)
                &&& c.graph@ == without_subtree(old(self).tree.graph@, c.vertex as nat)
                &&& regenerable(c.graph@, final(self).tree.nodes@, final(self).root as nat)
                &&& regenerated_file(c.graph@, final(self).tree.nodes@, final(self).root as nat, r->Some_0)
                &&& forall|j: int|
                    old(self).next <= j < final(self).next - 1 ==> old(self).passed_over(
                        old(self).skip@,
                        #[trigger] old(self).frontier@[j],
                    )
            }),
    {
        broadcast use vstd::std_specs::hash::group_hash_axioms;

        self.pending = None;
        let ghost skip0 = self.skip@;
        let ghost next0 = self.next;
        while self.next < self.frontier.len()
            invariant
                self.wf(),
                self.tree == old(self).tree,
                self.root == old(self).root,
                self.frontier == old(self).frontier,
                self.master_error == old(self).master_error,
                self.pending is None,
                skip0 == old(self).skip@,
                next0 == old(self).next,
                next0 <= self.next <= self.frontier@.len(),
                skip0.subset_of(self.skip@),
                forall|j: int| next0 <= j < self.next ==> self.skip@.contains(#[trigger] self.frontier@[j]),
                forall|j: int| next0 <= j < self.next ==> old(self).passed_over(skip0, #[trigger] self.frontier@[j]),
                forall|u: usize| #[trigger] self.skip@.contains(u) ==> skip0.contains(u) || exists|j: int|
                    next0 <= j < self.next && self.frontier@[j] == u,
            decreases self.frontier.len() - self.next,
        {
            let v = self.frontier[self.next];
            let ghost at = self.next as int;
            self.next = self.next + 1;
            if self.skip.contains(&v) {
                proof {
                    assert(self.frontier@[at] == v);
                }
                continue;
            }
            self.skip.insert(v);
            let ghost g = self.tree.graph@;
            proof {
                assert(!skip0.contains(v));
                assert(g.has(v as nat));
            }
            let mut candidate = self.tree.graph.duplicate();
            let removed = NodeRemover::remove_node(&mut candidate, v);
            proof {
                lemma_removal_keeps_tree(g, self.root as nat, v as nat, removed@);
                lemma_fit_after_removal(g, self.tree.nodes@, vertex_set(removed@));
                assert(vertex_set(removed@) =~= Set::new(|n: nat| g.reaches(v as nat, n)));
                assert(candidate@ == without_subtree(g, v as nat));
                assert(g == old(self).tree.graph@);
            }
            match self.generator.generate_file(&candidate, &self.tree.nodes, self.root) {
                Ok(file) => {
                    self.pending = Some(Candidate { vertex: v, graph: candidate, removed });
                    proof {
                        assert(self.frontier@[at] == v);
                    }
                    return Some(file);
                },
                Err(_) => {
                    proof {
                        assert(self.frontier@[at] == v);
                        assert(old(self).passed_over(skip0, v));
                    }
                },
            }
        }
        None
    }

    /// Takes the build outcome of the pending candidate: it is accepted when
    /// the first error has the master error's signature, and then its graph
    /// becomes the current one and its deleted vertices join `skip`. Returns
    /// whether it was accepted; with no candidate pending nothing changes.
    #[verifier::loop_isolation(false)]
    pub fn record_outcome(&mut self, variant: &BuildErros) -> (accepted: bool)
        requires
            old(self).wf(),
        ensures
            final(self).wf(),
            final(self).pending is None,
            final(self).root == old(self).root,
            final(self).frontier == old(self).frontier,
            final(self).next == old(self).next,
            final(self).master_error == old(self).master_error,
            final(self).tree.nodes == old(self).tree.nodes,
            old(self).skip@.subset_of(final(self).skip@),
            accepted <==> old(self).pending is Some && variant.errors@.len() > 0 && same_signature(
                variant.errors@[0]@,
                old(self).master_error@,
            ),
            accepted ==> final(self).tree.graph@ == old(self).pending->Some_0.graph@
                && forall|j: int|
                0 <= j < old(self).pending->Some_0.removed@.len() ==> final(self).skip@.contains(
                    #[trigger] old(self).pending->Some_0.removed@[j],
                ),
            !accepted ==> final(self).tree == old(self).tree && final(self).skip@ == old(
                self,
            ).skip@,
    {
        broadcast use vstd::std_specs::hash::group_hash_axioms;

        let pending = self.pending.take();
        let c = match pending {
            Some(c) => c,
            None => {
                return false;
            },
        };
        if variant.errors.len() == 0 {
            return false;
        }
        if !variant.errors[0].same_signature(&self.master_error) {
            return false;
        }
        let ghost g = self.tree.graph@;
        let ghost skip0 = self.skip@;
        assert(g == old(self).tree.graph@ && skip0 == old(self).skip@);
        proof {
            lemma_removal_keeps_tree(g, self.root as nat, c.vertex as nat, c.removed@);
            lemma_fit_after_removal(g, self.tree.nodes@, vertex_set(c.removed@));
        }
        let mut k: usize = 0;
        while k < c.removed.len()
            invariant
                0 <= k <= c.removed@.len(),
                self.frontier == old(self).frontier,
                self.tree == old(self).tree,
                self.root == old(self).root,
                self.next == old(self).next,
                self.master_error == old(self).master_error,
                self.pending is None,
                skip0.subset_of(self.skip@),
                forall|j: int| 0 <= j < k ==> self.skip@.contains(#[trigger] c.removed@[j]),
                forall|u: usize| #[trigger] self.skip@.contains(u) ==> skip0.contains(u) || exists|j: int| 0 <= j < k && c.removed@[j] == u,
            decreases c.removed.len() - k,
        {
            self.skip.insert(c.removed[k]);
            k += 1;
        }
        self.tree.graph = c.graph;
        proof {
            let h = self.tree.graph@;
            assert forall|j: int|
                0 <= j < self.frontier@.len() && !self.skip@.contains(#[trigger] self.frontier@[j]) implies h.has(
                self.frontier@[j] as nat) by {
                let u = self.frontier@[j];
                assert(!skip0.contains(u));
                assert(old(self).frontier@[j] == u);
                assert(!old(self).skip@.contains(old(self).frontier@[j]));
                assert(g.has(u as nat));
                if vertex_set(c.removed@).contains(u as nat) {
                    let i = choose|i: int| 0 <= i < c.removed@.len() && c.removed@[i] as nat == u as nat;
                    assert(c.removed@[i] == u);
                }
            }
        }
        true
    }

    /// The syn file that the current tree rebuilds into.
    pub fn finish(&mut self) -> (r: Result<syn::File, CodeGeneratorError>)
        requires
            old(self).wf(),
        ensures
            final(self).wf(),
            final(self).tree == old(self).tree,
            r is Ok <==> regenerable(old(self).tree.graph@, old(self).tree.nodes@, old(self).root as nat),
            r matches Ok(f) ==> regenerated_file(
                old(self).tree.graph@,
                old(self).tree.nodes@,
                old(self).root as nat,
                f,
            ),
    {
        self.generator.generate_file(&self.tree.graph, &self.tree.nodes, self.root)
    }
}

/// A list without repeats names as many vertices as it is long.
proof fn lemma_vertex_set_len(s: Seq<usize>)
    requires
        s.no_duplicates(),
    ensures
        vertex_set(s).finite(),
        vertex_set(s).len() == s.len(),
    decreases s.len(),
{
    if s.len() == 0 {
        assert(vertex_set(s) =~= Set::<nat>::empty());
    } else {
        let p = s.drop_last();
        assert(p.no_duplicates()) by {
            assert forall|a: int, b: int| 0 <= a < p.len() && 0 <= b < p.len() && a != b implies p[a] != p[b] by {
                assert(p[a] == s[a] && p[b] == s[b]);
            }
        }
        lemma_vertex_set_len(p);
        let x = s.last() as nat;
        assert forall|n: nat| #[trigger] vertex_set(s).contains(n) <==> vertex_set(p).insert(x).contains(n) by {
            if vertex_set(s).contains(n) {
                let i = choose|i: int| 0 <= i < s.len() && s[i] as nat == n;
                if i < p.len() {
                    assert(p[i] == s[i]);
                }
            }
            if vertex_set(p).contains(n) {
                let i = choose|i: int| 0 <= i < p.len() && p[i] as nat == n;
                assert(s[i] == p[i]);
            }
            if n == x {
                assert(s[s.len() - 1] as nat == n);
            }
        }
        assert(vertex_set(s) =~= vertex_set(p).insert(x));
        if vertex_set(p).contains(x) {
            let i = choose|i: int| 0 <= i < p.len() && p[i] as nat == x;
            assert(s[i] == s[s.len() - 1]);
        }
    }
}

/// Deleting vertices keeps every remaining vertex pointing into the payloads.
proof fn lemma_fit_after_removal(g: GraphView, nodes: Seq<crate::parser::AstNode>, gone: Set<nat>)
    requires
        g.sound(),
        payloads_fit(g, nodes),
    ensures
        payloads_fit(g.without(gone), nodes),
        forall|v: nat| #[trigger] g.without(gone).has(v) ==> g.without(gone).nodes[v] == g.nodes[v],
{
    crate::digraph::lemma_without_sound(g, gone);
    assert forall|v: nat| #[trigger] g.without(gone).has(v) implies (g.without(gone).nodes[v] as int) < nodes.len() by {
        assert(g.has(v));
    }
}

} // verus!
