//! Code regeneration: rebuilds a source file from what is left of a syntax graph.
//!
//! `CodeGenerator::plan` walks the graph from the root in reversed breadth-first
//! order, so that every vertex is handled after its children, and records in a
//! side table what each vertex rebuilds into: a plain shape made of vertex ids.
//! `CodeGenerator::generate` then turns the shape of the file into syn values
//! taken from the payload table and pretty-prints them.
use crate::digraph::{
    entered_earlier, is_search_order, lemma_order_is_reach_set, lemma_order_reached,
    lemma_reaches_self, lemma_reaches_step, vertex_set, GraphView, SyntaxGraph, INDEX_END,
};
use crate::graph::{kind_at, kind_in, payloads_fit};
use crate::parser::{file_attrs, file_of, file_of_parts, AstNode, NodeKind};
use std::collections::HashMap;
use vstd::prelude::*;

verus! {

/// A block rebuilt from vertex `block`, holding the statement vertices `stmts`.
pub struct BlockShape {
    pub block: usize,
    pub stmts: Vec<usize>,
}

/// A function rebuilt from vertex `function`, with `body` or, if none is left,
/// an empty block.
pub struct FnShape {
    pub function: usize,
    pub body: Option<BlockShape>,
}

/// An item rebuilt from vertex `item`, wrapping a function.
pub struct ItemShape {
    pub item: usize,
    pub function: FnShape,
}

/// A file rebuilt from root vertex `root`, holding `items` in edge order.
pub struct FileShape {
    pub root: usize,
    pub items: Vec<ItemShape>,
}

/// What a vertex rebuilds into.
pub enum GeneratedASTNode {
    SourceRoot(FileShape),
    Item(ItemShape),
    ItemFn(FnShape),
    Block(BlockShape),
    LocalStmt(usize),
    ExprArray(usize),
    ExprAssign(usize),
    ExprLet(usize),
}

#[derive(Debug, PartialEq, Eq)]
pub enum CodeGeneratorError {
    /// The root index is not a vertex of the graph.
    RootNodeMissingInSyntaxTree,
    /// The root vertex is not a source root.
    FileNotGeneratedFromTree,
    /// A vertex of the first kind stood where the second was needed.
    MismatchedASTConversion(String, String),
    /// A child of the root does not rebuild into an item.
    SourceRootDoesNotHaveItemChild,
}

// ---------------------------------------------------------------------------
// What regeneration produces, stated over the graph.

pub open spec fn nats(s: Seq<usize>) -> Seq<nat> {
    s.map_values(|x: usize| x as nat)
}

/// Position `j` holds the first vertex of kind `k` in `s`.
pub open spec fn is_first_of_kind(
    g: GraphView,
    ns: Seq<AstNode>,
    s: Seq<nat>,
    k: NodeKind,
    j: int,
) -> bool {
    &&& 0 <= j < s.len()
    &&& kind_in(g, ns, s[j]) == k
    &&& forall|l: int| 0 <= l < j ==> kind_in(g, ns, #[trigger] s[l]) != k
}

/// Position `j` holds the last vertex of kind `k` in `s.take(end)`.
pub open spec fn is_last_of_kind_before(
    g: GraphView,
    ns: Seq<AstNode>,
    s: Seq<nat>,
    k: NodeKind,
    j: int,
    end: int,
) -> bool {
    &&& 0 <= j < end <= s.len()
    &&& kind_in(g, ns, s[j]) == k
    &&& forall|l: int| j < l < end ==> kind_in(g, ns, #[trigger] s[l]) != k
}

/// Some vertex of `s` has kind `k`.
pub open spec fn has_kind(g: GraphView, ns: Seq<AstNode>, s: Seq<nat>, k: NodeKind) -> bool {
    exists|j: int| 0 <= j < s.len() && kind_in(g, ns, #[trigger] s[j]) == k
}

/// `s` is block `b` with all of its children, in edge order, as statements.
pub open spec fn block_rebuilt(g: GraphView, b: nat, s: BlockShape) -> bool {
    &&& s.block as nat == b
    &&& nats(s.stmts@) == g.kids(b)
}

/// `s` is function `f` whose body is its last child block, if it has one
/// (blocks inside the signature come before the body).
pub open spec fn fn_rebuilt(g: GraphView, ns: Seq<AstNode>, f: nat, s: FnShape) -> bool {
    &&& s.function as nat == f
    &&& match s.body {
        Some(bs) => exists|j: int|
            is_last_of_kind_before(g, ns, g.kids(f), NodeKind::Block, j, g.kids(f).len() as int) && #[trigger] block_rebuilt(
                g,
                g.kids(f)[j],
                bs,
            ),
        None => !has_kind(g, ns, g.kids(f), NodeKind::Block),
    }
}

/// `s` is item `i` wrapping its first child function.
pub open spec fn item_rebuilt(g: GraphView, ns: Seq<AstNode>, i: nat, s: ItemShape) -> bool {
    &&& s.item as nat == i
    &&& exists|j: int|
        is_first_of_kind(g, ns, g.kids(i), NodeKind::ItemFn, j) && #[trigger] fn_rebuilt(
            g,
            ns,
            g.kids(i)[j],
            s.function,
        )
}

/// `s` is the file under `root`, with one item for each child of the root.
pub open spec fn file_rebuilt(g: GraphView, ns: Seq<AstNode>, root: nat, s: FileShape) -> bool {
    &&& s.root as nat == root
    &&& s.items@.len() == g.kids(root).len()
    &&& forall|k: int|
        0 <= k < s.items@.len() ==> #[trigger] item_rebuilt(g, ns, g.kids(root)[k], s.items@[k])
}

/// Every child of block `b` is of a statement kind.
pub open spec fn block_holds_statements(g: GraphView, ns: Seq<AstNode>, b: nat) -> bool {
    forall|j: int| 0 <= j < g.kids(b).len() ==> kind_in(g, ns, #[trigger] g.kids(b)[j]).is_statement()
}

/// Every block reachable from `root` holds statements only.
pub open spec fn blocks_hold_statements(g: GraphView, ns: Seq<AstNode>, root: nat) -> bool {
    forall|b: nat|
        g.reaches(root, b) && kind_in(g, ns, b) == NodeKind::Block ==> #[trigger] block_holds_statements(
            g,
            ns,
            b,
        )
}

/// Vertex `c` is an item with a function child.
pub open spec fn item_regenerable(g: GraphView, ns: Seq<AstNode>, c: nat) -> bool {
    kind_in(g, ns, c) == NodeKind::Item && has_kind(g, ns, g.kids(c), NodeKind::ItemFn)
}

/// Every child of the root is an item with a function child.
pub open spec fn root_holds_items(g: GraphView, ns: Seq<AstNode>, root: nat) -> bool {
    forall|j: int| 0 <= j < g.kids(root).len() ==> #[trigger] item_regenerable(g, ns, g.kids(root)[j])
}

/// The graph under `root` can be regenerated into a file.
pub open spec fn regenerable(g: GraphView, ns: Seq<AstNode>, root: nat) -> bool {
    &&& g.has(root)
    &&& kind_in(g, ns, root) == NodeKind::SourceRoot
    &&& blocks_hold_statements(g, ns, root)
    &&& root_holds_items(g, ns, root)
}

/// What the graph needs for regeneration to be defined: sound, pointing into
/// the payload table, no vertex with two parents or two edges from its parent.
pub open spec fn plannable(g: GraphView, ns: Seq<AstNode>) -> bool {
    &&& g.sound()
    &&& payloads_fit(g, ns)
    &&& g.single_parent()
    &&& forall|a: nat| #[trigger] g.kids(a).no_duplicates()
}

/// The outcome of regeneration: `Ok` exactly when the graph is regenerable;
/// otherwise the error names the first rule broken, in the order: root present,
/// root a source root, blocks holding statements, root children being items.
pub open spec fn plan_outcome(
    g: GraphView,
    ns: Seq<AstNode>,
    root: nat,
    r: Result<FileShape, CodeGeneratorError>,
) -> bool {
    if !g.has(root) {
        r == Err::<FileShape, CodeGeneratorError>(CodeGeneratorError::RootNodeMissingInSyntaxTree)
    } else if kind_in(g, ns, root) != NodeKind::SourceRoot {
        r == Err::<FileShape, CodeGeneratorError>(CodeGeneratorError::FileNotGeneratedFromTree)
    } else if !blocks_hold_statements(g, ns, root) {
        match r {
            Err(CodeGeneratorError::MismatchedASTConversion(found, wanted)) => {
                &&& wanted@ == statement_word()
                &&& found@ == mismatched_kind(g, ns, root).spec_name()
            },
            _ => false,
        }
    } else if !root_holds_items(g, ns, root) {
        r == Err::<FileShape, CodeGeneratorError>(CodeGeneratorError::SourceRootDoesNotHaveItemChild)
    } else {
        match r {
            Ok(s) => file_rebuilt(g, ns, root, s),
            Err(_) => false,
        }
    }
}

/// Some block reachable from `root` has a child of kind `k`.
pub open spec fn block_holds_kind(g: GraphView, ns: Seq<AstNode>, root: nat, k: NodeKind) -> bool {
    exists|b: nat, j: int|
        #![trigger g.kids(b)[j], kind_in(g, ns, b)]
        g.reaches(root, b) && kind_in(g, ns, b) == NodeKind::Block && 0 <= j < g.kids(b).len()
            && kind_in(g, ns, g.kids(b)[j]) == k
}

/// The kind that a mismatch in a block names: the first of source root, item,
/// function and block that some reachable block holds as a child.
pub open spec fn mismatched_kind(g: GraphView, ns: Seq<AstNode>, root: nat) -> NodeKind {
    if block_holds_kind(g, ns, root, NodeKind::SourceRoot) {
        NodeKind::SourceRoot
    } else if block_holds_kind(g, ns, root, NodeKind::Item) {
        NodeKind::Item
    } else if block_holds_kind(g, ns, root, NodeKind::ItemFn) {
        NodeKind::ItemFn
    } else {
        NodeKind::Block
    }
}

/// Some block among the first `i` vertices of `order` has a child of kind `k`.
pub open spec fn holds_kind_upto(g: GraphView, ns: Seq<AstNode>, order: Seq<usize>, i: int, k: NodeKind) -> bool {
    exists|p: int, j: int|
        #![trigger order[p], g.kids(order[p] as nat)[j]]
        0 <= p < i && kind_in(g, ns, order[p] as nat) == NodeKind::Block && 0 <= j < g.kids(
            order[p] as nat,
        ).len() && kind_in(g, ns, g.kids(order[p] as nat)[j]) == k
}

/// Whether some block listed in `order` has a child of kind `k`.
#[verifier::loop_isolation(false)]
fn blocks_hold_kind(graph: &SyntaxGraph, nodes: &Vec<AstNode>, order: &Vec<usize>, k: NodeKind) -> (r: bool)
    requires
        graph@.sound(),
        payloads_fit(graph@, nodes@),
        forall|i: int| 0 <= i < order@.len() ==> graph@.has(#[trigger] order@[i] as nat),
    ensures
        r == holds_kind_upto(graph@, nodes@, order@, order@.len() as int, k),
{
    let ghost g = graph@;
    let ghost ns = nodes@;
    let mut i: usize = 0;
    while i < order.len()
        invariant
            0 <= i <= order@.len(),
            g == graph@,
            ns == nodes@,
            graph@.sound(),
            payloads_fit(graph@, nodes@),
            forall|q: int| 0 <= q < order@.len() ==> graph@.has(#[trigger] order@[q] as nat),
            !holds_kind_upto(g, ns, order@, i as int, k),
        decreases order.len() - i,
    {
        let v = order[i];
        assert(g.has(order@[i as int] as nat));
        if kind_at(graph, nodes, v) == NodeKind::Block {
            let kids = graph.targets(v);
            let mut j: usize = 0;
            while j < kids.len()
                invariant
                    0 <= j <= kids@.len(),
                    kids@.len() == g.kids(v as nat).len(),
                    forall|l: int| 0 <= l < kids@.len() ==> #[trigger] kids@[l] as nat == g.kids(v as nat)[l],
                    forall|l: int| 0 <= l < j ==> kind_in(g, ns, #[trigger] g.kids(v as nat)[l]) != k,
                decreases kids.len() - j,
            {
                assert(kids@[j as int] as nat == g.kids(v as nat)[j as int]);
                assert(g.edge(v as nat, g.kids(v as nat)[j as int]));
                if kind_at(graph, nodes, kids[j]) == k {
                    proof {
                        assert(order@[i as int] == v);
                        assert(g.kids(order@[i as int] as nat)[j as int] == g.kids(v as nat)[j as int]);
                    }
                    return true;
                }
                j += 1;
            }
            proof {
                assert forall|p: int, jj: int|
                    0 <= p < i + 1 && kind_in(g, ns, #[trigger] order@[p] as nat) == NodeKind::Block && 0 <= jj
                        < g.kids(order@[p] as nat).len() implies kind_in(g, ns, #[trigger] g.kids(order@[p] as nat)[jj]) != k by {
                    if p < i {
                        if kind_in(g, ns, g.kids(order@[p] as nat)[jj]) == k {
                            assert(holds_kind_upto(g, ns, order@, i as int, k));
                        }
                    } else {
                        assert(order@[p] == v);
                    }
                }
            }
        } else {
            proof {
                assert forall|p: int, jj: int|
                    0 <= p < i + 1 && kind_in(g, ns, #[trigger] order@[p] as nat) == NodeKind::Block && 0 <= jj
                        < g.kids(order@[p] as nat).len() implies kind_in(g, ns, #[trigger] g.kids(order@[p] as nat)[jj]) != k by {
                    if p < i {
                        if kind_in(g, ns, g.kids(order@[p] as nat)[jj]) == k {
                            assert(holds_kind_upto(g, ns, order@, i as int, k));
                        }
                    } else {
                        assert(order@[p] == v);
                    }
                }
            }
        }
        i += 1;
    }
    false
}

/// In a search order from `root`, the blocks listed are the reachable ones.
proof fn lemma_holds_kind_order(g: GraphView, ns: Seq<AstNode>, root: nat, order: Seq<usize>, k: NodeKind)
    requires
        g.sound(),
        is_search_order(g, root, order),
    ensures
        holds_kind_upto(g, ns, order, order.len() as int, k) == block_holds_kind(g, ns, root, k),
{
    lemma_order_is_reach_set(g, root, order);
    if holds_kind_upto(g, ns, order, order.len() as int, k) {
        let (p, j) = choose|p: int, j: int|
            #![trigger order[p], g.kids(order[p] as nat)[j]]
            0 <= p < order.len() && kind_in(g, ns, order[p] as nat) == NodeKind::Block && 0 <= j < g.kids(
                order[p] as nat,
            ).len() && kind_in(g, ns, g.kids(order[p] as nat)[j]) == k;
        lemma_order_reached(g, root, order, p);
        let b = order[p] as nat;
        assert(g.kids(b)[j] == g.kids(order[p] as nat)[j]);
    }
    if block_holds_kind(g, ns, root, k) {
        let (b, j) = choose|b: nat, j: int|
            #![trigger g.kids(b)[j], kind_in(g, ns, b)]
            g.reaches(root, b) && kind_in(g, ns, b) == NodeKind::Block && 0 <= j < g.kids(b).len()
                && kind_in(g, ns, g.kids(b)[j]) == k;
        assert(vertex_set(order).contains(b));
        let p = choose|p: int| 0 <= p < order.len() && order[p] as nat == b;
        assert(g.kids(order[p] as nat)[j] == g.kids(b)[j]);
    }
}

/// A block holding only statements holds none of the other kinds, and back.
proof fn lemma_statements_or_kind(g: GraphView, ns: Seq<AstNode>, root: nat)
    ensures
        blocks_hold_statements(g, ns, root) <==> !block_holds_kind(g, ns, root, NodeKind::SourceRoot)
            && !block_holds_kind(g, ns, root, NodeKind::Item) && !block_holds_kind(g, ns, root, NodeKind::ItemFn)
            && !block_holds_kind(g, ns, root, NodeKind::Block),
{
    if !blocks_hold_statements(g, ns, root) {
        let b = choose|b: nat| !(g.reaches(root, b) && kind_in(g, ns, b) == NodeKind::Block ==> #[trigger] block_holds_statements(g, ns, b));
        let j = choose|j: int| !(0 <= j < g.kids(b).len() ==> kind_in(g, ns, #[trigger] g.kids(b)[j]).is_statement());
        let k = kind_in(g, ns, g.kids(b)[j]);
        assert(g.reaches(root, b) && kind_in(g, ns, b) == NodeKind::Block);
        assert(0 <= j < g.kids(b).len() && !k.is_statement());
        assert(block_holds_kind(g, ns, root, k));
        match k {
            NodeKind::SourceRoot => {},
            NodeKind::Item => {},
            NodeKind::ItemFn => {},
            NodeKind::Block => {},
            _ => { assert(k.is_statement()); },
        }
    }
    if blocks_hold_statements(g, ns, root) {
        lemma_no_kind(g, ns, root, NodeKind::SourceRoot);
        lemma_no_kind(g, ns, root, NodeKind::Item);
        lemma_no_kind(g, ns, root, NodeKind::ItemFn);
        lemma_no_kind(g, ns, root, NodeKind::Block);
    }
}

proof fn lemma_no_kind(g: GraphView, ns: Seq<AstNode>, root: nat, k: NodeKind)
    requires
        blocks_hold_statements(g, ns, root),
        !k.is_statement(),
    ensures
        !block_holds_kind(g, ns, root, k),
{
    if block_holds_kind(g, ns, root, k) {
        let (b, j) = choose|b: nat, j: int|
            #![trigger g.kids(b)[j], kind_in(g, ns, b)]
            g.reaches(root, b) && kind_in(g, ns, b) == NodeKind::Block && 0 <= j < g.kids(b).len()
                && kind_in(g, ns, g.kids(b)[j]) == k;
        assert(block_holds_statements(g, ns, b));
    }
}

pub open spec fn statement_word() -> Seq<char> {
    "stmt"@
}

// ---------------------------------------------------------------------------
// The side table during the walk.

/// `e` is what vertex `u` rebuilds into.
pub open spec fn entry_rebuilt(g: GraphView, ns: Seq<AstNode>, u: nat, e: GeneratedASTNode) -> bool {
    match e {
        GeneratedASTNode::SourceRoot(_) => false,
        GeneratedASTNode::Item(s) => kind_in(g, ns, u) == NodeKind::Item && item_rebuilt(
            g,
            ns,
            u,
            s,
        ),
        GeneratedASTNode::ItemFn(s) => kind_in(g, ns, u) == NodeKind::ItemFn && fn_rebuilt(
            g,
            ns,
            u,
            s,
        ),
        GeneratedASTNode::Block(s) => kind_in(g, ns, u) == NodeKind::Block && block_rebuilt(
            g,
            u,
            s,
        ),
        GeneratedASTNode::LocalStmt(x) => kind_in(g, ns, u) == NodeKind::LocalStmt && x as nat
            == u,
        GeneratedASTNode::ExprArray(x) => kind_in(g, ns, u) == NodeKind::ExprArray && x as nat
            == u,
        GeneratedASTNode::ExprAssign(x) => kind_in(g, ns, u) == NodeKind::ExprAssign && x as nat
            == u,
        GeneratedASTNode::ExprLet(x) => kind_in(g, ns, u) == NodeKind::ExprLet && x as nat == u,
    }
}

/// Vertex `u` leaves an entry in the table once handled.
pub open spec fn leaves_entry(g: GraphView, ns: Seq<AstNode>, u: nat) -> bool {
    let k = kind_in(g, ns, u);
    k.is_statement() || k == NodeKind::Block || k == NodeKind::ItemFn || (k == NodeKind::Item
        && has_kind(g, ns, g.kids(u), NodeKind::ItemFn))
}

/// No vertex at position `i` or later of `order` has an edge to `u`.
pub open spec fn unclaimed(g: GraphView, order: Seq<usize>, i: int, u: nat) -> bool {
    forall|k: int| i <= k < order.len() ==> !#[trigger] g.edge(order[k] as nat, u)
}

impl GeneratedASTNode {
    /// The statement vertex this stands for; only the statement kinds have one.
    pub fn into_stmt(self) -> (r: Result<usize, CodeGeneratorError>)
        ensures
            match self {
                GeneratedASTNode::LocalStmt(x) => r == Ok::<usize, CodeGeneratorError>(x),
                GeneratedASTNode::ExprArray(x) => r == Ok::<usize, CodeGeneratorError>(x),
                GeneratedASTNode::ExprAssign(x) => r == Ok::<usize, CodeGeneratorError>(x),
                GeneratedASTNode::ExprLet(x) => r == Ok::<usize, CodeGeneratorError>(x),
                _ => match r {
                    Err(CodeGeneratorError::MismatchedASTConversion(found, wanted)) => found@
                        == self.spec_kind().spec_name() && wanted@ == "stmt"@,
                    _ => false,
                },
            },
    {
        match self {
            GeneratedASTNode::LocalStmt(x) => Ok(x),
            GeneratedASTNode::ExprArray(x) => Ok(x),
            GeneratedASTNode::ExprAssign(x) => Ok(x),
            GeneratedASTNode::ExprLet(x) => Ok(x),
            other => Err(
                CodeGeneratorError::MismatchedASTConversion(
                    String::from_str(other.kind().name()),
                    String::from_str("stmt"),
                ),
            ),
        }
    }

    pub fn into_block(self) -> (r: Result<BlockShape, CodeGeneratorError>)
        ensures
            match self {
                GeneratedASTNode::Block(s) => r == Ok::<BlockShape, CodeGeneratorError>(s),
                _ => match r {
                    Err(CodeGeneratorError::MismatchedASTConversion(found, wanted)) => found@
                        == self.spec_kind().spec_name() && wanted@ == "block"@,
                    _ => false,
                },
            },
    {
        match self {
            GeneratedASTNode::Block(s) => Ok(s),
            other => Err(
                CodeGeneratorError::MismatchedASTConversion(
                    String::from_str(other.kind().name()),
                    String::from_str("block"),
                ),
            ),
        }
    }

    pub fn into_item_fn(self) -> (r: Result<FnShape, CodeGeneratorError>)
        ensures
            match self {
                GeneratedASTNode::ItemFn(s) => r == Ok::<FnShape, CodeGeneratorError>(s),
                _ => match r {
                    Err(CodeGeneratorError::MismatchedASTConversion(found, wanted)) => found@
                        == self.spec_kind().spec_name() && wanted@ == "item_fn"@,
                    _ => false,
                },
            },
    {
        match self {
            GeneratedASTNode::ItemFn(s) => Ok(s),
            other => Err(
                CodeGeneratorError::MismatchedASTConversion(
                    String::from_str(other.kind().name()),
                    String::from_str("item_fn"),
                ),
            ),
        }
    }

    pub fn into_item(self) -> (r: Result<ItemShape, CodeGeneratorError>)
        ensures
            match self {
                GeneratedASTNode::Item(s) => r == Ok::<ItemShape, CodeGeneratorError>(s),
                _ => match r {
                    Err(CodeGeneratorError::MismatchedASTConversion(found, wanted)) => found@
                        == self.spec_kind().spec_name() && wanted@ == "item"@,
                    _ => false,
                },
            },
    {
        match self {
            GeneratedASTNode::Item(s) => Ok(s),
            other => Err(
                CodeGeneratorError::MismatchedASTConversion(
                    String::from_str(other.kind().name()),
                    String::from_str("item"),
                ),
            ),
        }
    }

    pub open spec fn spec_kind(&self) -> NodeKind {
        match self {
            GeneratedASTNode::SourceRoot(_) => NodeKind::SourceRoot,
            GeneratedASTNode::Item(_) => NodeKind::Item,
            GeneratedASTNode::ItemFn(_) => NodeKind::ItemFn,
            GeneratedASTNode::Block(_) => NodeKind::Block,
            GeneratedASTNode::LocalStmt(_) => NodeKind::LocalStmt,
            GeneratedASTNode::ExprArray(_) => NodeKind::ExprArray,
            GeneratedASTNode::ExprAssign(_) => NodeKind::ExprAssign,
            GeneratedASTNode::ExprLet(_) => NodeKind::ExprLet,
        }
    }

    /// The kind of syntax this was rebuilt from.
    #[verifier::when_used_as_spec(spec_kind)]
    pub fn kind(&self) -> (r: NodeKind)
        ensures
            r == self.spec_kind(),
    {
        match self {
            GeneratedASTNode::SourceRoot(_) => NodeKind::SourceRoot,
            GeneratedASTNode::Item(_) => NodeKind::Item,
            GeneratedASTNode::ItemFn(_) => NodeKind::ItemFn,
            GeneratedASTNode::Block(_) => NodeKind::Block,
            GeneratedASTNode::LocalStmt(_) => NodeKind::LocalStmt,
            GeneratedASTNode::ExprArray(_) => NodeKind::ExprArray,
            GeneratedASTNode::ExprAssign(_) => NodeKind::ExprAssign,
            GeneratedASTNode::ExprLet(_) => NodeKind::ExprLet,
        }
    }
}

/// Code generation from a syntax graph.
pub struct CodeGenerator {
    ix_to_ast_node: HashMap<usize, GeneratedASTNode>,
}

/// A child `c` of the vertex at position `i` of a search order, other than
/// that vertex and the start, comes later in the order and has no other parent.
proof fn lemma_kid_later(g: GraphView, root: nat, order: Seq<usize>, i: int, c: nat)
    requires
        g.sound(),
        g.single_parent(),
        is_search_order(g, root, order),
        0 <= i < order.len(),
        g.edge(order[i] as nat, c),
        c != order[i] as nat,
        c != root,
    ensures
        exists|j: int| i < j < order.len() && order[j] as nat == c,
        unclaimed(g, order, i + 1, c),
{
    assert(order.contains(c as usize));
    let j = choose|j: int| 0 <= j < order.len() && order[j] == c as usize;
    assert(g.has(c));
    assert(order[j] as nat == c);
    assert(j != 0);
    assert(entered_earlier(g, order, j));
    let k = choose|k: int| 0 <= k < j && #[trigger] g.edge(order[k] as nat, order[j] as nat);
    assert(order[k] as nat == order[i] as nat);
    assert(g.has(order[k] as nat) && g.has(order[i] as nat));
    assert(order[k] == order[i]);
    assert(k == i);
    assert forall|k2: int| i + 1 <= k2 < order.len() implies !#[trigger] g.edge(order[k2] as nat, c) by {
        if g.edge(order[k2] as nat, c) {
            assert(order[k2] as nat == order[i] as nat);
            assert(g.has(order[k2] as nat));
            assert(order[k2] == order[i]);
        }
    }
}

impl CodeGenerator {
    /// A generator with an empty side table.
    pub fn new() -> (r: Self) {
        CodeGenerator { ix_to_ast_node: HashMap::new() }
    }

    /// Works out what the graph under `root_node_ix` regenerates into; see
    /// `plan_outcome` for the result on every input.
    #[verifier::rlimit(40)]
    #[verifier::loop_isolation(false)]
    pub fn plan(&mut self, graph: &SyntaxGraph, nodes: &Vec<AstNode>, root_node_ix: usize) -> (r:
        Result<FileShape, CodeGeneratorError>)
        requires
            plannable(graph@, nodes@),
        ensures
            plan_outcome(graph@, nodes@, root_node_ix as nat, r),
    {
        broadcast use vstd::std_specs::hash::group_hash_axioms;

        let ghost g = graph@;
        let ghost ns = nodes@;
        if root_node_ix >= INDEX_END || graph.weight(root_node_ix).is_none() {
            proof {
                if g.has(root_node_ix as nat) {
                    assert((root_node_ix as nat) < g.slots);
                }
            }
            return Err(CodeGeneratorError::RootNodeMissingInSyntaxTree);
        }
        let root = root_node_ix;
        let ghost rt = root as nat;
        if kind_at(graph, nodes, root) != NodeKind::SourceRoot {
            return Err(CodeGeneratorError::FileNotGeneratedFromTree);
        }
        let order = graph.search_order(root);
        proof {
            lemma_order_is_reach_set(g, rt, order@);
            lemma_holds_kind_order(g, ns, rt, order@, NodeKind::SourceRoot);
            lemma_holds_kind_order(g, ns, rt, order@, NodeKind::Item);
            lemma_holds_kind_order(g, ns, rt, order@, NodeKind::ItemFn);
            lemma_holds_kind_order(g, ns, rt, order@, NodeKind::Block);
            lemma_statements_or_kind(g, ns, rt);
        }
        let bad = if blocks_hold_kind(graph, nodes, &order, NodeKind::SourceRoot) {
            Some(NodeKind::SourceRoot)
        } else if blocks_hold_kind(graph, nodes, &order, NodeKind::Item) {
            Some(NodeKind::Item)
        } else if blocks_hold_kind(graph, nodes, &order, NodeKind::ItemFn) {
            Some(NodeKind::ItemFn)
        } else if blocks_hold_kind(graph, nodes, &order, NodeKind::Block) {
            Some(NodeKind::Block)
        } else {
            None
        };
        if let Some(k) = bad {
            let found = String::from_str(k.name());
            let wanted = String::from_str("stmt");
            proof {
                reveal_strlit("stmt");
            }
            return Err(CodeGeneratorError::MismatchedASTConversion(found, wanted));
        }
        self.ix_to_ast_node = HashMap::new();
        let mut i: usize = order.len();
        while i > 1
            invariant
                1 <= i <= order.len(),
                plannable(g, ns),
                g == graph@,
                ns == nodes@,
                g.has(rt),
                kind_in(g, ns, rt) == NodeKind::SourceRoot,
                is_search_order(g, rt, order@),
                blocks_hold_statements(g, ns, rt),
                forall|u: usize| #[trigger]
                    self.ix_to_ast_node@.contains_key(u) ==> (exists|j: int|
                        i <= j < order@.len() && order@[j] == u) && entry_rebuilt(
                        g,
                        ns,
                        u as nat,
                        self.ix_to_ast_node@[u],
                    ),
                forall|j: int|
                    i <= j < order@.len() && leaves_entry(g, ns, order@[j] as nat) && unclaimed(
                        g,
                        order@,
                        i as int,
                        order@[j] as nat,
                    ) ==> self.ix_to_ast_node@.contains_key(#[trigger] order@[j]),
                forall|j: int|
                    i <= j < order@.len() && kind_in(g, ns, #[trigger] order@[j] as nat)
                        == NodeKind::Block ==> block_holds_statements(g, ns, order@[j] as nat),
            decreases i,
        {
            i -= 1;
            let v = order[i];
            let ghost vn = v as nat;
            assert(g.has(vn));
            let kids = graph.targets(v);
            let kind = kind_at(graph, nodes, v);
            let ghost t0 = self.ix_to_ast_node@;
            match kind {
                NodeKind::Block => {
                    let mut stmts: Vec<usize> = Vec::new();
                    let mut k: usize = 0;
                    while k < kids.len()
                        invariant
                            0 <= k <= kids.len(),
                            kids@.len() == g.kids(vn).len(),
                            forall|l: int| 0 <= l < kids@.len() ==> #[trigger] kids@[l] as nat == g.kids(vn)[l],
                            stmts@.len() == k,
                            forall|l: int| 0 <= l < k ==> #[trigger] stmts@[l] as nat == g.kids(vn)[l],
                            forall|l: int| 0 <= l < k ==> kind_in(g, ns, #[trigger] g.kids(vn)[l]).is_statement(),
                            forall|u: usize| #[trigger] self.ix_to_ast_node@.contains_key(u) ==> t0.contains_key(u) && self.ix_to_ast_node@[u] == t0[u],
                            forall|u: usize| t0.contains_key(u) && !(exists|l: int| 0 <= l < k && kids@[l] == u) ==> #[trigger] self.ix_to_ast_node@.contains_key(u),
                        decreases kids.len() - k,
                    {
                        let c = kids[k];
                        let ghost cn = c as nat;
                        assert(g.edge(vn, cn));
                        assert(g.has(cn));
                        let ck = kind_at(graph, nodes, c);
                        if !(ck == NodeKind::LocalStmt || ck == NodeKind::ExprArray || ck == NodeKind::ExprAssign || ck == NodeKind::ExprLet) {
                            proof {
                                lemma_order_reached(g, rt, order@, i as int);
                                assert(!block_holds_statements(g, ns, vn));
                                assert(false);
                            }
                            let found = String::from_str(ck.name());
                            let wanted = String::from_str("stmt");
                            proof {
                                reveal_strlit("stmt");
                            }
                            return Err(CodeGeneratorError::MismatchedASTConversion(found, wanted));
                        }
                        proof {
                            lemma_kid_later(g, rt, order@, i as int, cn);
                            let j = choose|j: int| i < j < order@.len() && order@[j] as nat == cn;
                            assert(order@[j] == c);
                            assert(t0.contains_key(c));
                            assert(g.kids(vn).no_duplicates());
                            assert forall|l: int| 0 <= l < k implies kids@[l] != c by {
                                assert(g.kids(vn)[l] != g.kids(vn)[k as int]);
                            }
                        }
                        let entry = self.ix_to_ast_node.remove(&c);
                        let stmt = match entry {
                            Some(e) => e.into_stmt(),
                            None => {
                                proof {
                                    assert(false);
                                }
                                return Err(CodeGeneratorError::FileNotGeneratedFromTree);
                            },
                        };
                        match stmt {
                            Ok(x) => {
                                stmts.push(x);
                            },
                            Err(e) => {
                                proof {
                                    assert(false);
                                }
                                return Err(e);
                            },
                        }
                        k += 1;
                    }
                    proof {
                        assert(nats(stmts@) =~= g.kids(vn));
                    }
                    self.ix_to_ast_node.insert(v, GeneratedASTNode::Block(BlockShape { block: v, stmts }));
                },
                NodeKind::ItemFn => {
                    let mut body: Option<BlockShape> = None;
                    let mut k: usize = 0;
                    while k < kids.len()
                        invariant
                            0 <= k <= kids.len(),
                            kids@.len() == g.kids(vn).len(),
                            forall|l: int| 0 <= l < kids@.len() ==> #[trigger] kids@[l] as nat == g.kids(vn)[l],
                            match body {
                                Some(bs) => exists|j: int| is_last_of_kind_before(g, ns, g.kids(vn), NodeKind::Block, j, k as int) && #[trigger] block_rebuilt(g, g.kids(vn)[j], bs),
                                None => forall|l: int| 0 <= l < k ==> kind_in(g, ns, #[trigger] g.kids(vn)[l]) != NodeKind::Block,
                            },
                            forall|u: usize| #[trigger] self.ix_to_ast_node@.contains_key(u) ==> t0.contains_key(u) && self.ix_to_ast_node@[u] == t0[u],
                            forall|u: usize| t0.contains_key(u) && !(exists|l: int| 0 <= l < k && kids@[l] == u) ==> #[trigger] self.ix_to_ast_node@.contains_key(u),
                        decreases kids.len() - k,
                    {
                        let c = kids[k];
                        let ghost cn = c as nat;
                        assert(g.edge(vn, cn));
                        assert(g.has(cn));
                        proof {
                            assert(g.kids(vn).no_duplicates());
                            assert forall|l: int| 0 <= l < k implies kids@[l] != c by {
                                assert(g.kids(vn)[l] != g.kids(vn)[k as int]);
                            }
                            if cn != vn && kind_in(g, ns, cn) != NodeKind::SourceRoot {
                                lemma_kid_later(g, rt, order@, i as int, cn);
                                let j = choose|j: int| i < j < order@.len() && order@[j] as nat == cn;
                                assert(order@[j] == c);
                                if kind_in(g, ns, cn) == NodeKind::Block {
                                    assert(leaves_entry(g, ns, cn));
                                    assert(t0.contains_key(c));
                                }
                            }
                            if self.ix_to_ast_node@.contains_key(c) {
                                let j = choose|j: int| i <= j < order@.len() && order@[j] == c;
                                if cn == vn {
                                    assert(order@[j] == order@[i as int]);
                                }
                            }
                        }
                        let ghost mid = self.ix_to_ast_node@;
                        let entry = self.ix_to_ast_node.remove(&c);
                        proof {
                            if entry is Some {
                                let e = entry->Some_0;
                                assert(mid.contains_key(c) && mid[c] == e);
                                assert(t0.contains_key(c) && t0[c] == e);
                                assert(entry_rebuilt(g, ns, cn, e));
                                assert(kids@[k as int] as nat == g.kids(vn)[k as int]);
                            }
                        }
                        let ghost before = body;
                        let ghost mut set_now = false;
                        match entry {
                            Some(e) => {
                                match e.into_block() {
                                    Ok(bs) => {
                                        proof {
                                            assert(g.kids(vn)[k as int] == cn);
                                            assert(kind_in(g, ns, cn) == NodeKind::Block);
                                            assert(is_last_of_kind_before(g, ns, g.kids(vn), NodeKind::Block, k as int, k + 1));
                                            assert(block_rebuilt(g, g.kids(vn)[k as int], bs));
                                        }
                                        body = Some(bs);
                                        proof {
                                            set_now = true;
                                        }
                                    },
                                    Err(_) => {},
                                }
                            },
                            None => {},
                        }
                        proof {
                            if set_now {
                                let bs = body->Some_0;
                                assert(is_last_of_kind_before(g, ns, g.kids(vn), NodeKind::Block, k as int, k + 1));
                                assert(block_rebuilt(g, g.kids(vn)[k as int], bs));
                            } else {
                                assert(body == before);
                                assert(kind_in(g, ns, g.kids(vn)[k as int]) != NodeKind::Block);
                                if body is Some {
                                    let bs = body->Some_0;
                                    let j = choose|j: int| is_last_of_kind_before(g, ns, g.kids(vn), NodeKind::Block, j, k as int) && #[trigger] block_rebuilt(g, g.kids(vn)[j], bs);
                                    assert(is_last_of_kind_before(g, ns, g.kids(vn), NodeKind::Block, j, k + 1));
                                }
                            }
                        }
                        k += 1;
                    }
                    proof {
                        if body is None {
                            if has_kind(g, ns, g.kids(vn), NodeKind::Block) {
                                let j = choose|j: int| 0 <= j < g.kids(vn).len() && kind_in(g, ns, #[trigger] g.kids(vn)[j]) == NodeKind::Block;
                                assert(kind_in(g, ns, g.kids(vn)[j]) != NodeKind::Block);
                            }
                        }
                    }
                    self.ix_to_ast_node.insert(v, GeneratedASTNode::ItemFn(FnShape { function: v, body }));
                },
                NodeKind::Item => {
                    let mut function: Option<FnShape> = None;
                    let mut k: usize = 0;
                    while k < kids.len()
                        invariant
                            0 <= k <= kids.len(),
                            kids@.len() == g.kids(vn).len(),
                            forall|l: int| 0 <= l < kids@.len() ==> #[trigger] kids@[l] as nat == g.kids(vn)[l],
                            match function {
                                Some(fs) => exists|j: int| j < k && is_first_of_kind(g, ns, g.kids(vn), NodeKind::ItemFn, j) && #[trigger] fn_rebuilt(g, ns, g.kids(vn)[j], fs),
                                None => forall|l: int| 0 <= l < k ==> kind_in(g, ns, #[trigger] g.kids(vn)[l]) != NodeKind::ItemFn,
                            },
                            forall|u: usize| #[trigger] self.ix_to_ast_node@.contains_key(u) ==> t0.contains_key(u) && self.ix_to_ast_node@[u] == t0[u],
                            forall|u: usize| t0.contains_key(u) && !(exists|l: int| 0 <= l < k && kids@[l] == u) ==> #[trigger] self.ix_to_ast_node@.contains_key(u),
                        decreases kids.len() - k,
                    {
                        let c = kids[k];
                        let ghost cn = c as nat;
                        assert(g.edge(vn, cn));
                        assert(g.has(cn));
                        proof {
                            assert(g.kids(vn).no_duplicates());
                            assert forall|l: int| 0 <= l < k implies kids@[l] != c by {
                                assert(g.kids(vn)[l] != g.kids(vn)[k as int]);
                            }
                            if cn != vn && kind_in(g, ns, cn) != NodeKind::SourceRoot {
                                lemma_kid_later(g, rt, order@, i as int, cn);
                                let j = choose|j: int| i < j < order@.len() && order@[j] as nat == cn;
                                assert(order@[j] == c);
                                if kind_in(g, ns, cn) == NodeKind::ItemFn {
                                    assert(leaves_entry(g, ns, cn));
                                    assert(t0.contains_key(c));
                                }
                            }
                            if self.ix_to_ast_node@.contains_key(c) {
                                let j = choose|j: int| i <= j < order@.len() && order@[j] == c;
                                if cn == vn {
                                    assert(order@[j] == order@[i as int]);
                                }
                            }
                        }
                        let entry = self.ix_to_ast_node.remove(&c);
                        if function.is_none() {
                            match entry {
                                Some(e) => {
                                    match e.into_item_fn() {
                                        Ok(fs) => {
                                            function = Some(fs);
                                        },
                                        Err(_) => {},
                                    }
                                },
                                None => {},
                            }
                        }
                        k += 1;
                    }
                    match function {
                        Some(fs) => {
                            self.ix_to_ast_node.insert(v, GeneratedASTNode::Item(ItemShape { item: v, function: fs }));
                        },
                        None => {
                            proof {
                                if has_kind(g, ns, g.kids(vn), NodeKind::ItemFn) {
                                    let j = choose|j: int| 0 <= j < g.kids(vn).len() && kind_in(g, ns, #[trigger] g.kids(vn)[j]) == NodeKind::ItemFn;
                                    assert(kind_in(g, ns, g.kids(vn)[j]) != NodeKind::ItemFn);
                                }
                            }
                        },
                    }
                },
                NodeKind::SourceRoot => {},
                NodeKind::LocalStmt => {
                    self.ix_to_ast_node.insert(v, GeneratedASTNode::LocalStmt(v));
                },
                NodeKind::ExprArray => {
                    self.ix_to_ast_node.insert(v, GeneratedASTNode::ExprArray(v));
                },
                NodeKind::ExprAssign => {
                    self.ix_to_ast_node.insert(v, GeneratedASTNode::ExprAssign(v));
                },
                NodeKind::ExprLet => {
                    self.ix_to_ast_node.insert(v, GeneratedASTNode::ExprLet(v));
                },
            }
            proof {
                lemma_step_keeps_table(g, ns, rt, order@, i as int, t0, self.ix_to_ast_node@);
            }
        }
        // The root, last of all.
        let kids = graph.targets(root);
        let ghost t1 = self.ix_to_ast_node@;
        proof {
            assert forall|b: nat| g.reaches(rt, b) && kind_in(g, ns, b) == NodeKind::Block implies #[trigger] block_holds_statements(g, ns, b) by {
                assert(vertex_set(order@).contains(b));
                let j = choose|j: int| 0 <= j < order@.len() && order@[j] as nat == b;
                if j == 0 {
                    assert(b == rt);
                }
            }
        }
        let mut items: Vec<ItemShape> = Vec::new();
        let mut k: usize = 0;
        while k < kids.len()
            invariant
                0 <= k <= kids.len(),
                kids@.len() == g.kids(rt).len(),
                forall|l: int| 0 <= l < kids@.len() ==> #[trigger] kids@[l] as nat == g.kids(rt)[l],
                items@.len() == k,
                forall|l: int| 0 <= l < k ==> #[trigger] item_rebuilt(g, ns, g.kids(rt)[l], items@[l]),
                forall|l: int| 0 <= l < k ==> #[trigger] item_regenerable(g, ns, g.kids(rt)[l]),
                forall|u: usize| #[trigger] self.ix_to_ast_node@.contains_key(u) ==> t1.contains_key(u) && self.ix_to_ast_node@[u] == t1[u],
                forall|u: usize| t1.contains_key(u) && !(exists|l: int| 0 <= l < k && kids@[l] == u) ==> #[trigger] self.ix_to_ast_node@.contains_key(u),
            decreases kids.len() - k,
        {
            let c = kids[k];
            let ghost cn = c as nat;
            assert(g.edge(rt, cn));
            assert(g.has(cn));
            proof {
                assert(g.kids(rt).no_duplicates());
                assert forall|l: int| 0 <= l < k implies kids@[l] != c by {
                    assert(g.kids(rt)[l] != g.kids(rt)[k as int]);
                }
                if cn != rt {
                    lemma_kid_later(g, rt, order@, 0, cn);
                }
            }
            let entry = self.ix_to_ast_node.remove(&c);
            let item = match entry {
                Some(e) => e.into_item(),
                None => {
                    proof {
                        if cn != rt && item_regenerable(g, ns, cn) {
                            let j = choose|j: int| 0 < j < order@.len() && order@[j] as nat == cn;
                            assert(order@[j] == c);
                            assert(t1.contains_key(c));
                        }
                        if cn == rt {
                            assert(!item_regenerable(g, ns, cn));
                        }
                        assert(!root_holds_items(g, ns, rt));
                    }
                    return Err(CodeGeneratorError::SourceRootDoesNotHaveItemChild);
                },
            };
            match item {
                Ok(s) => {
                    items.push(s);
                    proof {
                        assert(item_rebuilt(g, ns, g.kids(rt)[k as int], items@[k as int]));
                        let j = choose|j: int| is_first_of_kind(g, ns, g.kids(cn), NodeKind::ItemFn, j) && #[trigger] fn_rebuilt(g, ns, g.kids(cn)[j], s.function);
                        assert(kind_in(g, ns, g.kids(cn)[j]) == NodeKind::ItemFn);
                    }
                },
                Err(_) => {
                    proof {
                        if cn != rt && item_regenerable(g, ns, cn) {
                            let j = choose|j: int| 0 < j < order@.len() && order@[j] as nat == cn;
                            assert(order@[j] == c);
                        }
                        assert(!root_holds_items(g, ns, rt));
                    }
                    return Err(CodeGeneratorError::SourceRootDoesNotHaveItemChild);
                },
            }
            k += 1;
        }
        Ok(FileShape { root, items })
    }
}

// ---------------------------------------------------------------------------
// Turning a shape into source text.

/// A local binding as a statement.
pub uninterp spec fn local_stmt_of(l: syn::Local) -> syn::Stmt;

/// An array expression as a statement without a trailing semicolon.
pub uninterp spec fn array_stmt_of(e: syn::ExprArray) -> syn::Stmt;

/// An assignment as a statement without a trailing semicolon.
pub uninterp spec fn assign_stmt_of(e: syn::ExprAssign) -> syn::Stmt;

/// A `let` expression as a statement without a trailing semicolon.
pub uninterp spec fn let_stmt_of(e: syn::ExprLet) -> syn::Stmt;

/// Block `b`'s braces around `stmts`.
pub uninterp spec fn block_of(b: syn::Block, stmts: Seq<syn::Stmt>) -> syn::Block;

/// Function `f`'s braces around no statement.
pub uninterp spec fn emptied_body(f: syn::ItemFn) -> syn::Block;

/// Function `f`'s attributes, visibility and signature over `body`, as an item.
pub uninterp spec fn fn_item_of(f: syn::ItemFn, body: syn::Block) -> syn::Item;

/// The source text that prettyplease prints for a file.
pub uninterp spec fn printed(f: syn::File) -> Seq<char>;

/// Relies on `syn::Stmt::Local`: a local binding as a statement.
#[verifier::external_body]
fn local_statement(l: &syn::Local) -> (r: syn::Stmt)
    ensures
        r == local_stmt_of(*l),
{
    syn::Stmt::Local(l.clone())
}

/// Relies on `syn::Stmt::Expr` and `syn::Expr::Array`: the array expression
/// as a statement without a trailing semicolon.
#[verifier::external_body]
fn array_statement(e: &syn::ExprArray) -> (r: syn::Stmt)
    ensures
        r == array_stmt_of(*e),
{
    syn::Stmt::Expr(syn::Expr::Array(e.clone()), None)
}

/// Relies on `syn::Stmt::Expr` and `syn::Expr::Assign`: the assignment as a
/// statement without a trailing semicolon.
#[verifier::external_body]
fn assign_statement(e: &syn::ExprAssign) -> (r: syn::Stmt)
    ensures
        r == assign_stmt_of(*e),
{
    syn::Stmt::Expr(syn::Expr::Assign(e.clone()), None)
}

/// Relies on `syn::Stmt::Expr` and `syn::Expr::Let`: the `let` expression as a
/// statement without a trailing semicolon.
#[verifier::external_body]
fn let_statement(e: &syn::ExprLet) -> (r: syn::Stmt)
    ensures
        r == let_stmt_of(*e),
{
    syn::Stmt::Expr(syn::Expr::Let(e.clone()), None)
}

/// Relies on the fields of `syn::Block`: `b`'s braces around `stmts`.
#[verifier::external_body]
fn block_with(b: &syn::Block, stmts: Vec<syn::Stmt>) -> (r: syn::Block)
    ensures
        r == block_of(*b, stmts@),
{
    syn::Block { brace_token: b.brace_token, stmts }
}

/// Relies on the fields of `syn::ItemFn` and `syn::Block`: `f`'s body braces
/// around no statement.
#[verifier::external_body]
fn empty_body(f: &syn::ItemFn) -> (r: syn::Block)
    ensures
        r == emptied_body(*f),
{
    syn::Block { brace_token: f.block.brace_token, stmts: Vec::new() }
}

/// Relies on the fields of `syn::ItemFn` and on `syn::Item::Fn`: `f`'s
/// attributes, visibility and signature over `body`, as an item.
#[verifier::external_body]
fn function_item(f: &syn::ItemFn, body: syn::Block) -> (r: syn::Item)
    ensures
        r == fn_item_of(*f, body),
{
    syn::Item::Fn(syn::ItemFn {
        attrs: f.attrs.clone(),
        vis: f.vis.clone(),
        sig: f.sig.clone(),
        block: Box::new(body),
    })
}

/// Relies on the fields of `syn::File`: its inner attributes.
#[verifier::external_body]
fn file_attributes(f: &syn::File) -> (r: Vec<syn::Attribute>)
    ensures
        r@ == file_attrs(*f),
{
    f.attrs.clone()
}

/// Holds of the files that prettyplease prints without panicking: it panics
/// on verbatim token streams that it cannot read back.
pub uninterp spec fn printable(f: syn::File) -> bool;

/// Relies on `prettyplease::unparse`: a printable file as formatted source text.
#[verifier::external_body]
fn unparse(f: &syn::File) -> (r: String)
    requires
        printable(*f),
    ensures
        printable(*f) ==> r@ == printed(*f),
{
    prettyplease::unparse(f)
}

/// The payload that vertex `v` points at.
pub open spec fn payload_at(g: GraphView, ns: Seq<AstNode>, v: nat) -> AstNode {
    ns[g.nodes[v] as int]
}

/// The statement that statement vertex `v` prints as.
pub open spec fn stmt_syntax(g: GraphView, ns: Seq<AstNode>, v: nat) -> syn::Stmt {
    match payload_at(g, ns, v) {
        AstNode::LocalStmt(l) => local_stmt_of(l),
        AstNode::ExprArray(e) => array_stmt_of(e),
        AstNode::ExprAssign(e) => assign_stmt_of(e),
        AstNode::ExprLet(e) => let_stmt_of(e),
        _ => arbitrary(),
    }
}

/// The block that `s` prints as: the block's braces around its statements in
/// order.
pub open spec fn block_syntax(g: GraphView, ns: Seq<AstNode>, s: BlockShape) -> syn::Block {
    match payload_at(g, ns, s.block as nat) {
        AstNode::Block(b) => block_of(b, s.stmts@.map_values(|v: usize| stmt_syntax(g, ns, v as nat))),
        _ => arbitrary(),
    }
}

/// The item that `s` prints as: the function's header over its rebuilt body,
/// or over an empty body where no block is left.
pub open spec fn item_syntax(g: GraphView, ns: Seq<AstNode>, s: ItemShape) -> syn::Item {
    match payload_at(g, ns, s.function.function as nat) {
        AstNode::ItemFn(f) => fn_item_of(
            f,
            match s.function.body {
                Some(bs) => block_syntax(g, ns, bs),
                None => emptied_body(f),
            },
        ),
        _ => arbitrary(),
    }
}

/// The file that `s` prints as: the root file's attributes, no shebang, and
/// the items in order.
pub open spec fn file_syntax(g: GraphView, ns: Seq<AstNode>, s: FileShape) -> syn::File {
    match payload_at(g, ns, s.root as nat) {
        AstNode::SourceRoot(f) => file_of(
            file_attrs(f),
            s.items@.map_values(|i: ItemShape| item_syntax(g, ns, i)),
        ),
        _ => arbitrary(),
    }
}

/// The vertices that a block shape names are live, of the kinds it needs.
pub open spec fn block_fits(g: GraphView, ns: Seq<AstNode>, s: BlockShape) -> bool {
    &&& g.has(s.block as nat)
    &&& kind_in(g, ns, s.block as nat) == NodeKind::Block
    &&& forall|k: int|
        0 <= k < s.stmts@.len() ==> g.has(#[trigger] s.stmts@[k] as nat) && kind_in(
            g,
            ns,
            s.stmts@[k] as nat,
        ).is_statement()
}

pub open spec fn item_fits(g: GraphView, ns: Seq<AstNode>, s: ItemShape) -> bool {
    &&& g.has(s.function.function as nat)
    &&& kind_in(g, ns, s.function.function as nat) == NodeKind::ItemFn
    &&& match s.function.body {
        Some(bs) => block_fits(g, ns, bs),
        None => true,
    }
}

pub open spec fn file_fits(g: GraphView, ns: Seq<AstNode>, s: FileShape) -> bool {
    &&& g.has(s.root as nat)
    &&& kind_in(g, ns, s.root as nat) == NodeKind::SourceRoot
    &&& forall|k: int| 0 <= k < s.items@.len() ==> #[trigger] item_fits(g, ns, s.items@[k])
}

/// The shape of a regenerable graph names live vertices of the kinds it needs.
proof fn lemma_rebuilt_fits(g: GraphView, ns: Seq<AstNode>, root: nat, s: FileShape)
    requires
        plannable(g, ns),
        regenerable(g, ns, root),
        file_rebuilt(g, ns, root, s),
    ensures
        file_fits(g, ns, s),
{
    lemma_reaches_self(g, root);
    assert forall|k: int| 0 <= k < s.items@.len() implies #[trigger] item_fits(g, ns, s.items@[k]) by {
        let it = s.items@[k];
        let i = g.kids(root)[k];
        assert(item_rebuilt(g, ns, i, it));
        assert(g.edge(root, i));
        assert(g.has(i));
        lemma_reaches_step(g, root, root, i);
        let j = choose|j: int|
            is_first_of_kind(g, ns, g.kids(i), NodeKind::ItemFn, j) && #[trigger] fn_rebuilt(
                g,
                ns,
                g.kids(i)[j],
                it.function,
            );
        let f = g.kids(i)[j];
        assert(g.edge(i, f));
        assert(g.has(f));
        lemma_reaches_step(g, root, i, f);
        match it.function.body {
            Some(bs) => {
                let jb = choose|jb: int|
                    is_last_of_kind_before(g, ns, g.kids(f), NodeKind::Block, jb, g.kids(f).len() as int) && #[trigger] block_rebuilt(
                        g,
                        g.kids(f)[jb],
                        bs,
                    );
                let b = g.kids(f)[jb];
                assert(g.edge(f, b));
                assert(g.has(b));
                lemma_reaches_step(g, root, f, b);
                assert(block_holds_statements(g, ns, b));
                assert forall|m: int| 0 <= m < bs.stmts@.len() implies g.has(#[trigger] bs.stmts@[m] as nat)
                    && kind_in(g, ns, bs.stmts@[m] as nat).is_statement() by {
                    assert(nats(bs.stmts@)[m] == g.kids(b)[m]);
                    assert(g.edge(b, g.kids(b)[m]));
                }
            },
            None => {},
        }
    }
}

/// The payload of vertex `v`, if `v` is a vertex with a payload.
fn payload<'a>(graph: &SyntaxGraph, nodes: &'a Vec<AstNode>, v: usize) -> (r: Option<&'a AstNode>)
    ensures
        graph@.has(v as nat) && payloads_fit(graph@, nodes@) && graph@.sound() ==> r == Some(
            &nodes@[graph@.nodes[v as nat] as int],
        ),
{
    if v >= INDEX_END {
        proof {
            if graph@.has(v as nat) && graph@.sound() {
                assert((v as nat) < graph@.slots);
            }
        }
        return None;
    }
    match graph.weight(v) {
        Some(slot) => if slot < nodes.len() {
            Some(&nodes[slot])
        } else {
            None
        },
        None => None,
    }
}

/// The block that `shape` describes: its braces around its statements in
/// order, each taken from the payload of its vertex.
fn render_block(graph: &SyntaxGraph, nodes: &Vec<AstNode>, shape: &BlockShape) -> (r: Option<
    syn::Block,
>)
    requires
        graph@.sound(),
        payloads_fit(graph@, nodes@),
        block_fits(graph@, nodes@, *shape),
    ensures
        r == Some(block_syntax(graph@, nodes@, *shape)),
{
    let ghost g = graph@;
    let ghost ns = nodes@;
    let mut stmts: Vec<syn::Stmt> = Vec::new();
    let mut k: usize = 0;
    while k < shape.stmts.len()
        invariant
            0 <= k <= shape.stmts@.len(),
            g == graph@,
            ns == nodes@,
            graph@.sound(),
            payloads_fit(graph@, nodes@),
            block_fits(graph@, nodes@, *shape),
            stmts@.len() == k,
            forall|m: int| 0 <= m < k ==> #[trigger] stmts@[m] == stmt_syntax(g, ns, shape.stmts@[m] as nat),
        decreases shape.stmts.len() - k,
    {
        let v = shape.stmts[k];
        assert(g.has(shape.stmts@[k as int] as nat));
        let ghost want = stmt_syntax(g, ns, v as nat);
        match payload(graph, nodes, v) {
            Some(AstNode::LocalStmt(l)) => stmts.push(local_statement(l)),
            Some(AstNode::ExprArray(e)) => stmts.push(array_statement(e)),
            Some(AstNode::ExprAssign(e)) => stmts.push(assign_statement(e)),
            Some(AstNode::ExprLet(e)) => stmts.push(let_statement(e)),
            _ => {
                proof {
                    assert(kind_in(g, ns, v as nat).is_statement());
                    assert(false);
                }
                return None;
            },
        }
        assert(stmts@[k as int] == want);
        k += 1;
    }
    assert(stmts@ =~= shape.stmts@.map_values(|v: usize| stmt_syntax(g, ns, v as nat)));
    match payload(graph, nodes, shape.block) {
        Some(AstNode::Block(b)) => Some(block_with(b, stmts)),
        _ => None,
    }
}

/// The item that `shape` describes: the function's header over the rebuilt
/// body, or over an empty body where no block is left.
fn render_item(graph: &SyntaxGraph, nodes: &Vec<AstNode>, shape: &ItemShape) -> (r: Option<
    syn::Item,
>)
    requires
        graph@.sound(),
        payloads_fit(graph@, nodes@),
        item_fits(graph@, nodes@, *shape),
    ensures
        r == Some(item_syntax(graph@, nodes@, *shape)),
{
    match payload(graph, nodes, shape.function.function) {
        Some(AstNode::ItemFn(f)) => {
            let body = match &shape.function.body {
                Some(bs) => match render_block(graph, nodes, bs) {
                    Some(b) => b,
                    None => {
                        return None;
                    },
                },
                None => empty_body(f),
            };
            Some(function_item(f, body))
        },
        _ => None,
    }
}

/// The file that `shape` describes: the root's attributes, no shebang, and
/// the items in order.
fn render_file(graph: &SyntaxGraph, nodes: &Vec<AstNode>, shape: &FileShape) -> (r: Option<
    syn::File,
>)
    requires
        graph@.sound(),
        payloads_fit(graph@, nodes@),
        file_fits(graph@, nodes@, *shape),
    ensures
        r == Some(file_syntax(graph@, nodes@, *shape)),
{
    let ghost g = graph@;
    let ghost ns = nodes@;
    let mut items: Vec<syn::Item> = Vec::new();
    let mut k: usize = 0;
    while k < shape.items.len()
        invariant
            0 <= k <= shape.items@.len(),
            g == graph@,
            ns == nodes@,
            graph@.sound(),
            payloads_fit(graph@, nodes@),
            file_fits(graph@, nodes@, *shape),
            items@.len() == k,
            forall|m: int| 0 <= m < k ==> #[trigger] items@[m] == item_syntax(g, ns, shape.items@[m]),
        decreases shape.items.len() - k,
    {
        assert(item_fits(g, ns, shape.items@[k as int]));
        match render_item(graph, nodes, &shape.items[k]) {
            Some(item) => items.push(item),
            None => {
                return None;
            },
        }
        k += 1;
    }
    assert(items@ =~= shape.items@.map_values(|i: ItemShape| item_syntax(g, ns, i)));
    match payload(graph, nodes, shape.root) {
        Some(AstNode::SourceRoot(f)) => {
            let attrs = file_attributes(f);
            Some(file_of_parts(attrs, items))
        },
        _ => None,
    }
}

/// The text that a regenerable graph under `root` prints as.
pub open spec fn regenerated(g: GraphView, ns: Seq<AstNode>, root: nat, t: Seq<char>) -> bool {
    exists|s: FileShape| #[trigger] file_rebuilt(g, ns, root, s) && t == printed(file_syntax(g, ns, s))
}

/// The syn file that a regenerable graph under `root` rebuilds into.
pub open spec fn regenerated_file(g: GraphView, ns: Seq<AstNode>, root: nat, f: syn::File) -> bool {
    exists|s: FileShape| #[trigger] file_rebuilt(g, ns, root, s) && f == file_syntax(g, ns, s)
}

/// Every file the graph under `root` rebuilds into can be printed.
pub open spec fn printable_regeneration(g: GraphView, ns: Seq<AstNode>, root: nat) -> bool {
    forall|s: FileShape| #[trigger] file_rebuilt(g, ns, root, s) ==> printable(file_syntax(g, ns, s))
}

proof fn lemma_first_unique(g: GraphView, ns: Seq<AstNode>, s: Seq<nat>, k: NodeKind, a: int, b: int)
    requires
        is_first_of_kind(g, ns, s, k, a),
        is_first_of_kind(g, ns, s, k, b),
    ensures
        a == b,
{
    if a < b {
        assert(kind_in(g, ns, s[a]) != k);
    } else if b < a {
        assert(kind_in(g, ns, s[b]) != k);
    }
}

proof fn lemma_block_syntax_unique(g: GraphView, ns: Seq<AstNode>, b: nat, s1: BlockShape, s2: BlockShape)
    requires
        block_rebuilt(g, b, s1),
        block_rebuilt(g, b, s2),
    ensures
        block_syntax(g, ns, s1) == block_syntax(g, ns, s2),
{
    assert(s1.stmts@.len() == nats(s1.stmts@).len());
    assert forall|i: int| 0 <= i < s1.stmts@.len() implies s1.stmts@[i] == s2.stmts@[i] by {
        assert(nats(s1.stmts@)[i] == nats(s2.stmts@)[i]);
    }
    assert(s1.stmts@ =~= s2.stmts@);
}

proof fn lemma_item_syntax_unique(g: GraphView, ns: Seq<AstNode>, i: nat, s1: ItemShape, s2: ItemShape)
    requires
        item_rebuilt(g, ns, i, s1),
        item_rebuilt(g, ns, i, s2),
    ensures
        item_syntax(g, ns, s1) == item_syntax(g, ns, s2),
{
    let j1 = choose|j: int| is_first_of_kind(g, ns, g.kids(i), NodeKind::ItemFn, j) && #[trigger] fn_rebuilt(g, ns, g.kids(i)[j], s1.function);
    let j2 = choose|j: int| is_first_of_kind(g, ns, g.kids(i), NodeKind::ItemFn, j) && #[trigger] fn_rebuilt(g, ns, g.kids(i)[j], s2.function);
    lemma_first_unique(g, ns, g.kids(i), NodeKind::ItemFn, j1, j2);
    let f = g.kids(i)[j1];
    match (s1.function.body, s2.function.body) {
        (Some(b1), Some(b2)) => {
            let n = g.kids(f).len() as int;
            let k1 = choose|j: int| is_last_of_kind_before(g, ns, g.kids(f), NodeKind::Block, j, n) && #[trigger] block_rebuilt(g, g.kids(f)[j], b1);
            let k2 = choose|j: int| is_last_of_kind_before(g, ns, g.kids(f), NodeKind::Block, j, n) && #[trigger] block_rebuilt(g, g.kids(f)[j], b2);
            if k1 < k2 {
                assert(kind_in(g, ns, g.kids(f)[k2]) != NodeKind::Block);
            } else if k2 < k1 {
                assert(kind_in(g, ns, g.kids(f)[k1]) != NodeKind::Block);
            }
            lemma_block_syntax_unique(g, ns, g.kids(f)[k1], b1, b2);
        },
        (Some(b1), None) => {
            let k1 = choose|j: int| is_last_of_kind_before(g, ns, g.kids(f), NodeKind::Block, j, g.kids(f).len() as int) && #[trigger] block_rebuilt(g, g.kids(f)[j], b1);
            assert(kind_in(g, ns, g.kids(f)[k1]) == NodeKind::Block);
        },
        (None, Some(b2)) => {
            let k2 = choose|j: int| is_last_of_kind_before(g, ns, g.kids(f), NodeKind::Block, j, g.kids(f).len() as int) && #[trigger] block_rebuilt(g, g.kids(f)[j], b2);
            assert(kind_in(g, ns, g.kids(f)[k2]) == NodeKind::Block);
        },
        (None, None) => {},
    }
}

/// A function left without a block child is printed with its own attributes,
/// visibility and signature over an empty body.
pub proof fn lemma_function_without_block(g: GraphView, ns: Seq<AstNode>, root: nat, s: FileShape, k: int)
    requires
        file_rebuilt(g, ns, root, s),
        0 <= k < s.items@.len(),
        !has_kind(g, ns, g.kids(s.items@[k].function.function as nat), NodeKind::Block),
    ensures
        s.items@[k].function.body is None,
        match payload_at(g, ns, s.items@[k].function.function as nat) {
            AstNode::ItemFn(f) => item_syntax(g, ns, s.items@[k]) == fn_item_of(f, emptied_body(f)),
            _ => true,
        },
{
    let it = s.items@[k];
    assert(item_rebuilt(g, ns, g.kids(root)[k], it));
    let j = choose|j: int| is_first_of_kind(g, ns, g.kids(g.kids(root)[k]), NodeKind::ItemFn, j) && #[trigger] fn_rebuilt(g, ns, g.kids(g.kids(root)[k])[j], it.function);
    if it.function.body is Some {
        let bs = it.function.body->Some_0;
        let f = it.function.function as nat;
        let jb = choose|jb: int| is_last_of_kind_before(g, ns, g.kids(f), NodeKind::Block, jb, g.kids(f).len() as int) && #[trigger] block_rebuilt(g, g.kids(f)[jb], bs);
        assert(kind_in(g, ns, g.kids(f)[jb]) == NodeKind::Block);
    }
}

/// A body block whose statements are all deleted stays the body, printed as
/// its own braces around no statement.
pub proof fn lemma_emptied_block(g: GraphView, ns: Seq<AstNode>, root: nat, s: FileShape, k: int)
    requires
        file_rebuilt(g, ns, root, s),
        0 <= k < s.items@.len(),
        s.items@[k].function.body is Some,
        g.kids(s.items@[k].function.body->Some_0.block as nat).len() == 0,
    ensures
        match payload_at(g, ns, s.items@[k].function.function as nat) {
            AstNode::ItemFn(f) => match payload_at(g, ns, s.items@[k].function.body->Some_0.block as nat) {
                AstNode::Block(b) => item_syntax(g, ns, s.items@[k]) == fn_item_of(f, block_of(b, Seq::empty())),
                _ => true,
            },
            _ => true,
        },
{
    let bs = s.items@[k].function.body->Some_0;
    let it = s.items@[k];
    assert(item_rebuilt(g, ns, g.kids(root)[k], it));
    let j = choose|j: int| is_first_of_kind(g, ns, g.kids(g.kids(root)[k]), NodeKind::ItemFn, j) && #[trigger] fn_rebuilt(g, ns, g.kids(g.kids(root)[k])[j], it.function);
    let f = it.function.function as nat;
    let jb = choose|jb: int| is_last_of_kind_before(g, ns, g.kids(f), NodeKind::Block, jb, g.kids(f).len() as int) && #[trigger] block_rebuilt(g, g.kids(f)[jb], bs);
    assert(nats(bs.stmts@).len() == 0);
    assert(bs.stmts@.map_values(|v: usize| stmt_syntax(g, ns, v as nat)) =~= Seq::<syn::Stmt>::empty());
}

/// Deleting the only child of a vertex, with its subtree, leaves the vertex
/// with no child.
pub proof fn lemma_only_child_removed(g: GraphView, b: nat, gone: Set<nat>)
    requires
        g.has(b),
        g.sound(),
        g.kids(b).len() == 1,
        gone.contains(g.kids(b)[0]),
        !gone.contains(b),
    ensures
        g.without(gone).kids(b).len() == 0,
{
    let s = g.kids(b);
    reveal(Seq::filter);
    assert(s.drop_last() =~= Seq::<nat>::empty());
    assert(s.drop_last().filter(crate::digraph::keeps(gone)) =~= Seq::<nat>::empty());
    assert(g.children.dom().contains(b));
    assert(g.without(gone).kids(b) == s.filter(crate::digraph::keeps(gone)));
}

/// Regeneration is a function of the graph: a regenerable graph rebuilds into
/// one file only, and prints as one text only, whatever side table or earlier
/// calls a generator has seen.
pub proof fn lemma_regenerated_unique(
    g: GraphView,
    ns: Seq<AstNode>,
    root: nat,
    s1: FileShape,
    s2: FileShape,
)
    requires
        file_rebuilt(g, ns, root, s1),
        file_rebuilt(g, ns, root, s2),
    ensures
        file_syntax(g, ns, s1) == file_syntax(g, ns, s2),
        forall|f1: syn::File, f2: syn::File|
            regenerated_file(g, ns, root, f1) && regenerated_file(g, ns, root, f2) ==> f1 == f2,
        forall|t1: Seq<char>, t2: Seq<char>|
            regenerated(g, ns, root, t1) && regenerated(g, ns, root, t2) ==> t1 == t2,
{
    lemma_syntax_unique(g, ns, root, s1, s2);
    assert forall|f1: syn::File, f2: syn::File|
        regenerated_file(g, ns, root, f1) && regenerated_file(g, ns, root, f2) implies f1 == f2 by {
        let a = choose|s: FileShape| #[trigger] file_rebuilt(g, ns, root, s) && f1 == file_syntax(g, ns, s);
        let b = choose|s: FileShape| #[trigger] file_rebuilt(g, ns, root, s) && f2 == file_syntax(g, ns, s);
        lemma_syntax_unique(g, ns, root, a, b);
    }
    assert forall|t1: Seq<char>, t2: Seq<char>|
        regenerated(g, ns, root, t1) && regenerated(g, ns, root, t2) implies t1 == t2 by {
        let a = choose|s: FileShape| #[trigger] file_rebuilt(g, ns, root, s) && t1 == printed(file_syntax(g, ns, s));
        let b = choose|s: FileShape| #[trigger] file_rebuilt(g, ns, root, s) && t2 == printed(file_syntax(g, ns, s));
        lemma_syntax_unique(g, ns, root, a, b);
    }
}

proof fn lemma_syntax_unique(g: GraphView, ns: Seq<AstNode>, root: nat, s1: FileShape, s2: FileShape)
    requires
        file_rebuilt(g, ns, root, s1),
        file_rebuilt(g, ns, root, s2),
    ensures
        file_syntax(g, ns, s1) == file_syntax(g, ns, s2),
{
    assert forall|k: int| 0 <= k < s1.items@.len() implies item_syntax(g, ns, s1.items@[k]) == item_syntax(g, ns, s2.items@[k]) by {
        assert(item_rebuilt(g, ns, g.kids(root)[k], s1.items@[k]));
        assert(item_rebuilt(g, ns, g.kids(root)[k], s2.items@[k]));
        lemma_item_syntax_unique(g, ns, g.kids(root)[k], s1.items@[k], s2.items@[k]);
    }
    assert(s1.items@.map_values(|i: ItemShape| item_syntax(g, ns, i)) =~= s2.items@.map_values(|i: ItemShape| item_syntax(g, ns, i)));
}

impl CodeGenerator {
    /// Rebuilds the syn file of the graph under `root_node_ix`: the file that
    /// the shape `plan` works out describes. It succeeds exactly when the graph
    /// is regenerable, and fails with the error that `plan` gives.
    pub fn generate_file(&mut self, graph: &SyntaxGraph, nodes: &Vec<AstNode>, root_node_ix: usize) -> (r:
        Result<syn::File, CodeGeneratorError>)
        requires
            plannable(graph@, nodes@),
        ensures
            r is Ok <==> regenerable(graph@, nodes@, root_node_ix as nat),
            r is Err ==> plan_outcome(graph@, nodes@, root_node_ix as nat, Err(r->Err_0)),
            r matches Ok(f) ==> regenerated_file(graph@, nodes@, root_node_ix as nat, f),
    {
        match self.plan(graph, nodes, root_node_ix) {
            Ok(shape) => {
                proof {
                    lemma_rebuilt_fits(graph@, nodes@, root_node_ix as nat, shape);
                }
                match render_file(graph, nodes, &shape) {
                    Some(file) => {
                        assert(file_rebuilt(graph@, nodes@, root_node_ix as nat, shape));
                        Ok(file)
                    },
                    None => Err(CodeGeneratorError::FileNotGeneratedFromTree),
                }
            },
            Err(e) => Err(e),
        }
    }

    /// Regenerates the source text of the graph under `root_node_ix`: the
    /// pretty-printed file that `generate_file` rebuilds, where every such
    /// file is printable.
    pub fn generate(&mut self, graph: &SyntaxGraph, nodes: &Vec<AstNode>, root_node_ix: usize) -> (r:
        Result<String, CodeGeneratorError>)
        requires
            plannable(graph@, nodes@),
            printable_regeneration(graph@, nodes@, root_node_ix as nat),
        ensures
            r is Ok <==> regenerable(graph@, nodes@, root_node_ix as nat),
            r is Err ==> plan_outcome(graph@, nodes@, root_node_ix as nat, Err(r->Err_0)),
            r matches Ok(t) ==> regenerated(graph@, nodes@, root_node_ix as nat, t@),
    {
        match self.generate_file(graph, nodes, root_node_ix) {
            Ok(file) => {
                let text = unparse(&file);
                Ok(text)
            },
            Err(e) => Err(e),
        }
    }
}

/// One step of the walk keeps the table's invariant, one position earlier:
/// handling the vertex at position `i` removed only entries of its children
/// and added its own entry, if it leaves one.
proof fn lemma_step_keeps_table(
    g: GraphView,
    ns: Seq<AstNode>,
    rt: nat,
    order: Seq<usize>,
    i: int,
    before: Map<usize, GeneratedASTNode>,
    after: Map<usize, GeneratedASTNode>,
)
    requires
        plannable(g, ns),
        is_search_order(g, rt, order),
        0 < i < order.len(),
        forall|u: usize| #[trigger]
            before.contains_key(u) ==> (exists|j: int| i + 1 <= j < order.len() && order[j] == u)
                && entry_rebuilt(g, ns, u as nat, before[u]),
        forall|j: int|
            i + 1 <= j < order.len() && leaves_entry(g, ns, order[j] as nat) && unclaimed(
                g,
                order,
                i + 1,
                order[j] as nat,
            ) ==> before.contains_key(#[trigger] order[j]),
        forall|j: int|
            i + 1 <= j < order.len() && kind_in(g, ns, #[trigger] order[j] as nat)
                == NodeKind::Block ==> block_holds_statements(g, ns, order[j] as nat),
        forall|u: usize| #[trigger]
            after.contains_key(u) ==> (u == order[i] && entry_rebuilt(g, ns, u as nat, after[u]))
                || (before.contains_key(u) && after[u] == before[u]),
        forall|u: usize|
            before.contains_key(u) && !g.kids(order[i] as nat).contains(u as nat)
                ==> #[trigger] after.contains_key(u),
        leaves_entry(g, ns, order[i] as nat) ==> after.contains_key(order[i]),
        kind_in(g, ns, order[i] as nat) == NodeKind::Block ==> block_holds_statements(
            g,
            ns,
            order[i] as nat,
        ),
    ensures
        forall|u: usize| #[trigger]
            after.contains_key(u) ==> (exists|j: int| i <= j < order.len() && order[j] == u)
                && entry_rebuilt(g, ns, u as nat, after[u]),
        forall|j: int|
            i <= j < order.len() && leaves_entry(g, ns, order[j] as nat) && unclaimed(
                g,
                order,
                i,
                order[j] as nat,
            ) ==> after.contains_key(#[trigger] order[j]),
        forall|j: int|
            i <= j < order.len() && kind_in(g, ns, #[trigger] order[j] as nat)
                == NodeKind::Block ==> block_holds_statements(g, ns, order[j] as nat),
{
    assert forall|u: usize| #[trigger] after.contains_key(u) implies (exists|j: int|
        i <= j < order.len() && order[j] == u) && entry_rebuilt(g, ns, u as nat, after[u]) by {
        if u == order[i] && entry_rebuilt(g, ns, u as nat, after[u]) {
        } else {
            assert(before.contains_key(u));
        }
    }
    assert forall|j: int|
        i <= j < order.len() && leaves_entry(g, ns, order[j] as nat) && unclaimed(
            g,
            order,
            i,
            order[j] as nat,
        ) implies after.contains_key(#[trigger] order[j]) by {
        if j > i {
            assert(unclaimed(g, order, i + 1, order[j] as nat));
            assert(before.contains_key(order[j]));
            if g.kids(order[i] as nat).contains(order[j] as nat) {
                assert(g.edge(order[i] as nat, order[j] as nat));
            }
        }
    }
}

} // verus!
