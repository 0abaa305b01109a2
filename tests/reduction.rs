use ddebug::builder::{BuildError, BuildErros};
use ddebug::generator::{CodeGenerator, CodeGeneratorError};
use ddebug::graph::{GraphBuilder, SyntaxTree};
use ddebug::parser::{AbstractSyntaxTree, AstNode, NodeKind};
use ddebug::remover::NodeRemover;
use ddebug::searcher::{seed, Reduction};
use petgraph::graph::NodeIndex;
use petgraph::visit::Dfs;
use syn::visit::{self, Visit};

/// Enters and leaves the builder around each tracked piece of syntax.
struct Walker {
    builder: GraphBuilder,
}

impl<'ast> Visit<'ast> for Walker {
    fn visit_file(&mut self, n: &'ast syn::File) {
        let p = self.builder.enter(AstNode::SourceRoot(n.clone()));
        visit::visit_file(self, n);
        self.builder.leave(p);
    }
    fn visit_item(&mut self, n: &'ast syn::Item) {
        let p = self.builder.enter(AstNode::Item(n.clone()));
        visit::visit_item(self, n);
        self.builder.leave(p);
    }
    fn visit_item_fn(&mut self, n: &'ast syn::ItemFn) {
        let p = self.builder.enter(AstNode::ItemFn(n.clone()));
        visit::visit_item_fn(self, n);
        self.builder.leave(p);
    }
    fn visit_block(&mut self, n: &'ast syn::Block) {
        let p = self.builder.enter(AstNode::Block(n.clone()));
        visit::visit_block(self, n);
        self.builder.leave(p);
    }
    fn visit_local(&mut self, n: &'ast syn::Local) {
        let p = self.builder.enter(AstNode::LocalStmt(n.clone()));
        visit::visit_local(self, n);
        self.builder.leave(p);
    }
    fn visit_expr_array(&mut self, n: &'ast syn::ExprArray) {
        let p = self.builder.enter(AstNode::ExprArray(n.clone()));
        visit::visit_expr_array(self, n);
        self.builder.leave(p);
    }
    fn visit_expr_assign(&mut self, n: &'ast syn::ExprAssign) {
        let p = self.builder.enter(AstNode::ExprAssign(n.clone()));
        visit::visit_expr_assign(self, n);
        self.builder.leave(p);
    }
    fn visit_expr_let(&mut self, n: &'ast syn::ExprLet) {
        let p = self.builder.enter(AstNode::ExprLet(n.clone()));
        visit::visit_expr_let(self, n);
        self.builder.leave(p);
    }
}

fn build(src: &str) -> SyntaxTree {
    let file = AbstractSyntaxTree::parse(src).unwrap().syn_file();
    let mut walker = Walker { builder: GraphBuilder::new(SyntaxTree::new(), None) };
    walker.visit_file(&file);
    walker.builder.into_syntax_tree()
}

fn kind(tree: &SyntaxTree, v: usize) -> NodeKind {
    let slot = tree.graph.g[NodeIndex::new(v)];
    tree.nodes[slot].kind()
}

// A test util for testing graphs that collects DFS order
fn leaf_nodes(tree: &SyntaxTree) -> Vec<NodeKind> {
    let graph = &tree.graph.g;
    match tree.root_node() {
        Some(root) => {
            let mut dfs = Dfs::new(graph, NodeIndex::new(root));
            let mut leaf = vec![];
            while let Some(next_node) = dfs.next(graph) {
                leaf.push(kind(tree, next_node.index()));
            }
            leaf
        }
        None => vec![],
    }
}

fn vertex_of_kind(tree: &SyntaxTree, k: NodeKind) -> usize {
    tree.graph
        .g
        .node_indices()
        .map(|n| n.index())
        .find(|v| kind(tree, *v) == k)
        .unwrap()
}

fn print(file: &syn::File) -> String {
    prettyplease::unparse(file)
}

fn regenerate(tree: &SyntaxTree) -> Result<String, CodeGeneratorError> {
    let mut generator = CodeGenerator::new();
    generator.generate(&tree.graph, &tree.nodes, tree.root_node().unwrap())
}

#[test]
fn graph_item_item_fn_block() {
    let test_code = r#"fn main() {}"#;
    let graph = build(test_code);
    // root -> item -> item_fn -> block
    assert_eq!(graph.graph.g.node_count(), 4);

    let leaf_node_types = leaf_nodes(&graph);
    let expected_leaf_node_types = vec![
        NodeKind::SourceRoot,
        NodeKind::Item,
        NodeKind::ItemFn,
        NodeKind::Block,
    ];
    assert_eq!(leaf_node_types, expected_leaf_node_types)
}

#[test]
fn graph_multiple_item_item_fn_block() {
    let test_code = r#"
fn test_fn() {}
fn main() {}"#;
    let graph = build(test_code);
    // root -> item -> item_fn -> block
    //     |-> item_fn -> block
    assert_eq!(graph.graph.g.node_count(), 7);

    let leaf_node_types = leaf_nodes(&graph);
    let expected_leaf_node_types = vec![
        NodeKind::SourceRoot,
        NodeKind::Item,
        NodeKind::ItemFn,
        NodeKind::Block,
        NodeKind::Item,
        NodeKind::ItemFn,
        NodeKind::Block,
    ];
    assert_eq!(leaf_node_types, expected_leaf_node_types)
}

#[test]
fn graph_item_item_fn_block_locstmt() {
    let test_code = r#"
fn test_fn() {
    let b = [10, 10];
    a = 10;
}"#;
    let graph = build(test_code);
    // root->item->item_fn->block->local_stmt->expr_assign
    //                          |->expr_array
    assert_eq!(graph.graph.g.node_count(), 7);

    let leaf_node_types = leaf_nodes(&graph);
    let expected_leaf_node_types = vec![
        NodeKind::SourceRoot,
        NodeKind::Item,
        NodeKind::ItemFn,
        NodeKind::Block,
        NodeKind::LocalStmt,
        NodeKind::ExprArray,
        NodeKind::ExprAssign,
    ];
    assert_eq!(leaf_node_types, expected_leaf_node_types)
}

#[test]
fn parse_unparse_parse() {
    let test_code = r#"
fn test_fn() {}
fn main() {}"#;
    let parsed_ast = AbstractSyntaxTree::parse(test_code).unwrap();
    let tree = build(test_code);
    let generated_code = regenerate(&tree).unwrap();

    println!("---");
    println!("{generated_code}");

    let reparsed_ast = AbstractSyntaxTree::parse(generated_code.as_str()).unwrap();

    assert_eq!(parsed_ast, reparsed_ast)
}

#[test]
fn round_trip_keeps_statements_in_order() {
    let src = "fn f() {\n    let a = 1;\n    let b = [1, 2];\n    a = 2;\n}\n";
    let tree = build(src);
    let text = regenerate(&tree).unwrap();
    assert_eq!(text, "fn f() {\n    let a = 1;\n    let b = [1, 2];\n    a = 2;\n}\n");
    let again = AbstractSyntaxTree::parse(text.as_str()).unwrap();
    assert_eq!(again.items.len(), 1);
}

#[test]
fn built_tree_has_a_single_source_root() {
    let tree = build("fn a() { let x = [1]; }\nfn b() {}");
    let root = tree.root_node().unwrap();
    assert_eq!(kind(&tree, root), NodeKind::SourceRoot);
    let g = &tree.graph.g;
    for n in g.node_indices() {
        let parents = g.neighbors_directed(n, petgraph::Direction::Incoming).count();
        if n.index() == root {
            assert_eq!(parents, 0);
        } else {
            assert_eq!(parents, 1);
        }
    }
    assert_eq!(leaf_nodes(&tree).len(), g.node_count());
}

#[test]
fn builder_refuses_a_second_root() {
    let file = AbstractSyntaxTree::parse("fn a() {}").unwrap().syn_file();
    let mut builder = GraphBuilder::new(SyntaxTree::new(), None);
    let p = builder.enter(AstNode::SourceRoot(file.clone()));
    builder.leave(p);
    let q = builder.enter(AstNode::SourceRoot(file));
    assert_eq!(q, None);
    assert_eq!(builder.syntax_tree().graph.g.node_count(), 1);
}

#[test]
fn empty_source_builds_root_only() {
    let tree = build("");
    assert_eq!(tree.graph.g.node_count(), 1);
    assert_eq!(kind(&tree, tree.root_node().unwrap()), NodeKind::SourceRoot);
    let master = BuildError {
        error_code: Some("E0601".to_string()),
        source_file: Some("src/main.rs".to_string()),
        error_src: "error[E0601]: `main` function not found".to_string(),
    };
    let mut reduction = Reduction::new(tree, master).unwrap();
    assert!(reduction.frontier.is_empty());
    assert!(reduction.next_candidate().is_none());
    assert_eq!(print(&reduction.finish().unwrap()), "");
}

#[test]
fn remove_node_deletes_the_subtree() {
    let mut tree = build("fn f() { let b = [1, 2]; let c = 3; }");
    let local = vertex_of_kind(&tree, NodeKind::LocalStmt);
    let array = vertex_of_kind(&tree, NodeKind::ExprArray);
    let block = vertex_of_kind(&tree, NodeKind::Block);
    let before = tree.graph.g.node_count();
    let mut removed = NodeRemover::remove_node(&mut tree.graph, block);
    assert_eq!(removed[0], block);
    removed.sort();
    assert_eq!(removed.len(), 4);
    assert!(removed.contains(&local) && removed.contains(&array));
    assert_eq!(tree.graph.g.node_count(), before - 4);
    assert!(!tree.graph.g.contains_node(NodeIndex::new(array)));
    assert_eq!(leaf_nodes(&tree).len(), tree.graph.g.node_count());
}

#[test]
fn remove_node_keeps_sibling_order() {
    let mut tree = build("fn f() { let a = 1; let b = 2; let c = 3; }");
    let block = vertex_of_kind(&tree, NodeKind::Block);
    let kids = tree.graph.targets(block);
    assert_eq!(kids.len(), 3);
    NodeRemover::remove_node(&mut tree.graph, kids[1]);
    assert_eq!(tree.graph.targets(block), vec![kids[0], kids[2]]);
    assert_eq!(regenerate(&tree).unwrap(), "fn f() {\n    let a = 1;\n    let c = 3;\n}\n");
}

#[test]
fn deleting_only_statement_leaves_empty_block() {
    let mut tree = build("fn f() { let a = 1; }");
    let local = vertex_of_kind(&tree, NodeKind::LocalStmt);
    NodeRemover::remove_node(&mut tree.graph, local);
    assert_eq!(regenerate(&tree).unwrap(), "fn f() {}\n");
}

#[test]
fn function_without_block_gets_empty_block() {
    let file = AbstractSyntaxTree::parse("fn f() { let a = 1; }").unwrap().syn_file();
    let item = file.items[0].clone();
    let item_fn = match &item {
        syn::Item::Fn(f) => f.clone(),
        _ => unreachable!(),
    };
    let mut builder = GraphBuilder::new(SyntaxTree::new(), None);
    let p0 = builder.enter(AstNode::SourceRoot(file));
    let p1 = builder.enter(AstNode::Item(item));
    let p2 = builder.enter(AstNode::ItemFn(item_fn));
    builder.leave(p2);
    builder.leave(p1);
    builder.leave(p0);
    let tree = builder.into_syntax_tree();
    assert_eq!(regenerate(&tree).unwrap(), "fn f() {}\n");
}

#[test]
fn removed_block_regenerates_as_empty_body() {
    let mut tree = build("fn f() { let a = 1; }\nfn g() {}");
    let block = vertex_of_kind(&tree, NodeKind::Block);
    NodeRemover::remove_node(&mut tree.graph, block);
    let text = regenerate(&tree).unwrap();
    assert!(text.contains("fn f() {}"));
    assert!(text.contains("fn g() {}"));
}

#[test]
fn item_without_function_is_not_regenerable() {
    let tree = build("struct S;\nfn main() {}");
    assert_eq!(regenerate(&tree), Err(CodeGeneratorError::SourceRootDoesNotHaveItemChild));
}

#[test]
fn removed_function_is_not_regenerable() {
    let mut tree = build("fn main() {}");
    let f = vertex_of_kind(&tree, NodeKind::ItemFn);
    NodeRemover::remove_node(&mut tree.graph, f);
    assert_eq!(regenerate(&tree), Err(CodeGeneratorError::SourceRootDoesNotHaveItemChild));
}

#[test]
fn nested_block_is_a_mismatch() {
    let tree = build("fn f() { { let a = 1; } }");
    assert_eq!(
        regenerate(&tree),
        Err(CodeGeneratorError::MismatchedASTConversion("block".to_string(), "stmt".to_string()))
    );
}

#[test]
fn missing_root_is_reported() {
    let tree = build("fn f() {}");
    let mut generator = CodeGenerator::new();
    let r = generator.generate(&tree.graph, &tree.nodes, 99);
    assert_eq!(r, Err(CodeGeneratorError::RootNodeMissingInSyntaxTree));
}

#[test]
fn root_that_is_not_a_file_is_reported() {
    let tree = build("fn f() {}");
    let item = vertex_of_kind(&tree, NodeKind::Item);
    let mut generator = CodeGenerator::new();
    let r = generator.generate(&tree.graph, &tree.nodes, item);
    assert_eq!(r, Err(CodeGeneratorError::FileNotGeneratedFromTree));
}

#[test]
fn empty_file_regenerates_empty() {
    let tree = build("");
    assert_eq!(regenerate(&tree).unwrap(), "");
}

fn e0384() -> BuildErros {
    BuildErros {
        errors: vec![BuildError {
            error_code: Some("E0384".to_string()),
            source_file: Some("src/main.rs".to_string()),
            error_src: "error[E0384]: cannot assign twice to immutable variable `a`".to_string(),
        }],
    }
}

/// Stands in for the build: E0384 as long as the binding of `a` and the second
/// assignment to it are both there.
fn oracle(text: &str) -> BuildErros {
    let normal: String = text.split_whitespace().collect::<Vec<_>>().join(" ");
    if normal.contains("let a = 1;") && normal.contains("a = 2") {
        e0384()
    } else {
        BuildErros { errors: vec![] }
    }
}

/// Runs the search loop against `oracle`; returns the final text and the
/// number of accepted deletions.
fn reduce(src: &str) -> (String, usize) {
    let master = seed(oracle(src)).unwrap().unwrap();
    let tree = build(src);
    let mut reduction = Reduction::new(tree, master).unwrap();
    let mut accepted = 0;
    let mut tried = 0;
    while let Some(file) = reduction.next_candidate() {
        let text = print(&file);
        tried += 1;
        assert!(tried <= reduction.frontier.len());
        if reduction.record_outcome(&oracle(&text)) {
            accepted += 1;
        }
    }
    (print(&reduction.finish().unwrap()), accepted)
}

#[test]
fn single_assignment_error_is_reduced() {
    let src = "fn main() {\n    let a = 1;\n    println!(\"{}\", a);\n    a = 2;\n}\n";
    let master = seed(oracle(src)).unwrap().unwrap();
    assert_eq!(master.error_code, Some("E0384".to_string()));
    let (text, _) = reduce(src);
    assert_eq!(text, "fn main() {\n    let a = 1;\n    a = 2;\n}\n");
    assert!(oracle(&text).errors[0].same_signature(&master));
}

#[test]
fn irrelevant_statement_is_removed() {
    let src = "fn f() { let a = 1; let b = [1,2]; a = 2; }";
    let (text, accepted) = reduce(src);
    assert!(accepted >= 1);
    assert_eq!(text, "fn f() {\n    let a = 1;\n    a = 2;\n}\n");
    assert_eq!(oracle(&text).errors[0].error_code, Some("E0384".to_string()));
}

#[test]
fn reduction_reaches_a_fixpoint() {
    let src = "fn f() { let a = 1; let b = [1,2]; a = 2; }\nfn g() { let c = 3; }";
    let (once, _) = reduce(src);
    let (twice, accepted) = reduce(&once);
    assert_eq!(accepted, 0);
    assert_eq!(once, twice);
}

#[test]
fn rejected_candidate_keeps_the_tree() {
    let src = "fn f() { let a = 1; a = 2; }";
    let master = seed(oracle(src)).unwrap().unwrap();
    let mut reduction = Reduction::new(build(src), master).unwrap();
    let first = print(&reduction.next_candidate().unwrap());
    assert_eq!(first, "");
    assert!(!reduction.record_outcome(&BuildErros { errors: vec![] }));
    assert!(reduction.pending.is_none());
    assert_eq!(print(&reduction.finish().unwrap()), "fn f() {\n    let a = 1;\n    a = 2;\n}\n");
}

#[test]
fn no_candidate_pending_changes_nothing() {
    let src = "fn f() { let a = 1; a = 2; }";
    let master = seed(oracle(src)).unwrap().unwrap();
    let mut reduction = Reduction::new(build(src), master).unwrap();
    assert!(!reduction.record_outcome(&e0384()));
    assert_eq!(reduction.next, 0);
}

#[test]
fn frontier_is_breadth_first_without_root() {
    let tree = build("fn a() { let x = 1; }\nfn b() {}");
    let kinds_of = |t: &SyntaxTree, vs: &[usize]| vs.iter().map(|v| kind(t, *v)).collect::<Vec<_>>();
    let master = e0384().errors.remove(0);
    let root = tree.root_node().unwrap();
    let reduction = Reduction::new(tree, master).unwrap();
    assert!(!reduction.frontier.contains(&root));
    assert_eq!(
        kinds_of(&reduction.tree, &reduction.frontier),
        vec![
            NodeKind::Item,
            NodeKind::Item,
            NodeKind::ItemFn,
            NodeKind::ItemFn,
            NodeKind::Block,
            NodeKind::Block,
            NodeKind::LocalStmt,
        ]
    );
}

#[test]
fn candidates_are_tried_once_in_order() {
    let src = "fn a() { let x = 1; }\nfn b() {}";
    let master = e0384().errors.remove(0);
    let mut reduction = Reduction::new(build(src), master).unwrap();
    let frontier = reduction.frontier.clone();
    let mut seen = vec![];
    let mut skipped_before = 0;
    while let Some(_) = reduction.next_candidate() {
        let v = reduction.pending.as_ref().unwrap().vertex;
        assert!(!seen.contains(&v));
        seen.push(v);
        assert!(reduction.skip.len() >= skipped_before);
        skipped_before = reduction.skip.len();
        reduction.record_outcome(&BuildErros { errors: vec![] });
    }
    // Deleting an `ItemFn` leaves an item that does not regenerate, so those
    // two are passed over; every other vertex is tried once, in order.
    let expected: Vec<usize> = frontier
        .iter()
        .copied()
        .filter(|v| kind(&reduction.tree, *v) != NodeKind::ItemFn)
        .collect();
    assert_eq!(seen, expected);
    assert_eq!(reduction.next, frontier.len());
    assert_eq!(reduction.skip.len(), frontier.len());
}

#[test]
fn accepted_candidate_skips_its_subtree() {
    let src = "fn f() { let a = 1; let b = [1, 2]; a = 2; }";
    let master = seed(oracle(src)).unwrap().unwrap();
    let mut reduction = Reduction::new(build(src), master).unwrap();
    let array = vertex_of_kind(&reduction.tree, NodeKind::ExprArray);
    loop {
        let text = print(&reduction.next_candidate().unwrap());
        let v = reduction.pending.as_ref().unwrap().vertex;
        let k = kind(&reduction.tree, v);
        let accepted = reduction.record_outcome(&oracle(&text));
        if k == NodeKind::LocalStmt && accepted {
            break;
        }
    }
    assert!(reduction.skip.contains(&array));
    assert!(!reduction.tree.graph.g.contains_node(NodeIndex::new(array)));
}

#[test]
fn become_expression_regenerates() {
    let tree = build("fn f() { let a = become g(); }");
    let text = regenerate(&tree).unwrap();
    assert!(text.contains("become g()"));
}

#[test]
fn empty_body_keeps_function_header() {
    let mut tree = build("#[inline]\npub fn f(x: u8) -> u8 { let a = 1; }");
    let local = vertex_of_kind(&tree, NodeKind::LocalStmt);
    NodeRemover::remove_node(&mut tree.graph, local);
    assert_eq!(regenerate(&tree).unwrap(), "#[inline]\npub fn f(x: u8) -> u8 {}\n");
}

#[test]
fn generator_result_does_not_depend_on_earlier_calls() {
    let a = build("fn a() { let x = 1; }");
    let b = build("fn b() { let y = [2]; }");
    let mut used = CodeGenerator::new();
    let _ = used.generate(&a.graph, &a.nodes, a.root_node().unwrap());
    let fresh = CodeGenerator::new().generate(&b.graph, &b.nodes, b.root_node().unwrap());
    let again = used.generate(&b.graph, &b.nodes, b.root_node().unwrap());
    assert_eq!(fresh, again);
}

#[test]
fn body_is_the_last_block_child() {
    let tree = build("fn f(x: [u8; { 3 }]) { let a = 1; }");
    let text = regenerate(&tree).unwrap();
    assert!(text.contains("let a = 1;"));
}

#[test]
fn mismatch_names_a_fixed_kind() {
    let tree = build("fn f() { { let a = 1; } fn g() {} }");
    let mut used = CodeGenerator::new();
    let first = used.generate(&tree.graph, &tree.nodes, tree.root_node().unwrap());
    let second = used.generate(&tree.graph, &tree.nodes, tree.root_node().unwrap());
    assert_eq!(
        first,
        Err(CodeGeneratorError::MismatchedASTConversion("item".to_string(), "stmt".to_string()))
    );
    assert_eq!(first, second);
}

#[test]
fn generate_file_matches_generate() {
    let tree = build("fn f() { let a = [1]; }");
    let file = CodeGenerator::new()
        .generate_file(&tree.graph, &tree.nodes, tree.root_node().unwrap())
        .unwrap();
    assert_eq!(print(&file), regenerate(&tree).unwrap());
    assert!(file.shebang.is_none());
}
