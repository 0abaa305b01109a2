use ddebug::parser::AbstractSyntaxTree;

#[test]
fn parser_empty_string() {
    let input_str = "";

    let parsed_ast = AbstractSyntaxTree::parse(input_str).unwrap();
    let expected_ast = AbstractSyntaxTree {
        attributes: vec![],
        items: vec![],
    };

    assert_eq!(parsed_ast, expected_ast)
}

#[test]
fn parser_single_item_without_attribute() {
    let test_code = r#"
fn main() {}"#;
    let parsed_ast = AbstractSyntaxTree::parse(test_code).unwrap();
    assert_eq!(parsed_ast.items.len(), 1);
}

#[test]
fn parser_multiple_item_without_attribute() {
    let test_code = r#"
fn test_fn() {}
fn main() {}"#;
    let parsed_ast = AbstractSyntaxTree::parse(test_code).unwrap();
    assert_eq!(parsed_ast.items.len(), 2);
}

#[test]
fn parser_rejects_invalid_source() {
    let parsed = AbstractSyntaxTree::parse("fn main( {");
    assert!(parsed.is_err());
    assert!(!parsed.unwrap_err().message.is_empty());
}

#[test]
fn parser_keeps_inner_attributes() {
    let parsed = AbstractSyntaxTree::parse("#![allow(unused)]\nfn main() {}").unwrap();
    assert_eq!(parsed.attributes.len(), 1);
    assert_eq!(parsed.items.len(), 1);
}

#[test]
fn parser_syn_file_has_no_shebang() {
    let parsed = AbstractSyntaxTree::parse("#![allow(dead_code)]\nfn main() {}").unwrap();
    let file = parsed.syn_file();
    assert_eq!(file.attrs.len(), 1);
    assert!(file.shebang.is_none());
    assert_eq!(file.items.len(), 1);
}

#[test]
fn syn_file_keeps_attributes_and_items() {
    let parsed = AbstractSyntaxTree::parse("#![allow(dead_code)]\nfn a() {}\nfn b() {}").unwrap();
    let (attrs, items) = (parsed.attributes.clone(), parsed.items.clone());
    let file = parsed.syn_file();
    assert_eq!(file.attrs, attrs);
    assert_eq!(file.items, items);
    assert!(file.shebang.is_none());
}
