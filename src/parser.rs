//! The parser adapter: source text to a syn syntax tree and back, and the
//! syntax payloads that the graph's vertices stand for.
use vstd::prelude::*;

verus! {

#[verifier::external_type_specification]
#[verifier::external_body]
pub struct ExFile(syn::File);

#[verifier::external_type_specification]
#[verifier::external_body]
pub struct ExAttribute(syn::Attribute);

#[verifier::external_type_specification]
#[verifier::external_body]
pub struct ExItem(syn::Item);

#[verifier::external_type_specification]
#[verifier::external_body]
pub struct ExItemFn(syn::ItemFn);

#[verifier::external_type_specification]
#[verifier::external_body]
pub struct ExBlock(syn::Block);

#[verifier::external_type_specification]
#[verifier::external_body]
pub struct ExLocal(syn::Local);

#[verifier::external_type_specification]
#[verifier::external_body]
pub struct ExExprArray(syn::ExprArray);

#[verifier::external_type_specification]
#[verifier::external_body]
pub struct ExExprAssign(syn::ExprAssign);

#[verifier::external_type_specification]
#[verifier::external_body]
pub struct ExExprLet(syn::ExprLet);

#[verifier::external_type_specification]
#[verifier::external_body]
pub struct ExStmt(syn::Stmt);

/// Whether syn accepts the text as a whole source file.
pub uninterp spec fn parses_as_file(text: Seq<char>) -> bool;

/// The structural categories of syntax that the reducer tracks as vertices.
#[derive(PartialEq, Eq, Structural, Clone, Copy, Debug)]
pub enum NodeKind {
    SourceRoot,
    Item,
    ItemFn,
    Block,
    LocalStmt,
    ExprArray,
    ExprAssign,
    ExprLet,
}

impl NodeKind {
    /// The kinds that can stand as a statement of a block.
    pub open spec fn is_statement(self) -> bool {
        self is LocalStmt || self is ExprArray || self is ExprAssign || self is ExprLet
    }

    pub open spec fn spec_name(self) -> Seq<char> {
        match self {
            NodeKind::SourceRoot => "root"@,
            NodeKind::Item => "item"@,
            NodeKind::ItemFn => "item fn"@,
            NodeKind::Block => "block"@,
            NodeKind::LocalStmt => "loc_stmt"@,
            NodeKind::ExprArray => "expr_array"@,
            NodeKind::ExprAssign => "expr_assign"@,
            NodeKind::ExprLet => "expr_let"@,
        }
    }

    /// A short name of the kind, as diagnostics print it.
    pub fn name(&self) -> (r: &'static str)
        ensures
            r@ == self.spec_name(),
    {
        match self {
            NodeKind::SourceRoot => "root",
            NodeKind::Item => "item",
            NodeKind::ItemFn => "item fn",
            NodeKind::Block => "block",
            NodeKind::LocalStmt => "loc_stmt",
            NodeKind::ExprArray => "expr_array",
            NodeKind::ExprAssign => "expr_assign",
            NodeKind::ExprLet => "expr_let",
        }
    }
}

/// A tracked piece of syntax, holding the syn value that it was built from.
pub enum AstNode {
    SourceRoot(syn::File),
    Item(syn::Item),
    ItemFn(syn::ItemFn),
    Block(syn::Block),
    LocalStmt(syn::Local),
    ExprArray(syn::ExprArray),
    ExprAssign(syn::ExprAssign),
    ExprLet(syn::ExprLet),
}

impl AstNode {
    pub open spec fn spec_kind(&self) -> NodeKind {
        match self {
            AstNode::SourceRoot(_) => NodeKind::SourceRoot,
            AstNode::Item(_) => NodeKind::Item,
            AstNode::ItemFn(_) => NodeKind::ItemFn,
            AstNode::Block(_) => NodeKind::Block,
            AstNode::LocalStmt(_) => NodeKind::LocalStmt,
            AstNode::ExprArray(_) => NodeKind::ExprArray,
            AstNode::ExprAssign(_) => NodeKind::ExprAssign,
            AstNode::ExprLet(_) => NodeKind::ExprLet,
        }
    }

    #[verifier::when_used_as_spec(spec_kind)]
    pub fn kind(&self) -> (r: NodeKind)
        ensures
            r == self.spec_kind(),
    {
        match self {
            AstNode::SourceRoot(_) => NodeKind::SourceRoot,
            AstNode::Item(_) => NodeKind::Item,
            AstNode::ItemFn(_) => NodeKind::ItemFn,
            AstNode::Block(_) => NodeKind::Block,
            AstNode::LocalStmt(_) => NodeKind::LocalStmt,
            AstNode::ExprArray(_) => NodeKind::ExprArray,
            AstNode::ExprAssign(_) => NodeKind::ExprAssign,
            AstNode::ExprLet(_) => NodeKind::ExprLet,
        }
    }
}

/// A parsed source file: its inner attributes and its items.
#[derive(Debug, PartialEq, Eq, Clone)]
pub struct AbstractSyntaxTree {
    pub attributes: Vec<syn::Attribute>,
    pub items: Vec<syn::Item>,
}

/// The source text is not a syntactically valid file; holds syn's message.
#[derive(Debug)]
pub struct SyntaxParseError {
    pub message: String,
}

/// The file that syn parses a text into.
pub uninterp spec fn parsed_file(text: Seq<char>) -> syn::File;

/// The inner attributes of a syn file.
pub uninterp spec fn file_attrs(f: syn::File) -> Seq<syn::Attribute>;

/// The items of a syn file.
pub uninterp spec fn file_items(f: syn::File) -> Seq<syn::Item>;

/// Whether a syn file has a shebang line.
pub uninterp spec fn file_has_shebang(f: syn::File) -> bool;

/// The syn file of these attributes and items, without a shebang line.
pub uninterp spec fn file_of(attrs: Seq<syn::Attribute>, items: Seq<syn::Item>) -> syn::File;

/// Relies on `syn::parse_str::<syn::File>`: it accepts exactly the texts that
/// parse as a file, giving the file they parse into, and on the others reports
/// an error (its message is kept).
#[verifier::external_body]
fn parse_file(text: &str) -> (r: Result<syn::File, String>)
    ensures
        r is Ok <==> parses_as_file(text@),
        r matches Ok(f) ==> f == parsed_file(text@),
{
    match syn::parse_str::<syn::File>(text) {
        Ok(file) => Ok(file),
        Err(e) => Err(e.to_string()),
    }
}

/// Relies on the fields of `syn::File`: its inner attributes and its items.
#[verifier::external_body]
fn split_file(file: syn::File) -> (r: (Vec<syn::Attribute>, Vec<syn::Item>))
    ensures
        r.0@ == file_attrs(file),
        r.1@ == file_items(file),
{
    (file.attrs, file.items)
}

/// Relies on `syn::File`'s fields: a file of these attributes and items, with
/// no shebang line.
#[verifier::external_body]
pub(crate) fn file_of_parts(attrs: Vec<syn::Attribute>, items: Vec<syn::Item>) -> (r: syn::File)
    ensures
        r == file_of(attrs@, items@),
        file_attrs(r) == attrs@,
        file_items(r) == items@,
        !file_has_shebang(r),
{
    syn::File { shebang: None, attrs, items }
}

impl AbstractSyntaxTree {
    /// Parses source text into its attributes and items; fails exactly on text
    /// that is not a syntactically valid file.
    pub fn parse(input: &str) -> (r: Result<Self, SyntaxParseError>)
        ensures
            r is Ok <==> parses_as_file(input@),
            r matches Ok(t) ==> t.attributes@ == file_attrs(parsed_file(input@)) && t.items@
                == file_items(parsed_file(input@)),
    {
        match parse_file(input) {
            Ok(file) => {
                let (attributes, items) = split_file(file);
                Ok(AbstractSyntaxTree { attributes, items })
            },
            Err(message) => Err(SyntaxParseError { message }),
        }
    }

    /// The tree as a syn file; a shebang line, if the text had one, is dropped.
    pub fn syn_file(self) -> (r: syn::File)
        ensures
            r == file_of(self.attributes@, self.items@),
            file_attrs(r) == self.attributes@,
            file_items(r) == self.items@,
            !file_has_shebang(r),
    {
        file_of_parts(self.attributes, self.items)
    }
}

} // verus!
