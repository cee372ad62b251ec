//! The syntax tree that the extractor walks.
//!
//! A `SyntaxNode` holds, as plain values, everything the route-name logic
//! reads of a parsed node: its grammar category (`kind`), the text of its
//! span, and its children in source order.  The only trusted step is the
//! call into tree-sitter that parses a source text and copies the resulting
//! tree into this shape; every decision taken on the tree is verified.

use vstd::prelude::*;

verus! {

/// One node of a parsed source file: its grammar category, the text of its
/// byte span, and its immediate children in source order.
pub struct SyntaxNode {
    /// The grammar category of the node, e.g. `call` or `identifier`.
    pub kind: String,
    /// The source text covered by the node's span.
    pub text: String,
    /// The immediate children, in source order.
    pub children: Vec<SyntaxNode>,
}

/// The syntax tree that parsing a source text yields, or `None` where the
/// parser yields no tree.  Parsing is a function of the source text alone:
/// the grammar is fixed at build time, and no configuration, clock or
/// environment enters the call.  Nothing further is assumed of the value;
/// the extractor is verified for every tree.
pub uninterp spec fn python_tree(s: Seq<char>) -> Option<SyntaxNode>;

#[verifier::external_type_specification]
#[verifier::external_body]
pub struct ExNode<'a>(tree_sitter::Node<'a>);

/// Relies on `tree_sitter::Node`: `kind` is the node's grammar category,
/// `byte_range` is its span in the source bytes, and `children` enumerates
/// its immediate children in order.  Copies one node, one for one, into the
/// library's own shape; called only from `parse_python` below.
#[verifier::external_body]
fn convert_node<'a>(node: tree_sitter::Node<'a>, source: &str) -> SyntaxNode {
    SyntaxNode {
        kind: node.kind().to_string(),
        text: source.get(node.byte_range()).unwrap_or("").to_string(),
        children: node.children(&mut node.walk()).map(|c| convert_node(c, source)).collect(),
    }
}

/// Relies on `tree_sitter::Parser` with the `tree_sitter_python` grammar:
/// `parse` builds the concrete syntax tree of `source`, deterministically in
/// the source text, and returns `None` only on catastrophic failure.
#[verifier::external_body]
pub fn parse_python(source: &str) -> (r: Option<SyntaxNode>)
    ensures
        r == python_tree(source@),
{
    let mut parser = tree_sitter::Parser::new();
    if parser.set_language(&tree_sitter_python::LANGUAGE.into()).is_err() {
        return None;
    }
    let tree = parser.parse(source, None)?;
    Some(convert_node(tree.root_node(), source))
}

} // verus!
