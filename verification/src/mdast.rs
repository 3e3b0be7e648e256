//! The Markdown syntax tree, as the `markdown` crate parses it with GFM
//! options, held as plain values.

use markdown::mdast::Node;
use vstd::prelude::*;

verus! {

#[verifier::external_type_specification]
#[verifier::external_body]
pub struct ExNode(Node);

/// The kinds of node that the editor tells apart; every other kind is
/// `Other`. (Math nodes, which the editor would colour as code, never
/// occur: GFM options leave the math constructs off.)
#[derive(Clone, Copy, Debug, PartialEq, Eq, Structural)]
pub enum NodeKind {
    Heading,
    Strong,
    Emphasis,
    Delete,
    Html,
    InlineCode,
    Code,
    Link,
    Image,
    LinkReference,
    ImageReference,
    Definition,
    FootnoteReference,
    FootnoteDefinition,
    Text,
    ThematicBreak,
    Other,
}

/// Where a node sits in the source: the 1-based line it starts on, and
/// the byte offsets of its first byte and of the byte after it.
#[derive(Clone, Copy, Debug, PartialEq, Eq, Structural)]
pub struct SourceRange {
    pub start_line: usize,
    pub start: usize,
    pub end: usize,
}

/// A node of the syntax tree.
#[derive(Debug)]
pub struct MdNode {
    pub kind: NodeKind,
    pub position: Option<SourceRange>,
    pub children: Vec<MdNode>,
}

/// Every block's line number counts from 1, as the parser's do.
pub open spec fn lines_count_from_one(blocks: Seq<MdNode>) -> bool {
    forall|i: int| 0 <= i < blocks.len() ==> ((#[trigger] blocks[i]).position matches Some(pos) ==> pos.start_line >= 1)
}

/// The tree that `markdown::to_mdast` builds from `text` with
/// `ParseOptions::gfm()`, node for node, or `None` where it reports an
/// error.
pub uninterp spec fn gfm_tree(text: Seq<char>) -> Option<MdNode>;

/// Calls `markdown::to_mdast(text, &ParseOptions::gfm())` and converts the
/// tree it returns into plain values. The contract claims that the result
/// is a function of `text` (named by `gfm_tree`), and that the top-level
/// blocks' lines count from 1 (the crate documents `Point::line` as
/// 1-indexed); what else the tree holds for a given text is not stated.
#[verifier::external_body]
pub(crate) fn parse_gfm(text: &str) -> (tree: Option<MdNode>)
    ensures
        tree == gfm_tree(text@),
        tree matches Some(root) ==> lines_count_from_one(root.children@),
{
    markdown::to_mdast(text, &markdown::ParseOptions::gfm()).ok().map(|root| MdNode::from_mdast(&root))
}

impl NodeKind {
    /// Tells the variants of `markdown::mdast::Node` apart; no contract.
    #[verifier::external_body]
    fn of(node: &Node) -> NodeKind {
        match node {
            Node::Heading(_) => NodeKind::Heading, Node::Strong(_) => NodeKind::Strong,
            Node::Emphasis(_) => NodeKind::Emphasis, Node::Delete(_) => NodeKind::Delete,
            Node::Html(_) => NodeKind::Html, Node::InlineCode(_) => NodeKind::InlineCode,
            Node::Code(_) => NodeKind::Code, Node::Link(_) => NodeKind::Link,
            Node::Image(_) => NodeKind::Image, Node::LinkReference(_) => NodeKind::LinkReference,
            Node::ImageReference(_) => NodeKind::ImageReference, Node::Definition(_) => NodeKind::Definition,
            Node::FootnoteReference(_) => NodeKind::FootnoteReference,
            Node::FootnoteDefinition(_) => NodeKind::FootnoteDefinition, Node::Text(_) => NodeKind::Text,
            Node::ThematicBreak(_) => NodeKind::ThematicBreak, _ => NodeKind::Other,
        }
    }
}

impl MdNode {
    /// Converts a node of `markdown::mdast` with its subtree, through
    /// `Node::position` and `Node::children`; no contract.
    #[verifier::external_body]
    fn from_mdast(node: &Node) -> MdNode {
        MdNode {
            kind: NodeKind::of(node),
            position: node.position().map(
                |p| SourceRange { start_line: p.start.line, start: p.start.offset, end: p.end.offset },
            ),
            children: node.children().map_or(Vec::new(), |c| c.iter().map(MdNode::from_mdast).collect()),
        }
    }
}

} // verus!
