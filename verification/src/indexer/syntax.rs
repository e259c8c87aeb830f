//! The Python syntax tree, as tree-sitter builds it, seen as plain values: the
//! nodes in pre-order, each with its kind, byte range, rows, the byte range of
//! its `name` field and its depth below the root.
use tree_sitter::StreamingIterator;
use vstd::prelude::*;

verus! {

/// Declares `tree_sitter::Tree` to Verus, as an opaque type.
#[verifier::external_type_specification]
#[verifier::external_body]
pub struct ExTree(tree_sitter::Tree);

/// A tree-sitter syntax tree together with the source text it was parsed from.
pub struct PythonTree {
    tree: tree_sitter::Tree,
    text: String,
}

impl View for PythonTree {
    type V = Seq<char>;

    /// The source text the tree was parsed from.
    closed spec fn view(&self) -> Seq<char> {
        self.text@
    }
}

/// One node of a syntax tree.
pub struct SyntaxNode {
    pub kind: String,
    pub start_byte: usize,
    pub end_byte: usize,
    pub start_row: usize,
    pub end_row: usize,
    /// Byte range of the child in the node's `name` field, if it has one.
    pub name_range: Option<(usize, usize)>,
    /// Number of ancestors of the node (0 for the root).
    pub depth: usize,
}

/// A node of a syntax tree as a mathematical value.
pub struct NodeView {
    pub kind: Seq<char>,
    pub start_byte: usize,
    pub end_byte: usize,
    pub start_row: usize,
    pub end_row: usize,
    pub name_range: Option<(usize, usize)>,
    pub depth: usize,
}

impl View for SyntaxNode {
    type V = NodeView;

    open spec fn view(&self) -> NodeView {
        NodeView {
            kind: self.kind@,
            start_byte: self.start_byte,
            end_byte: self.end_byte,
            start_row: self.start_row,
            end_row: self.end_row,
            name_range: self.name_range,
            depth: self.depth,
        }
    }
}

pub open spec fn nodes_view(nodes: Seq<SyntaxNode>) -> Seq<NodeView> {
    nodes.map_values(|n: SyntaxNode| n@)
}

/// Number of nodes (the root included) of the tree that tree-sitter's Python
/// grammar gives the source.
pub uninterp spec fn python_node_count(source: Seq<char>) -> usize;

/// The node at a pre-order index of the tree that tree-sitter's Python grammar
/// gives the source, with the byte range of its child in the given field.
pub uninterp spec fn python_node_at(source: Seq<char>, index: usize, field: Seq<char>) -> NodeView;

/// The byte ranges of the nodes captured by a tree-sitter query pattern on the
/// Python tree of the source, in the order the query cursor reports them
/// (match by match, capture by capture); `None` when the pattern does not compile.
pub uninterp spec fn python_query_captures(source: Seq<char>, pattern: Seq<char>) -> Option<
    Seq<(usize, usize)>,
>;

/// All nodes of the Python tree of the source, in pre-order.
pub open spec fn python_nodes(source: Seq<char>) -> Seq<NodeView> {
    Seq::new(
        python_node_count(source) as nat,
        |i: int| python_node_at(source, i as usize, "name"@),
    )
}

/// Parses the source with tree-sitter's Python grammar (`Parser::new`,
/// `Parser::set_language` with `tree_sitter_python::LANGUAGE`, `Parser::parse`).
/// Claimed: a tree always comes back, holding the text it was parsed from
/// (`set_language` accepts the grammar's ABI version, and `parse` gives no tree
/// only when no language is set, a wasm grammar fails or a progress callback
/// cancels, none of which can happen here).
#[verifier::external_body]
pub(crate) fn parse_python(source: &String) -> (res: Option<PythonTree>)
    ensures
        res is Some,
        res matches Some(t) ==> t@ == source@,
{
    let mut parser = tree_sitter::Parser::new();
    parser.set_language(&tree_sitter_python::LANGUAGE.into()).ok()?;
    let tree = parser.parse(source.as_str(), None)?;
    Some(PythonTree { tree, text: source.clone() })
}

/// `Node::descendant_count` on the tree's root. Claimed: the number of nodes of
/// the tree, which depends on the source text alone (named `python_node_count`).
#[verifier::external_body]
fn node_count(t: &PythonTree) -> (n: usize)
    ensures
        n == python_node_count(t@),
{
    t.tree.root_node().descendant_count()
}

/// `TreeCursor::goto_descendant` then `TreeCursor::node`, `Node::kind`,
/// `Node::start_byte`, `Node::end_byte`, `Node::start_position`,
/// `Node::end_position`, `Node::child_by_field_name(field)` and
/// `TreeCursor::depth`, copied into plain values. Claimed: the node at that
/// pre-order index, which depends on the source text, the index and the field
/// name alone (named `python_node_at`); the index must be below the node count.
#[verifier::external_body]
fn node_at(t: &PythonTree, index: usize, field: &str) -> (n: SyntaxNode)
    requires
        index < python_node_count(t@),
    ensures
        n@ == python_node_at(t@, index, field@),
{
    let mut c = t.tree.walk();
    c.goto_descendant(index);
    let n = c.node();
    let name = match n.child_by_field_name(field) {
        Some(m) => Some((m.start_byte(), m.end_byte())),
        None => None,
    };
    let (start_row, end_row) = (n.start_position().row, n.end_position().row);
    SyntaxNode {
        kind: n.kind().to_string(), start_byte: n.start_byte(), end_byte: n.end_byte(),
        start_row, end_row, name_range: name, depth: c.depth() as usize,
    }
}

/// `Query::new` on the Python grammar, then `QueryCursor::matches` over the
/// root with the source text; the loop copies each `QueryCapture`'s node byte
/// range out of tree-sitter's match stream. Claimed: the ranges depend on the
/// source text and the pattern alone (named `python_query_captures`), and `None`
/// comes exactly when that name is `None` (the pattern does not compile).
#[verifier::external_body]
pub(crate) fn query_captures(t: &PythonTree, pattern: &str) -> (res: Option<Vec<(usize, usize)>>)
    ensures
        match res {
            Some(v) => python_query_captures(t@, pattern@) == Some(v@),
            None => python_query_captures(t@, pattern@) is None,
        },
{
    let query = tree_sitter::Query::new(&tree_sitter_python::LANGUAGE.into(), pattern).ok()?;
    let mut cursor = tree_sitter::QueryCursor::new();
    let mut matches = cursor.matches(&query, t.tree.root_node(), t.text.as_bytes());
    let mut ranges = Vec::new();
    while let Some(m) = matches.next() {
        for c in m.captures() {
            ranges.push((c.node.start_byte(), c.node.end_byte()));
        }
    }
    Some(ranges)
}

/// All nodes of a parsed tree, in pre-order.
pub fn syntax_nodes(t: &PythonTree) -> (r: Vec<SyntaxNode>)
    ensures
        nodes_view(r@) == python_nodes(t@),
{
    let n = node_count(t);
    let mut r: Vec<SyntaxNode> = Vec::new();
    let mut i: usize = 0;
    while i < n
        invariant
            i <= n,
            n == python_node_count(t@),
            r@.len() == i,
            forall|j: int| 0 <= j < i ==> (#[trigger] r@[j])@ == python_node_at(t@, j as usize, "name"@),
        decreases n - i,
    {
        let node = node_at(t, i, "name");
        r.push(node);
        i = i + 1;
    }
    assert(nodes_view(r@) =~= python_nodes(t@));
    r
}

} // verus!
