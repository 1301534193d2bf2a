//! A plain-value model of a parse tree, and the trusted bridge that fills it
//! from the Java grammar.
//!
//! Parse-tree nodes of the parser library borrow from its tree; the chunking
//! logic instead works on this owned copy. The bridge promises only that it
//! is deterministic in the content; the geometry (`wf`) and brace placement
//! (`braced`) that the chunker relies on are established by the verified
//! checks below, which callers run on the returned tree themselves.

use vstd::prelude::*;
use vstd::string::StringSliceAdditionalSpecFns;

verus! {

/// Opening brace byte (`{`).
pub const OPEN_BRACE: u8 = 123;

/// Closing brace byte (`}`).
pub const CLOSE_BRACE: u8 = 125;

/// One node of a parse tree, as plain values: its grammar-rule name as the
/// bytes of that name, its byte span, its line/column position, and its
/// children in source order.
pub struct SyntaxNode {
    pub kind: Vec<u8>,
    pub start_byte: usize,
    pub end_byte: usize,
    pub start_row: usize,
    pub start_col: usize,
    pub end_row: usize,
    pub children: Vec<SyntaxNode>,
}

impl SyntaxNode {
    /// Geometric soundness of a tree over a text of `len` bytes: spans lie in
    /// the text, children are nested within their parent and ordered, and
    /// line numbers follow byte positions.
    pub open spec fn wf(self, len: int) -> bool
        decreases self,
    {
        &&& self.start_byte <= self.end_byte <= len
        &&& self.start_col <= self.start_byte
        &&& self.start_row <= self.end_row
        &&& forall|i: int|
            0 <= i < self.children@.len() ==> (#[trigger] self.children@[i]).wf(len)
        &&& forall|i: int|
            0 <= i < self.children@.len() ==> {
                let c = #[trigger] self.children@[i];
                &&& c.start_byte >= self.start_byte
                &&& c.end_byte <= self.end_byte
                &&& c.start_row >= self.start_row
                &&& c.end_row <= self.end_row
            }
        &&& forall|i: int, j: int|
            0 <= i < j < self.children@.len() ==> {
                let a = #[trigger] self.children@[i];
                let b = #[trigger] self.children@[j];
                &&& a.end_byte <= b.start_byte
                &&& a.end_row <= b.start_row
            }
    }

    /// Body nodes of the grammar begin with an opening brace and end with a
    /// closing brace, throughout the tree.
    pub open spec fn braced(self, content: Seq<u8>) -> bool
        decreases self,
    {
        &&& (self.kind@ == "class_body".spec_bytes() || self.kind@ == "interface_body".spec_bytes()
            || self.kind@ == "record_body".spec_bytes() || self.kind@ == "block".spec_bytes()
            || self.kind@ == "constructor_body".spec_bytes()) ==> {
            &&& self.start_byte + 2 <= self.end_byte <= content.len()
            &&& content[self.start_byte as int] == OPEN_BRACE
            &&& content[self.end_byte - 1] == CLOSE_BRACE
        }
        &&& forall|i: int|
            0 <= i < self.children@.len() ==> (#[trigger] self.children@[i]).braced(content)
    }
}

/// What the parse bridge below hands back for a given text: the Java
/// grammar's tree, converted to plain values, or `None` for a parse
/// failure.
pub uninterp spec fn java_parse(content: Seq<u8>) -> Option<SyntaxNode>;

#[verifier::external_type_specification]
#[verifier::external_body]
pub struct ExNode<'a>(tree_sitter::Node<'a>);

/// Relies on `tree_sitter::Parser::parse` with the grammar of
/// `tree_sitter_java::language()` being deterministic in the content: the
/// same bytes give the same tree. Nothing else is claimed of the tree;
/// callers establish `wf` and `braced` by running `geometry_ok` and
/// `braces_ok` on it in verified code.
#[verifier::external_body]
pub(crate) fn parse_java_source(content: &[u8]) -> (r: Option<SyntaxNode>)
    ensures
        r == java_parse(content@),
{
    let mut parser = tree_sitter::Parser::new();
    if parser.set_language(tree_sitter_java::language()).is_err() {
        return None;
    }
    match parser.parse(content, None) {
        Some(tree) => Some(convert_node(tree.root_node())),
        None => None,
    }
}

proof fn lemma_adjacent_order(children: Seq<SyntaxNode>, len: int, i: int, j: int)
    requires
        forall|k: int| 0 <= k < children.len() ==> (#[trigger] children[k]).wf(len),
        forall|k: int|
            0 <= k < children.len() - 1 ==> (#[trigger] children[k]).end_byte <= children[k
                + 1].start_byte && children[k].end_row <= children[k + 1].start_row,
        0 <= i < j < children.len(),
    ensures
        children[i].end_byte <= children[j].start_byte,
        children[i].end_row <= children[j].start_row,
    decreases j - i,
{
    if i + 1 < j {
        lemma_adjacent_order(children, len, i + 1, j);
        assert(children[i + 1].wf(len));
    }
}

/// Checks the span geometry the chunker relies on: spans within the text,
/// children nested and in source order, line numbers following byte
/// positions.
pub fn geometry_ok(node: &SyntaxNode, len: usize) -> (r: bool)
    ensures
        r == node.wf(len as int),
    decreases *node,
{
    if !(node.start_byte <= node.end_byte && node.end_byte <= len && node.start_col
        <= node.start_byte && node.start_row <= node.end_row) {
        return false;
    }
    let n = node.children.len();
    let mut i: usize = 0;
    while i < n
        invariant
            i <= n,
            n == node.children@.len(),
            node.start_byte <= node.end_byte <= len,
            node.start_col <= node.start_byte,
            node.start_row <= node.end_row,
            forall|k: int| 0 <= k < i ==> (#[trigger] node.children@[k]).wf(len as int),
            forall|k: int|
                0 <= k < i ==> {
                    let c = #[trigger] node.children@[k];
                    &&& c.start_byte >= node.start_byte
                    &&& c.end_byte <= node.end_byte
                    &&& c.start_row >= node.start_row
                    &&& c.end_row <= node.end_row
                },
            forall|k: int|
                0 <= k < i - 1 ==> (#[trigger] node.children@[k]).end_byte <= node.children@[k
                    + 1].start_byte && node.children@[k].end_row <= node.children@[k
                    + 1].start_row,
        decreases n - i,
    {
        let c = &node.children[i];
        if !geometry_ok(c, len) {
            return false;
        }
        if !(c.start_byte >= node.start_byte && c.end_byte <= node.end_byte && c.start_row
            >= node.start_row && c.end_row <= node.end_row) {
            return false;
        }
        if i > 0 {
            let p = &node.children[i - 1];
            if !(p.end_byte <= c.start_byte && p.end_row <= c.start_row) {
                return false;
            }
        }
        i = i + 1;
    }
    proof {
        assert forall|a: int, b: int| 0 <= a < b < node.children@.len() implies {
            let x = #[trigger] node.children@[a];
            let y = #[trigger] node.children@[b];
            x.end_byte <= y.start_byte && x.end_row <= y.start_row
        } by {
            lemma_adjacent_order(node.children@, len as int, a, b);
        }
    }
    true
}

/// Checks that every body node of the grammar spans from an opening brace to
/// a closing brace.
pub fn braces_ok(node: &SyntaxNode, content: &[u8]) -> (r: bool)
    ensures
        r == node.braced(content@),
    decreases *node,
{
    let is_body = crate::text::bytes_eq(node.kind.as_slice(), "class_body".as_bytes())
        || crate::text::bytes_eq(node.kind.as_slice(), "interface_body".as_bytes())
        || crate::text::bytes_eq(node.kind.as_slice(), "record_body".as_bytes())
        || crate::text::bytes_eq(node.kind.as_slice(), "block".as_bytes())
        || crate::text::bytes_eq(node.kind.as_slice(), "constructor_body".as_bytes());
    if is_body {
        if !(node.end_byte <= content.len() && node.start_byte <= node.end_byte && node.end_byte
            - node.start_byte >= 2) {
            return false;
        }
        if !(content[node.start_byte] == OPEN_BRACE && content[node.end_byte - 1] == CLOSE_BRACE) {
            return false;
        }
    }
    let n = node.children.len();
    let mut i: usize = 0;
    while i < n
        invariant
            i <= n,
            n == node.children@.len(),
            forall|k: int| 0 <= k < i ==> (#[trigger] node.children@[k]).braced(content@),
            (node.kind@ == "class_body".spec_bytes() || node.kind@
                == "interface_body".spec_bytes() || node.kind@ == "record_body".spec_bytes()
                || node.kind@ == "block".spec_bytes() || node.kind@
                == "constructor_body".spec_bytes()) ==> {
                &&& node.start_byte + 2 <= node.end_byte <= content@.len()
                &&& content@[node.start_byte as int] == OPEN_BRACE
                &&& content@[node.end_byte - 1] == CLOSE_BRACE
            },
        decreases n - i,
    {
        if !braces_ok(&node.children[i], content) {
            return false;
        }
        i = i + 1;
    }
    true
}

/// Relies on the `tree_sitter::Node` accessors `kind`, `start_byte`,
/// `end_byte`, `start_position`, `end_position`, `child_count` and `child`:
/// copies the node structure into plain values, one node for one node.
#[verifier::external_body]
fn convert_node(node: tree_sitter::Node<'_>) -> SyntaxNode {
    let mut children = Vec::new();
    for i in 0..node.child_count() {
        if let Some(ch) = node.child(i) {
            children.push(convert_node(ch));
        }
    }
    SyntaxNode {
        kind: node.kind().as_bytes().to_vec(),
        start_byte: node.start_byte(),
        end_byte: node.end_byte(),
        start_row: node.start_position().row,
        start_col: node.start_position().column,
        end_row: node.end_position().row,
        children,
    }
}

} // verus!
