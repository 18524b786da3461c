//! An open file.

use vstd::prelude::*;

use crate::position::TextRange;
use crate::syntax;
use crate::syntax::Node;
use crate::text;

verus! {

/// An open file: its text, and the nodes of the tree that the text parses to.
#[derive(Debug, PartialEq, Eq)]
pub struct Document {
    text: String,
    nodes: Vec<Node>,
}

/// Whether a text is one that is parsed, with a tree whose nodes stand where
/// they say. The text of every open document is.
pub open spec fn is_parsed(code: Seq<char>) -> bool {
    let nodes = syntax::nodes_of(code);
    &&& text::measurable(code)
    &&& syntax::nested(nodes)
    &&& syntax::spelt_out(code, nodes)
    &&& forall|i: int| 0 <= i < nodes.len() ==> (#[trigger] nodes[i]).range.ordered()
}

impl View for Document {
    type V = Seq<char>;

    /// A document is its text.
    closed spec fn view(&self) -> Seq<char> {
        self.text@
    }
}

impl Document {
    #[verifier::type_invariant]
    spec fn well_formed(self) -> bool {
        &&& text::measurable(self.text@)
        &&& self.nodes.deep_view() == syntax::nodes_of(self.text@)
        &&& self.nodes@.len() >= 1
        &&& self.nodes@[0].range == (TextRange {
            start: 0,
            end: text::byte_len(self.text@) as u32,
        })
        &&& syntax::spelt_out(self.text@, self.nodes.deep_view())
        &&& syntax::nested(self.nodes.deep_view())
        &&& forall|i: int|
            0 <= i < self.nodes@.len() ==> (#[trigger] self.nodes@[i]).range.ordered()
    }

    /// Parses a text.
    pub fn new(text: String) -> (r: Document)
        requires
            text::measurable(text@),
        ensures
            r@ == text@,
    {
        let nodes = syntax::parse_nodes(text.as_str());
        Document { text, nodes }
    }

    /// The text.
    pub fn text(&self) -> (r: &str)
        ensures
            r@ == self@,
            text::measurable(self@),
            is_parsed(self@),
    {
        proof {
            use_type_invariant(self);
            let nodes = syntax::nodes_of(self.text@);
            assert forall|i: int| 0 <= i < nodes.len() implies (
            #[trigger] nodes[i]).range.ordered() by {
                assert(nodes[i] == self.nodes@[i].deep_view());
            }
        }
        self.text.as_str()
    }

    /// The nodes of the syntax tree. Its identifiers stand in the text, its
    /// subtrees are nested, and no node ends before it begins.
    pub fn nodes(&self) -> (r: &Vec<Node>)
        ensures
            r.deep_view() == syntax::nodes_of(self@),
            syntax::spelt_out(self@, r.deep_view()),
            syntax::nested(r.deep_view()),
            forall|i: int|
                0 <= i < r@.len() ==> (#[trigger] r@[i]).range.ordered(),
    {
        proof {
            use_type_invariant(self);
        }
        &self.nodes
    }

    /// The bytes that the root of the syntax tree covers, which are all.
    pub fn root_range(&self) -> (r: TextRange)
        ensures
            r == (TextRange { start: 0, end: text::byte_len(self@) as u32 }),
    {
        proof {
            use_type_invariant(self);
        }
        self.nodes[0].range
    }
}

} // verus!
