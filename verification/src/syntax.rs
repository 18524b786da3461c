//! What the server reads of a parsed file.
//!
//! Parsing is the work of `rnix`, formatting that of `nixpkgs_fmt`. The tree
//! is kept as the list of its nodes in preorder: the descendants of a node
//! stand right behind it, and its extent says how many they are.

use rnix::parser::ParseError;
use rnix::value::{Anchor as NixAnchor, Value as NixValue};
use rnix::SyntaxKind::TOKEN_PATH;
use vstd::prelude::*;

use crate::layout;
use crate::position::TextRange;
use crate::text;

verus! {

/// The kinds of nodes that the server tells apart.
#[derive(Clone, Copy, Debug, PartialEq, Eq, Structural)]
pub enum NodeKind {
    /// An identifier.
    Identifier,
    /// An attribute selected from a set. The set is the first child, the
    /// attribute the second.
    Select,
    /// The attribute path to the left of a binding. Its components are the
    /// children.
    Key,
    /// A number, a URL or a path without interpolation.
    Literal,
    /// Bindings, and an expression that they hold in.
    LetIn,
    /// Bindings that hold in each other, in the old notation.
    LegacyLet,
    /// A set of bindings.
    AttrSet,
    /// A binding: an attribute path, and a value.
    KeyValue,
    /// Names that are bound to what they mean outside.
    Inherit,
    /// A parameter, and an expression that it holds in.
    Lambda,
    /// A parameter that is a set, taken apart into its attributes.
    Pattern,
    /// An attribute in a pattern. Its name is the first child.
    PatEntry,
    /// A name for the whole of a pattern.
    PatBind,
    /// A string, with what is interpolated in it.
    Text,
    /// What is interpolated in a string or a path.
    Interpolation,
    /// What the grammar has no place for.
    Error,
    /// Any other node.
    Other,
}

/// The kinds of tokens that the server tells apart.
#[derive(Clone, Copy, Debug, PartialEq, Eq, Structural)]
pub enum TokenKind {
    /// White space.
    White,
    /// A comment.
    Comment,
    /// What is no token.
    Error,
    /// A word that is no keyword.
    Word,
    /// A path.
    Path,
    /// A URL.
    Uri,
    /// What opens a string.
    StringStart,
    /// What closes a string.
    StringEnd,
    /// What opens an attribute that is computed.
    DynamicStart,
    /// What closes it.
    DynamicEnd,
    Dot,
    Colon,
    Comma,
    Semicolon,
    ParenClose,
    SquareClose,
    CurlyClose,
    /// The sign of a division.
    Slash,
    /// The sign of a comparison.
    Less,
    /// Any other token.
    Other,
}

/// A token of a text.
#[derive(Debug, PartialEq, Eq)]
pub struct Token {
    pub kind: TokenKind,
    pub text: String,
    /// The bytes that the token covers.
    pub range: TextRange,
    /// The kind of the node that the token belongs to.
    pub within: NodeKind,
    /// The kind of the node that this node belongs to.
    pub above: NodeKind,
}

/// What a token holds.
pub struct TokenView {
    pub kind: TokenKind,
    pub text: Seq<char>,
    pub range: TextRange,
    pub within: NodeKind,
    pub above: NodeKind,
}

impl DeepView for Token {
    type V = TokenView;

    open spec fn deep_view(&self) -> TokenView {
        TokenView {
            kind: self.kind,
            text: self.text@,
            range: self.range,
            within: self.within,
            above: self.above,
        }
    }
}

/// A node of a syntax tree.
#[derive(Debug, PartialEq, Eq)]
pub struct Node {
    pub kind: NodeKind,
    /// The bytes that the node covers.
    pub range: TextRange,
    /// The number of nodes in the subtree, the node itself included.
    pub extent: usize,
    /// The kind of the first token in the subtree. An identifier and a literal
    /// consist of that token.
    pub token_kind: TokenKind,
    /// The text of that token.
    pub token: String,
}

/// What a node holds.
pub struct NodeView {
    pub kind: NodeKind,
    pub range: TextRange,
    pub extent: usize,
    pub token_kind: TokenKind,
    pub token: Seq<char>,
}

impl DeepView for Node {
    type V = NodeView;

    open spec fn deep_view(&self) -> NodeView {
        NodeView {
            kind: self.kind,
            range: self.range,
            extent: self.extent,
            token_kind: self.token_kind,
            token: self.token@,
        }
    }
}

/// The ways in which a file can be malformed, with the bytes at fault.
#[derive(Clone, Copy, Debug, PartialEq, Eq, Structural)]
pub enum ErrorKind {
    /// Something that no rule of the grammar allows.
    Unexpected(TextRange),
    /// More text behind a complete expression.
    UnexpectedExtra(TextRange),
    /// A token other than the ones that could stand there.
    UnexpectedWanted(TextRange),
    /// A pattern that is bound to two names.
    UnexpectedDoubleBind(TextRange),
    /// The end of the file in the middle of an expression.
    UnexpectedEof,
    /// The end of the file where certain tokens could stand.
    UnexpectedEofWanted,
    /// Any other mistake.
    Other,
}

/// A mistake in a file.
#[derive(Debug, PartialEq, Eq)]
pub struct SyntaxError {
    pub kind: ErrorKind,
    pub message: String,
}

/// What a mistake holds.
pub struct SyntaxErrorView {
    pub kind: ErrorKind,
    pub message: Seq<char>,
}

impl DeepView for SyntaxError {
    type V = SyntaxErrorView;

    open spec fn deep_view(&self) -> SyntaxErrorView {
        SyntaxErrorView { kind: self.kind, message: self.message@ }
    }
}

/// What a path in a file is relative to.
#[derive(Clone, Copy, Debug, PartialEq, Eq, Structural)]
pub enum Anchor {
    Absolute,
    /// The directory of the file.
    Relative,
    /// The home directory.
    Home,
    /// The search path, as in `<nixpkgs>`.
    Store,
}

/// The nodes, in preorder, of the tree that `rnix` builds from a text.
pub uninterp spec fn nodes_of(text: Seq<char>) -> Seq<NodeView>;

/// The nodes and tokens, in preorder, of the tree that `rnix` builds from a
/// text, without what the nodes hold.
pub uninterp spec fn elements_of(text: Seq<char>) -> Seq<Option<TokenView>>;

/// The tokens among the elements of a tree.
pub open spec fn tokens_among(elements: Seq<Option<TokenView>>) -> Seq<TokenView>
    decreases elements.len(),
{
    if elements.len() == 0 {
        Seq::empty()
    } else {
        let before = tokens_among(elements.drop_last());
        match elements.last() {
            Some(token) => before.push(token),
            None => before,
        }
    }
}

/// The tokens, in order, of the tree that `rnix` builds from a text.
pub open spec fn tokens_of(text: Seq<char>) -> Seq<TokenView> {
    tokens_among(elements_of(text))
}

/// The mistakes that `rnix` finds in a text.
pub uninterp spec fn errors_of(text: Seq<char>) -> Seq<SyntaxErrorView>;

/// The text that `nixpkgs_fmt` makes of a text.
pub uninterp spec fn formatted(text: Seq<char>) -> Seq<char>;

/// Whether a token stands in a text at a stretch of bytes.
pub open spec fn stands_at(text: Seq<char>, range: TextRange, token: Seq<char>) -> bool {
    exists|i: int|
        #![trigger text.take(i)]
        0 <= i && i + token.len() <= text.len() && text.subrange(i, i + token.len()) == token
            && range.start == text::byte_len(text.take(i)) && range.end == text::byte_len(
            text.take(i + token.len()),
        )
}

/// Whether each identifier and each literal in a tree stands in the text where
/// its node says.
pub open spec fn spelt_out(text: Seq<char>, nodes: Seq<NodeView>) -> bool {
    forall|i: int|
        #![trigger nodes[i]]
        0 <= i < nodes.len() && (nodes[i].kind == NodeKind::Identifier || nodes[i].kind
            == NodeKind::Literal) ==> stands_at(text, nodes[i].range, nodes[i].token)
}

/// Whether a list of nodes is that of a tree in preorder: the subtree of a node
/// lies whole in every subtree that the node lies in, and so do its bytes. What
/// follows a subtree stands behind it in the text.
pub open spec fn nested(nodes: Seq<NodeView>) -> bool {
    &&& forall|i: int|
        0 <= i < nodes.len() ==> 1 <= (#[trigger] nodes[i]).extent <= nodes.len() - i
    &&& forall|i: int, j: int|
        #![trigger nodes[i], nodes[j]]
        0 <= i <= j < nodes.len() && j < i + nodes[i].extent ==> j + nodes[j].extent <= i
            + nodes[i].extent && nodes[i].range.start <= nodes[j].range.start
            && nodes[j].range.end <= nodes[i].range.end
    &&& forall|i: int, j: int|
        #![trigger nodes[i], nodes[j]]
        0 <= i && i + nodes[i].extent <= j < nodes.len() ==> nodes[i].range.end
            <= nodes[j].range.start
}

/// What a path literal refers to: its anchor, and the path from there. An
/// opening bracket must be closed.
pub open spec fn path_of(token: Seq<char>) -> Option<(Anchor, Seq<char>)> {
    if token.len() > 0 && token[0] == '<' {
        if token.len() >= 2 && token.last() == '>' {
            Some((Anchor::Store, token.subrange(1, token.len() - 1)))
        } else {
            None
        }
    } else if token.len() >= 2 && token[0] == '~' && token[1] == '/' {
        Some((Anchor::Home, token.skip(2)))
    } else if token.len() > 0 && token[0] == '/' {
        Some((Anchor::Absolute, token))
    } else {
        Some((Anchor::Relative, token))
    }
}

/// The kind of node that a name of `rnix` stands for.
pub open spec fn kind_named(name: Seq<char>) -> NodeKind {
    if name == "NODE_IDENT"@ {
        NodeKind::Identifier
    } else if name == "NODE_SELECT"@ {
        NodeKind::Select
    } else if name == "NODE_KEY"@ {
        NodeKind::Key
    } else if name == "NODE_LITERAL"@ {
        NodeKind::Literal
    } else if name == "NODE_LET_IN"@ {
        NodeKind::LetIn
    } else if name == "NODE_LEGACY_LET"@ {
        NodeKind::LegacyLet
    } else if name == "NODE_ATTR_SET"@ {
        NodeKind::AttrSet
    } else if name == "NODE_KEY_VALUE"@ {
        NodeKind::KeyValue
    } else if name == "NODE_INHERIT"@ {
        NodeKind::Inherit
    } else if name == "NODE_LAMBDA"@ {
        NodeKind::Lambda
    } else if name == "NODE_PATTERN"@ {
        NodeKind::Pattern
    } else if name == "NODE_PAT_ENTRY"@ {
        NodeKind::PatEntry
    } else if name == "NODE_PAT_BIND"@ {
        NodeKind::PatBind
    } else if name == "NODE_STRING"@ {
        NodeKind::Text
    } else if name == "NODE_STRING_INTERPOL"@ {
        NodeKind::Interpolation
    } else if name == "NODE_ERROR"@ {
        NodeKind::Error
    } else {
        NodeKind::Other
    }
}

/// The kind of node that a name of `rnix` stands for.
pub fn node_kind(name: &str) -> (r: NodeKind)
    ensures
        r == kind_named(name@),
{
    if text::same(name, "NODE_IDENT") {
        NodeKind::Identifier
    } else if text::same(name, "NODE_SELECT") {
        NodeKind::Select
    } else if text::same(name, "NODE_KEY") {
        NodeKind::Key
    } else if text::same(name, "NODE_LITERAL") {
        NodeKind::Literal
    } else if text::same(name, "NODE_LET_IN") {
        NodeKind::LetIn
    } else if text::same(name, "NODE_LEGACY_LET") {
        NodeKind::LegacyLet
    } else if text::same(name, "NODE_ATTR_SET") {
        NodeKind::AttrSet
    } else if text::same(name, "NODE_KEY_VALUE") {
        NodeKind::KeyValue
    } else if text::same(name, "NODE_INHERIT") {
        NodeKind::Inherit
    } else if text::same(name, "NODE_LAMBDA") {
        NodeKind::Lambda
    } else if text::same(name, "NODE_PATTERN") {
        NodeKind::Pattern
    } else if text::same(name, "NODE_PAT_ENTRY") {
        NodeKind::PatEntry
    } else if text::same(name, "NODE_PAT_BIND") {
        NodeKind::PatBind
    } else if text::same(name, "NODE_STRING") {
        NodeKind::Text
    } else if text::same(name, "NODE_STRING_INTERPOL") {
        NodeKind::Interpolation
    } else if text::same(name, "NODE_ERROR") {
        NodeKind::Error
    } else {
        NodeKind::Other
    }
}

/// The kind of token that a name of `rnix` stands for.
pub open spec fn token_kind_named(name: Seq<char>) -> TokenKind {
    if name == "TOKEN_WHITESPACE"@ {
        TokenKind::White
    } else if name == "TOKEN_COMMENT"@ {
        TokenKind::Comment
    } else if name == "TOKEN_ERROR"@ {
        TokenKind::Error
    } else if name == "TOKEN_IDENT"@ {
        TokenKind::Word
    } else if name == "TOKEN_PATH"@ {
        TokenKind::Path
    } else if name == "TOKEN_URI"@ {
        TokenKind::Uri
    } else if name == "TOKEN_STRING_START"@ {
        TokenKind::StringStart
    } else if name == "TOKEN_STRING_END"@ {
        TokenKind::StringEnd
    } else if name == "TOKEN_DYNAMIC_START"@ {
        TokenKind::DynamicStart
    } else if name == "TOKEN_DYNAMIC_END"@ {
        TokenKind::DynamicEnd
    } else if name == "TOKEN_DOT"@ {
        TokenKind::Dot
    } else if name == "TOKEN_COLON"@ {
        TokenKind::Colon
    } else if name == "TOKEN_COMMA"@ {
        TokenKind::Comma
    } else if name == "TOKEN_SEMICOLON"@ {
        TokenKind::Semicolon
    } else if name == "TOKEN_PAREN_CLOSE"@ {
        TokenKind::ParenClose
    } else if name == "TOKEN_SQUARE_B_CLOSE"@ {
        TokenKind::SquareClose
    } else if name == "TOKEN_CURLY_B_CLOSE"@ {
        TokenKind::CurlyClose
    } else if name == "TOKEN_DIV"@ {
        TokenKind::Slash
    } else if name == "TOKEN_LESS"@ {
        TokenKind::Less
    } else {
        TokenKind::Other
    }
}

/// The kind of token that a name of `rnix` stands for.
pub fn token_kind(name: &str) -> (r: TokenKind)
    ensures
        r == token_kind_named(name@),
{
    if text::same(name, "TOKEN_WHITESPACE") {
        TokenKind::White
    } else if text::same(name, "TOKEN_COMMENT") {
        TokenKind::Comment
    } else if text::same(name, "TOKEN_ERROR") {
        TokenKind::Error
    } else if text::same(name, "TOKEN_IDENT") {
        TokenKind::Word
    } else if text::same(name, "TOKEN_PATH") {
        TokenKind::Path
    } else if text::same(name, "TOKEN_URI") {
        TokenKind::Uri
    } else if text::same(name, "TOKEN_STRING_START") {
        TokenKind::StringStart
    } else if text::same(name, "TOKEN_STRING_END") {
        TokenKind::StringEnd
    } else if text::same(name, "TOKEN_DYNAMIC_START") {
        TokenKind::DynamicStart
    } else if text::same(name, "TOKEN_DYNAMIC_END") {
        TokenKind::DynamicEnd
    } else if text::same(name, "TOKEN_DOT") {
        TokenKind::Dot
    } else if text::same(name, "TOKEN_COLON") {
        TokenKind::Colon
    } else if text::same(name, "TOKEN_COMMA") {
        TokenKind::Comma
    } else if text::same(name, "TOKEN_SEMICOLON") {
        TokenKind::Semicolon
    } else if text::same(name, "TOKEN_PAREN_CLOSE") {
        TokenKind::ParenClose
    } else if text::same(name, "TOKEN_SQUARE_B_CLOSE") {
        TokenKind::SquareClose
    } else if text::same(name, "TOKEN_CURLY_B_CLOSE") {
        TokenKind::CurlyClose
    } else if text::same(name, "TOKEN_DIV") {
        TokenKind::Slash
    } else if text::same(name, "TOKEN_LESS") {
        TokenKind::Less
    } else {
        TokenKind::Other
    }
}

/// `rnix::parse`, and `descendants` of the root of its tree: the nodes of the
/// tree in preorder, each with the number of its own `descendants`. They depend
/// on the text alone. The first one is the root, and as the tree keeps every
/// token of the text, the root covers all of it. An identifier or a literal is a
/// single token and stands in the text where its node says. No node ends before
/// it begins, none leaves the bytes of a node that it lies in, and none begins
/// before the end of a subtree in front of it. `rnix` counts bytes in 32 bits and
/// panics on a text that is longer. It descends into nested expressions by
/// recursion, as deep as the stack of the machine allows.
#[verifier::external_body]
pub(crate) fn parse_nodes(text: &str) -> (r: Vec<Node>)
    requires
        text::measurable(text@),
    ensures
        r.deep_view() == nodes_of(text@),
        r@.len() >= 1,
        r@[0].range == (TextRange { start: 0, end: text::byte_len(text@) as u32 }),
        spelt_out(text@, r.deep_view()),
        nested(r.deep_view()),
        forall|i: int| 0 <= i < r@.len() ==> (#[trigger] r@[i]).range.ordered(),
{
    let to_node = |node: rnix::SyntaxNode| Node {
        kind: node_kind(&format!("{:?}", node.kind())),
        range: TextRange {
            start: node.text_range().start().into(),
            end: node.text_range().end().into(),
        },
        extent: node.descendants().count(),
        token_kind: token_kind(
            &node.first_token().map_or(String::new(), |t| format!("{:?}", t.kind())),
        ),
        token: node.first_token().map_or(String::new(), |t| t.text().to_string()),
    };
    rnix::parse(text).node().descendants().map(to_node).collect()
}

/// `rnix::parse`, and `descendants_with_tokens` of the root of its tree: the
/// nodes and the tokens of the tree in preorder, each token with the kinds of
/// the two nodes above it. They depend on the text alone.
#[verifier::external_body]
fn parse_elements(text: &str) -> (r: Vec<Option<Token>>)
    requires
        text::measurable(text@),
    ensures
        r.deep_view() == elements_of(text@),
{
    let kind = |node: rnix::SyntaxNode| node_kind(&format!("{:?}", node.kind()));
    let to_token = |token: rnix::SyntaxToken| Token {
        kind: token_kind(&format!("{:?}", token.kind())),
        text: token.text().to_string(),
        range: TextRange {
            start: token.text_range().start().into(),
            end: token.text_range().end().into(),
        },
        within: kind(token.parent()),
        above: token.parent().parent().map_or(NodeKind::Other, kind),
    };
    let elements = rnix::parse(text).node().descendants_with_tokens();
    elements.map(|element| element.into_token().map(to_token)).collect()
}

/// The tokens of a text, in order.
pub fn parse_tokens(text: &str) -> (r: Vec<Token>)
    requires
        text::measurable(text@),
    ensures
        r.deep_view() == tokens_of(text@),
{
    let elements = parse_elements(text);
    let ghost all = elements.deep_view();
    let mut tokens: Vec<Token> = Vec::new();
    assert(tokens.deep_view() =~= tokens_among(all.take(0)));
    let mut i: usize = 0;
    while i < elements.len()
        invariant
            i <= elements@.len(),
            all == elements.deep_view(),
            tokens.deep_view() == tokens_among(all.take(i as int)),
        decreases elements.len() - i,
    {
        assert(all[i as int] == elements@[i as int].deep_view());
        assert(all.take(i + 1).drop_last() =~= all.take(i as int));
        if let Some(token) = &elements[i] {
            let ghost before = tokens.deep_view();
            let copy = Token {
                kind: token.kind,
                text: token.text.clone(),
                range: token.range,
                within: token.within,
                above: token.above,
            };
            tokens.push(copy);
            assert(tokens.deep_view() =~= before.push(token.deep_view()));
        }
        i = i + 1;
    }
    assert(all.take(i as int) =~= all);
    tokens
}

/// `rnix::parse` and `AST::errors`: the mistakes in a text, each with the
/// message that it displays. They depend on the text alone.
#[verifier::external_body]
pub(crate) fn parse_errors(text: &str) -> (r: Vec<SyntaxError>)
    requires
        text::measurable(text@),
    ensures
        r.deep_view() == errors_of(text@),
{
    let at = |r: &rnix::TextRange| TextRange { start: r.start().into(), end: r.end().into() };
    let to_kind = |error: &ParseError| match error {
        ParseError::Unexpected(r) => ErrorKind::Unexpected(at(r)),
        ParseError::UnexpectedExtra(r) => ErrorKind::UnexpectedExtra(at(r)),
        ParseError::UnexpectedWanted(_, r, _) => ErrorKind::UnexpectedWanted(at(r)),
        ParseError::UnexpectedDoubleBind(r) => ErrorKind::UnexpectedDoubleBind(at(r)),
        ParseError::UnexpectedEOF => ErrorKind::UnexpectedEof,
        ParseError::UnexpectedEOFWanted(_) => ErrorKind::UnexpectedEofWanted,
        _ => ErrorKind::Other,
    };
    let errors = rnix::parse(text).errors();
    errors.iter().map(|e| SyntaxError { kind: to_kind(e), message: e.to_string() }).collect()
}

/// `rnix::value::Value::from_token`, for the token of a path literal.
#[verifier::external_body]
pub(crate) fn parse_path(token: &str) -> (r: Option<(Anchor, String)>)
    ensures
        r.deep_view() == path_of(token@),
{
    match NixValue::from_token(TOKEN_PATH, token) {
        Ok(NixValue::Path(NixAnchor::Absolute, path)) => Some((Anchor::Absolute, path)),
        Ok(NixValue::Path(NixAnchor::Relative, path)) => Some((Anchor::Relative, path)),
        Ok(NixValue::Path(NixAnchor::Home, path)) => Some((Anchor::Home, path)),
        Ok(NixValue::Path(NixAnchor::Store, path)) => Some((Anchor::Store, path)),
        _ => None,
    }
}

/// `nixpkgs_fmt::reformat_node`, on the root of the tree that `rnix::parse`
/// builds: the text of the formatted tree. It depends on the text alone.
/// What formatting does to a text is not stated.
///
/// The formatter panics on some texts, which `layout::formattable` leaves out.
/// It finds the lines of a block comment by offsets that fall behind by one byte
/// at each carriage return, and it cannot cut the text at one that falls inside a
/// character. It indents the white space in a string twice where the string
/// begins with a newline and holds code outside of an interpolation, and then
/// the length of what it writes is not the one that it expects. Before that it
/// edits only the space between tokens, and reads the text anew. So both show in
/// the given text unless a token becomes another when a space comes or goes. A
/// string holds code only where the end of one interpolation has been taken for
/// that of another, and an offset falls inside a character only where a carriage
/// return stands before one of several bytes.
#[verifier::external_body]
pub(crate) fn reformat(text: &str) -> (r: String)
    requires
        text::measurable(text@),
        layout::formattable(text@),
    ensures
        r@ == formatted(text@),
{
    nixpkgs_fmt::reformat_node(&rnix::parse(text).node()).text().to_string()
}

impl DeepView for Anchor {
    type V = Anchor;

    open spec fn deep_view(&self) -> Anchor {
        *self
    }
}

/// Each token of a tree is among its tokens, in its place, and nothing else is.
pub proof fn law_tokens_are_those_of_the_tree(
    before: Seq<Option<TokenView>>,
    element: Option<TokenView>,
    after: Seq<Option<TokenView>>,
)
    ensures
        tokens_among(before + seq![element] + after) == tokens_among(before) + (match element {
            Some(token) => seq![token],
            None => Seq::empty(),
        }) + tokens_among(after),
        tokens_among(seq![element]) == (match element {
            Some(token) => seq![token],
            None => Seq::empty(),
        }),
    decreases after.len(),
{
    let all = before + seq![element] + after;
    assert(seq![element].drop_last() =~= Seq::empty());
    assert(tokens_among(Seq::<Option<TokenView>>::empty()) =~= Seq::empty());
    if after.len() == 0 {
        assert(all.drop_last() =~= before);
        assert(all.last() == element);
    } else {
        law_tokens_are_those_of_the_tree(before, element, after.drop_last());
        assert(all.drop_last() =~= before + seq![element] + after.drop_last());
        assert(all.last() == after.last());
    }
}

} // verus!
