//! Which texts can be formatted.
//!
//! The formatter works in two steps. It first puts the space between tokens in
//! order and parses what comes out. It then indents the lines. On some texts it
//! stumbles over its own work, which can be told beforehand by the text, its
//! tree and its tokens.

use vstd::prelude::*;

use crate::position::TextRange;
use crate::syntax;
use crate::syntax::{Node, NodeKind, Token, TokenKind};
use crate::text;
use crate::tree;

verus! {

/// Tokens, in the order of the text.
pub type Tokens = Seq<syntax::TokenView>;

/// Whether a token stays what it is if a dot comes to stand right behind it. Of
/// the paths, that is those in angle brackets.
pub open spec fn bears_dot(token: syntax::TokenView) -> bool {
    ||| token.kind == TokenKind::Word
    ||| token.kind == TokenKind::StringEnd
    ||| token.kind == TokenKind::DynamicEnd
    ||| token.kind == TokenKind::ParenClose
    ||| token.kind == TokenKind::SquareClose
    ||| token.kind == TokenKind::CurlyClose
    ||| token.kind == TokenKind::Comment
    ||| token.kind == TokenKind::Path && "<"@.is_prefix_of(token.text)
}

/// Whether a token stays what it is if it comes to stand right behind a dot.
pub open spec fn follows_dot(kind: TokenKind) -> bool {
    ||| kind == TokenKind::Word
    ||| kind == TokenKind::StringStart
    ||| kind == TokenKind::DynamicStart
    ||| kind == TokenKind::Comment
}

/// Whether a token is a name that is inherited.
pub open spec fn inherited(token: syntax::TokenView) -> bool {
    token.kind == TokenKind::Word && token.within == NodeKind::Identifier && token.above
        == NodeKind::Inherit
}

/// Whether a character could go on with a name, or make a path or a URL of it.
pub open spec fn goes_on(c: char) -> bool {
    ||| 'a' <= c <= 'z'
    ||| 'A' <= c <= 'Z'
    ||| '0' <= c <= '9'
    ||| c == '_' || c == '-' || c == '+' || c == '.' || c == '/' || c == ':' || c == '\''
}

/// Whether a token stays what it is behind a name that is inherited, from which
/// the formatter parts it only if it is such a name itself.
pub open spec fn follows_name(token: syntax::TokenView) -> bool {
    ||| inherited(token)
    ||| token.kind == TokenKind::Comment
    ||| token.text.len() == 0
    ||| !goes_on(token.text[0])
}

/// Whether the token at an index stays what it is behind a dot, or white space
/// parts the two.
pub open spec fn keeps_off(tokens: Tokens, k: int) -> bool {
    k < tokens.len() ==> tokens[k].kind == TokenKind::White || follows_dot(tokens[k].kind)
}

/// Whether white space behind a colon could go, so that a URL comes to stand
/// there: the next token is a comma, a colon or a dot.
pub open spec fn closes_up(tokens: Tokens, k: int) -> bool {
    let next = if k < tokens.len() && tokens[k].kind == TokenKind::White {
        k + 1
    } else {
        k
    };
    next < tokens.len() && (tokens[next].kind == TokenKind::Comma || tokens[next].kind
        == TokenKind::Colon || tokens[next].kind == TokenKind::Dot)
}

/// Whether the tokens to both sides of white space could become others if the
/// formatter takes the white space away: around the dot of a selection, before
/// the colon of a function, before a comma in a pattern, behind a name that is
/// inherited, or before a closing sign.
pub open spec fn runs_together(tokens: Tokens, k: int) -> bool {
    0 < k && k + 1 < tokens.len() && tokens[k].kind == TokenKind::White && {
        let a = tokens[k - 1];
        let b = tokens[k + 1];
        let broken = tokens[k].text.contains('\n');
        ||| b.kind == TokenKind::Dot && b.within == NodeKind::Select && !(bears_dot(a)
            && keeps_off(tokens, k + 2))
        ||| a.kind == TokenKind::Dot && a.within == NodeKind::Select && !follows_dot(b.kind)
        ||| b.kind == TokenKind::Colon && b.within == NodeKind::Lambda && !(a.kind
            == TokenKind::Word || a.kind == TokenKind::CurlyClose || a.kind == TokenKind::Comment)
        ||| b.kind == TokenKind::Colon && b.within == NodeKind::Lambda && closes_up(
            tokens,
            k + 2,
        )
        ||| b.kind == TokenKind::Comma && b.within == NodeKind::Pattern && !broken && (a.kind
            == TokenKind::Slash || a.kind == TokenKind::Colon || a.kind == TokenKind::Uri)
        ||| inherited(a) && !broken && !follows_name(b)
        ||| a.kind == TokenKind::Slash && (b.kind == TokenKind::ParenClose || b.kind
            == TokenKind::SquareClose || b.kind == TokenKind::CurlyClose || b.kind
            == TokenKind::Semicolon)
    }
}

/// Whether a text ends with the first slash in it.
pub open spec fn breaks_off(s: Seq<char>) -> bool {
    s.len() > 0 && s.last() == '/' && forall|i: int| 0 <= i < s.len() - 1 ==> s[i] != '/'
}

/// Whether a token could become another by what happens to the space behind it:
/// a path that breaks off at its first slash or its second bracket, or a sign of
/// comparison that opens no comparison and could open a path.
pub open spec fn falls_apart(tokens: Tokens, k: int) -> bool {
    0 <= k && k + 1 < tokens.len() && tokens[k + 1].kind != TokenKind::White && {
        ||| tokens[k].kind == TokenKind::Error && breaks_off(tokens[k].text)
        ||| tokens[k].kind == TokenKind::Error && "<"@.is_prefix_of(tokens[k].text)
        ||| tokens[k].kind == TokenKind::Less && tokens[k].within == NodeKind::Error
    }
}

/// Whether a stretch of bytes is interpolated. The formatter leaves it alone.
pub open spec fn interpolated(nodes: Seq<syntax::NodeView>, range: TextRange) -> bool {
    exists|i: int|
        0 <= i < nodes.len() && (#[trigger] nodes[i]).kind == NodeKind::Interpolation
            && nodes[i].range.start <= range.start && range.end <= nodes[i].range.end
}

/// Whether the tokens of a text stay what they are when the formatter puts the
/// space between them in order. Then the tree stays what it is, too.
pub open spec fn steady(nodes: Seq<syntax::NodeView>, tokens: Tokens) -> bool {
    &&& forall|k: int|
        #[trigger] runs_together(tokens, k) ==> interpolated(nodes, tokens[k].range)
    &&& forall|k: int|
        #[trigger] falls_apart(tokens, k) ==> interpolated(nodes, tokens[k].range)
}

/// Whether a node is something that the grammar has no place for, and stands in
/// a string that the formatter indents, one that begins with a newline. What
/// stands there is indented as code and as a part of the string.
pub open spec fn breaks_string(b: Seq<u8>, nodes: Seq<syntax::NodeView>, i: int) -> bool {
    0 <= i < nodes.len() && nodes[i].kind == NodeKind::Error && tree::enclosing(nodes, i, i)
        is Some && {
        let parent = nodes[tree::enclosing(nodes, i, i)->0];
        &&& parent.kind == NodeKind::Text
        &&& !interpolated(nodes, parent.range)
        &&& parent.range.start + 2 < b.len()
        &&& b[parent.range.start + 2] == 10
    }
}

/// The number of lines before an index that end with a carriage return.
pub open spec fn returns_before(b: Seq<u8>, i: int) -> nat
    decreases i,
{
    if i <= 1 {
        0
    } else {
        returns_before(b, i - 1) + if b[i - 1] == 10 && b[i - 2] == 13 {
            1nat
        } else {
            0nat
        }
    }
}

/// The number of spaces from an index on.
pub open spec fn spaces_at(b: Seq<u8>, i: int) -> nat
    decreases b.len() - i,
{
    if 0 <= i < b.len() && b[i] == 32 {
        1 + spaces_at(b, i + 1)
    } else {
        0
    }
}

/// Whether a line begins at an index that holds more than spaces.
pub open spec fn line_at(b: Seq<u8>, i: int) -> bool {
    0 < i < b.len() && b[i - 1] == 10 && {
        let j = i + spaces_at(b, i);
        j < b.len() && b[j] != 10 && !(b[j] == 13 && j + 1 < b.len() && b[j + 1] == 10)
    }
}

/// Whether an offset falls inside a character.
pub open spec fn splits_char(b: Seq<u8>, p: int) -> bool {
    0 <= p < b.len() && 0x80 <= b[p] < 0xc0
}

/// Whether the formatter misses a line of a comment, so that it cuts a character
/// in two: it takes each line end for one byte, and so looks for the spaces in
/// front of a line too far to the left, by one byte for each carriage return.
pub open spec fn misses_line(b: Seq<u8>, i: int) -> bool {
    line_at(b, i) && (splits_char(b, i - returns_before(b, i)) || splits_char(
        b,
        i + spaces_at(b, i) - returns_before(b, i),
    ))
}

/// Whether the formatter cuts a character of a comment in two.
pub open spec fn cuts_comment(b: Seq<u8>) -> bool {
    exists|i: int| #[trigger] misses_line(b, i)
}

/// Whether a token is a comment that the formatter indents, and cuts a character
/// of.
pub open spec fn is_cut(nodes: Seq<syntax::NodeView>, token: syntax::TokenView) -> bool {
    token.kind == TokenKind::Comment && !interpolated(nodes, token.range) && cuts_comment(
        vstd::utf8::encode_utf8(token.text),
    )
}

/// Whether two characters stand next to each other, the first one at an index.
pub open spec fn pair_at(s: Seq<char>, i: int, a: char, b: char) -> bool {
    0 <= i && i + 1 < s.len() && s[i] == a && s[i + 1] == b
}

/// Whether something is interpolated in a text more than once.
pub open spec fn interpolates_twice(s: Seq<char>) -> bool {
    exists|i: int, j: int|
        i < j && #[trigger] pair_at(s, i, '$', '{') && #[trigger] pair_at(s, j, '$', '{')
}

/// Whether a carriage return stands in a text, and a character of more than one
/// byte anywhere behind it.
pub open spec fn slips(s: Seq<char>) -> bool {
    exists|j: int, k: int|
        0 <= j < k < s.len() && #[trigger] s[j] == '\r' && text::width(#[trigger] s[k]) > 1
}

/// Whether a text with the given tree and the given tokens can be formatted. If
/// the tokens stay what they are, it is enough that no string holds what is
/// indented twice, and that no comment is cut. Otherwise there could be new
/// strings and new comments. But a string holds code outside of an interpolation
/// only if that has been closed too early, by the end of another one, and no
/// comment is cut if nothing slips.
pub open spec fn formattable_with(
    s: Seq<char>,
    nodes: Seq<syntax::NodeView>,
    tokens: Tokens,
) -> bool {
    ||| {
        &&& steady(nodes, tokens)
        &&& forall|i: int|
            !#[trigger] breaks_string(vstd::utf8::encode_utf8(s), nodes, i)
        &&& forall|k: int| 0 <= k < tokens.len() ==> !is_cut(nodes, #[trigger] tokens[k])
    }
    ||| !interpolates_twice(s) && !slips(s)
}

/// Whether a text can be formatted.
pub open spec fn formattable(s: Seq<char>) -> bool {
    formattable_with(s, syntax::nodes_of(s), syntax::tokens_of(s))
}

/// The first place of a character, or the number of characters.
fn place_of(s: &Vec<char>, c: char) -> (r: usize)
    ensures
        r <= s@.len(),
        r < s@.len() ==> s@[r as int] == c,
        forall|k: int| 0 <= k < r ==> s@[k] != c,
{
    let mut i: usize = 0;
    while i < s.len()
        invariant
            i <= s@.len(),
            forall|k: int| 0 <= k < i ==> s@[k] != c,
        decreases s.len() - i,
    {
        if s[i] == c {
            return i;
        }
        i = i + 1;
    }
    i
}

/// Whether a text has more than one line.
fn is_broken(s: &str) -> (r: bool)
    ensures
        r == s@.contains('\n'),
{
    let chars = text::chars_of(s);
    place_of(&chars, '\n') < chars.len()
}

/// Whether a text ends with the first slash in it.
fn does_break_off(s: &str) -> (r: bool)
    ensures
        r == breaks_off(s@),
{
    let chars = text::chars_of(s);
    let place: usize = place_of(&chars, '/');
    place < chars.len() && place == chars.len() - 1
}

/// Whether a dot can stand right behind a token.
fn can_bear_dot(token: &Token) -> (r: bool)
    ensures
        r == bears_dot(token.deep_view()),
{
    match token.kind {
        TokenKind::Word
        | TokenKind::StringEnd
        | TokenKind::DynamicEnd
        | TokenKind::ParenClose
        | TokenKind::SquareClose
        | TokenKind::CurlyClose
        | TokenKind::Comment => true,
        TokenKind::Path => text::starts_with(token.text.as_str(), "<"),
        _ => false,
    }
}

/// Whether a token can stand right behind a dot.
fn can_follow_dot(kind: TokenKind) -> (r: bool)
    ensures
        r == follows_dot(kind),
{
    kind == TokenKind::Word || kind == TokenKind::StringStart || kind == TokenKind::DynamicStart
        || kind == TokenKind::Comment
}

/// Whether a token is a name that is inherited.
fn is_inherited(token: &Token) -> (r: bool)
    ensures
        r == inherited(token.deep_view()),
{
    token.kind == TokenKind::Word && token.within == NodeKind::Identifier && token.above
        == NodeKind::Inherit
}

/// Whether a character could go on with a name, or make a path or a URL of it.
fn can_go_on(c: char) -> (r: bool)
    ensures
        r == goes_on(c),
{
    ('a' <= c && c <= 'z') || ('A' <= c && c <= 'Z') || ('0' <= c && c <= '9') || c == '_' || c
        == '-' || c == '+' || c == '.' || c == '/' || c == ':' || c == '\''
}

/// Whether a token can stand behind a name that is inherited.
fn can_follow_name(token: &Token) -> (r: bool)
    ensures
        r == follows_name(token.deep_view()),
{
    if is_inherited(token) || token.kind == TokenKind::Comment {
        return true;
    }
    let chars = text::chars_of(token.text.as_str());
    chars.len() == 0 || !can_go_on(chars[0])
}

/// Whether the token at an index stays what it is behind a dot.
fn can_keep_off(tokens: &Vec<Token>, k: usize) -> (r: bool)
    requires
        k <= tokens@.len(),
    ensures
        r == keeps_off(tokens.deep_view(), k as int),
{
    let ghost all = tokens.deep_view();
    if k < tokens.len() {
        assert(all[k as int] == tokens@[k as int].deep_view());
        tokens[k].kind == TokenKind::White || can_follow_dot(tokens[k].kind)
    } else {
        true
    }
}

/// Whether white space behind a colon could go.
fn can_close_up(tokens: &Vec<Token>, k: usize) -> (r: bool)
    requires
        k <= tokens@.len(),
    ensures
        r == closes_up(tokens.deep_view(), k as int),
{
    let ghost all = tokens.deep_view();
    let mut next: usize = k;
    if k < tokens.len() {
        assert(all[k as int] == tokens@[k as int].deep_view());
        if tokens[k].kind == TokenKind::White {
            next = k + 1;
        }
    }
    if next < tokens.len() {
        assert(all[next as int] == tokens@[next as int].deep_view());
        let kind = tokens[next].kind;
        kind == TokenKind::Comma || kind == TokenKind::Colon || kind == TokenKind::Dot
    } else {
        false
    }
}

/// Whether the tokens to both sides of white space could become others.
fn can_run_together(tokens: &Vec<Token>, k: usize) -> (r: bool)
    requires
        k < tokens@.len(),
    ensures
        r == runs_together(tokens.deep_view(), k as int),
{
    let ghost all = tokens.deep_view();
    assert(all[k as int] == tokens@[k as int].deep_view());
    if k == 0 || tokens.len() - k == 1 || tokens[k].kind != TokenKind::White {
        return false;
    }
    assert(all[k - 1] == tokens@[k - 1].deep_view());
    assert(all[k + 1] == tokens@[k + 1].deep_view());
    let a = &tokens[k - 1];
    let b = &tokens[k + 1];
    let broken = is_broken(tokens[k].text.as_str());
    if b.kind == TokenKind::Dot && b.within == NodeKind::Select && !(can_bear_dot(a)
        && can_keep_off(tokens, k + 2)) {
        return true;
    }
    if a.kind == TokenKind::Dot && a.within == NodeKind::Select && !can_follow_dot(b.kind) {
        return true;
    }
    if b.kind == TokenKind::Colon && b.within == NodeKind::Lambda {
        if a.kind != TokenKind::Word && a.kind != TokenKind::CurlyClose && a.kind
            != TokenKind::Comment {
            return true;
        }
        if can_close_up(tokens, k + 2) {
            return true;
        }
    }
    if b.kind == TokenKind::Comma && b.within == NodeKind::Pattern && !broken && (a.kind
        == TokenKind::Slash || a.kind == TokenKind::Colon || a.kind == TokenKind::Uri) {
        return true;
    }
    if is_inherited(a) && !broken && !can_follow_name(b) {
        return true;
    }
    a.kind == TokenKind::Slash && (b.kind == TokenKind::ParenClose || b.kind
        == TokenKind::SquareClose || b.kind == TokenKind::CurlyClose || b.kind
        == TokenKind::Semicolon)
}

/// Whether a token could become another by what happens to the space behind it.
fn can_fall_apart(tokens: &Vec<Token>, k: usize) -> (r: bool)
    requires
        k < tokens@.len(),
    ensures
        r == falls_apart(tokens.deep_view(), k as int),
{
    let ghost all = tokens.deep_view();
    assert(all[k as int] == tokens@[k as int].deep_view());
    if tokens.len() - k == 1 {
        return false;
    }
    assert(all[k + 1] == tokens@[k + 1].deep_view());
    let token = &tokens[k];
    if tokens[k + 1].kind == TokenKind::White {
        return false;
    }
    let word = token.text.as_str();
    (token.kind == TokenKind::Error && (does_break_off(word) || text::starts_with(word, "<")))
        || (token.kind == TokenKind::Less && token.within == NodeKind::Error)
}

/// Whether a stretch of bytes is interpolated.
fn is_interpolated(nodes: &Vec<Node>, range: TextRange) -> (r: bool)
    ensures
        r == interpolated(nodes.deep_view(), range),
{
    let ghost all = nodes.deep_view();
    let mut i: usize = 0;
    while i < nodes.len()
        invariant
            i <= nodes@.len(),
            all == nodes.deep_view(),
            forall|k: int|
                0 <= k < i ==> !((#[trigger] all[k]).kind == NodeKind::Interpolation
                    && all[k].range.start <= range.start && range.end <= all[k].range.end),
        decreases nodes.len() - i,
    {
        assert(all[i as int] == nodes@[i as int].deep_view());
        if nodes[i].kind == NodeKind::Interpolation && nodes[i].range.start <= range.start
            && range.end <= nodes[i].range.end {
            return true;
        }
        i = i + 1;
    }
    false
}

/// Whether the tokens of a text stay what they are.
fn is_steady(nodes: &Vec<Node>, tokens: &Vec<Token>) -> (r: bool)
    ensures
        r == steady(nodes.deep_view(), tokens.deep_view()),
{
    let ghost tree = nodes.deep_view();
    let ghost all = tokens.deep_view();
    let mut k: usize = 0;
    while k < tokens.len()
        invariant
            k <= tokens@.len(),
            tree == nodes.deep_view(),
            all == tokens.deep_view(),
            forall|i: int|
                i < k && #[trigger] runs_together(all, i) ==> interpolated(tree, all[i].range),
            forall|i: int|
                i < k && #[trigger] falls_apart(all, i) ==> interpolated(tree, all[i].range),
        decreases tokens.len() - k,
    {
        assert(all[k as int] == tokens@[k as int].deep_view());
        if (can_run_together(tokens, k) || can_fall_apart(tokens, k)) && !is_interpolated(
            nodes,
            tokens[k].range,
        ) {
            return false;
        }
        k = k + 1;
    }
    true
}

/// Whether a string holds something that is indented twice.
fn has_broken_string(bytes: &[u8], nodes: &Vec<Node>) -> (r: bool)
    ensures
        r == exists|i: int| #[trigger] breaks_string(bytes@, nodes.deep_view(), i),
{
    let ghost all = nodes.deep_view();
    let mut i: usize = 0;
    while i < nodes.len()
        invariant
            i <= nodes@.len(),
            all == nodes.deep_view(),
            forall|k: int| k < i ==> !#[trigger] breaks_string(bytes@, all, k),
        decreases nodes.len() - i,
    {
        assert(all[i as int] == nodes@[i as int].deep_view());
        if nodes[i].kind == NodeKind::Error {
            if let Some(parent) = tree::find_enclosing(nodes, i, i) {
                assert(all[parent as int] == nodes@[parent as int].deep_view());
                let range = nodes[parent].range;
                let start: usize = range.start as usize;
                if nodes[parent].kind == NodeKind::Text && !is_interpolated(nodes, range) && start
                    < bytes.len() && bytes.len() - start > 2 && bytes[start + 2] == 10 {
                    assert(breaks_string(bytes@, all, i as int));
                    return true;
                }
            }
        }
        i = i + 1;
    }
    false
}

/// The number of spaces from an index on.
fn count_spaces(bytes: &[u8], from: usize) -> (r: usize)
    requires
        from <= bytes@.len(),
    ensures
        r == spaces_at(bytes@, from as int),
        from + r <= bytes@.len(),
{
    let mut i: usize = from;
    while i < bytes.len() && bytes[i] == 32
        invariant
            from <= i <= bytes@.len(),
            spaces_at(bytes@, from as int) == i - from + spaces_at(bytes@, i as int),
        decreases bytes.len() - i,
    {
        i = i + 1;
    }
    i - from
}

/// Whether an offset falls inside a character.
fn does_split_char(bytes: &[u8], offset: usize) -> (r: bool)
    ensures
        r == splits_char(bytes@, offset as int),
{
    offset < bytes.len() && 0x80 <= bytes[offset] && bytes[offset] < 0xc0
}

/// Whether the formatter cuts a character of a comment in two.
fn does_cut_comment(bytes: &[u8]) -> (r: bool)
    ensures
        r == cuts_comment(bytes@),
{
    let mut shift: usize = 0;
    let mut i: usize = 1;
    while i < bytes.len()
        invariant
            1 <= i,
            shift < i,
            shift == returns_before(bytes@, i as int),
            forall|k: int| k < i && k < bytes@.len() ==> !#[trigger] misses_line(bytes@, k),
        decreases bytes.len() - i,
    {
        if bytes[i - 1] == 10 {
            let spaces: usize = count_spaces(bytes, i);
            let j: usize = i + spaces;
            let blank = j == bytes.len() || bytes[j] == 10 || (bytes[j] == 13 && bytes.len() - j > 1
                && bytes[j + 1] == 10);
            if !blank {
                assert(line_at(bytes@, i as int));
                if does_split_char(bytes, i - shift) || does_split_char(bytes, j - shift) {
                    assert(misses_line(bytes@, i as int));
                    return true;
                }
            }
        }
        if bytes[i] == 10 && bytes[i - 1] == 13 {
            shift = shift + 1;
        }
        i = i + 1;
    }
    false
}

/// Whether the formatter cuts a character of some comment in two.
fn has_cut_comment(nodes: &Vec<Node>, tokens: &Vec<Token>) -> (r: bool)
    ensures
        r == exists|k: int|
            0 <= k < tokens@.len() && is_cut(nodes.deep_view(), #[trigger] tokens.deep_view()[k]),
{
    let ghost all = tokens.deep_view();
    let mut k: usize = 0;
    while k < tokens.len()
        invariant
            k <= tokens@.len(),
            all == tokens.deep_view(),
            forall|i: int| 0 <= i < k ==> !is_cut(nodes.deep_view(), #[trigger] all[i]),
        decreases tokens.len() - k,
    {
        assert(all[k as int] == tokens@[k as int].deep_view());
        if tokens[k].kind == TokenKind::Comment && !is_interpolated(nodes, tokens[k].range)
            && does_cut_comment(tokens[k].text.as_str().as_bytes()) {
            return true;
        }
        k = k + 1;
    }
    false
}

/// Whether something is interpolated in a text more than once.
fn has_two_interpolations(s: &Vec<char>) -> (r: bool)
    ensures
        r == interpolates_twice(s@),
{
    let mut found = false;
    let ghost mut place: int = 0;
    let mut i: usize = 1;
    while i < s.len()
        invariant
            1 <= i,
            found ==> place < i - 1 && pair_at(s@, place, '$', '{'),
            forall|k: int|
                k < i - 1 && #[trigger] pair_at(s@, k, '$', '{') ==> found && k == place,
        decreases s.len() - i,
    {
        if s[i - 1] == '$' && s[i] == '{' {
            assert(pair_at(s@, i - 1, '$', '{'));
            if found {
                return true;
            }
            found = true;
            proof {
                place = i - 1;
            }
        }
        i = i + 1;
    }
    false
}

/// Whether a character of more than one byte stands behind a carriage return.
fn has_slip(s: &Vec<char>) -> (r: bool)
    ensures
        r == slips(s@),
{
    let place: usize = place_of(s, '\r');
    let mut i: usize = place;
    while i < s.len()
        invariant
            place <= i,
            place <= s@.len(),
            place < s@.len() ==> s@[place as int] == '\r',
            forall|j: int| 0 <= j < place ==> s@[j] != '\r',
            forall|k: int| place < k < i && k < s@.len() ==> text::width(#[trigger] s@[k]) <= 1,
        decreases s.len() - i,
    {
        if i > place && text::width_of(s[i]) > 1 {
            assert(s@[place as int] == '\r' && text::width(s@[i as int]) > 1);
            return true;
        }
        i = i + 1;
    }
    false
}

/// Whether a text with the given tree and the given tokens can be formatted.
pub fn can_format(code: &str, nodes: &Vec<Node>, tokens: &Vec<Token>) -> (r: bool)
    ensures
        r == formattable_with(code@, nodes.deep_view(), tokens.deep_view()),
{
    if is_steady(nodes, tokens) && !has_broken_string(code.as_bytes(), nodes) && !has_cut_comment(
        nodes,
        tokens,
    ) {
        return true;
    }
    let chars = text::chars_of(code);
    !has_two_interpolations(&chars) && !has_slip(&chars)
}

/// A text without carriage returns, in which at most one thing is interpolated,
/// can be formatted.
pub proof fn law_plain_texts_can_be_formatted(s: Seq<char>)
    requires
        !s.contains('\r'),
        forall|i: int, j: int|
            #![trigger s[i], s[j]]
            0 <= i <= j && j + 1 < s.len() && s[i] == '$' && s[i + 1] == '{' && s[j] == '$' && s[j
                + 1] == '{' ==> i == j,
    ensures
        formattable(s),
{
    assert(!slips(s)) by {
        if slips(s) {
            let (j, k) = choose|j: int, k: int|
                0 <= j < k < s.len() && #[trigger] s[j] == '\r' && text::width(#[trigger] s[k]) > 1;
            assert(s.contains(s[j]));
        }
    }
    assert(!interpolates_twice(s)) by {
        if interpolates_twice(s) {
            let (i, j) = choose|i: int, j: int|
                i < j && #[trigger] pair_at(s, i, '$', '{') && #[trigger] pair_at(s, j, '$', '{');
            assert(s[i] == '$' && s[j] == '$');
        }
    }
}

proof fn lemma_no_returns(c: Seq<char>, i: int)
    requires
        !c.contains('\r'),
        0 <= i <= vstd::utf8::encode_utf8(c).len(),
    ensures
        returns_before(vstd::utf8::encode_utf8(c), i) == 0,
    decreases i,
{
    let b = vstd::utf8::encode_utf8(c);
    if i > 1 {
        lemma_no_returns(c, i - 1);
        if b[i - 2] == 13 {
            let k = text::lemma_ascii_byte(c, i - 2);
            vstd::utf8::char_u32_cast(c[k], 13);
            vstd::utf8::char_u32_cast('\r', 13);
            assert(c[k] == '\r');
            assert(c.contains(c[k]));
        }
    }
}

proof fn lemma_spaces(b: Seq<u8>, i: int)
    requires
        0 <= i <= b.len(),
    ensures
        i + spaces_at(b, i) <= b.len(),
        spaces_at(b, i) > 0 ==> b[i + spaces_at(b, i) - 1] == 32,
    decreases b.len() - i,
{
    if i < b.len() && b[i] == 32 {
        lemma_spaces(b, i + 1);
    }
}

proof fn lemma_comments_without_returns(c: Seq<char>)
    requires
        !c.contains('\r'),
    ensures
        !cuts_comment(vstd::utf8::encode_utf8(c)),
{
    let b = vstd::utf8::encode_utf8(c);
    assert forall|i: int| !#[trigger] misses_line(b, i) by {
        if line_at(b, i) {
            lemma_no_returns(c, i);
            lemma_spaces(b, i);
            let first = text::lemma_ascii_byte(c, i - 1);
            let j = i + spaces_at(b, i);
            if j > i {
                let last = text::lemma_ascii_byte(c, j - 1);
            }
        }
    }
}

/// Whether the space at an index stands where the formatter leaves tokens as
/// they are: beside the dot of a selection only if a value is closed before it
/// and an attribute opened behind it, before the colon of a function only behind
/// its parameter, before a comma in a pattern behind what is no division and no
/// URL, behind a division before what closes nothing, and behind an inherited
/// name before what cannot go on with it.
pub open spec fn is_tidy(tokens: Tokens, k: int) -> bool {
    0 < k && k + 1 < tokens.len() ==> {
        let a = tokens[k - 1];
        let b = tokens[k + 1];
        &&& b.kind == TokenKind::Dot ==> {
            ||| b.within != NodeKind::Select
            ||| closes_value(a) && k + 2 < tokens.len() && (tokens[k + 2].kind == TokenKind::White
                || opens_attribute(tokens[k + 2]))
        }
        &&& a.kind == TokenKind::Dot ==> a.within != NodeKind::Select || opens_attribute(b)
        &&& b.kind == TokenKind::Colon ==> {
            ||| b.within != NodeKind::Lambda
            ||| {
                let next = if k + 2 < tokens.len() && tokens[k + 2].kind == TokenKind::White {
                    k + 3
                } else {
                    k + 2
                };
                &&& a.kind == TokenKind::Word || a.kind == TokenKind::CurlyClose || a.kind
                    == TokenKind::Comment
                &&& next < tokens.len() ==> tokens[next].kind != TokenKind::Comma
                    && tokens[next].kind != TokenKind::Colon && tokens[next].kind != TokenKind::Dot
            }
        }
        &&& b.kind == TokenKind::Comma ==> {
            ||| b.within != NodeKind::Pattern
            ||| tokens[k].text.contains('\n')
            ||| a.kind == TokenKind::Word || a.kind == TokenKind::CurlyClose || a.kind
                == TokenKind::StringEnd || a.kind == TokenKind::ParenClose || a.kind
                == TokenKind::Comment || a.kind == TokenKind::Path || a.kind == TokenKind::Other
        }
        &&& a.kind == TokenKind::Slash ==> b.kind == TokenKind::Word || b.kind == TokenKind::Comment
            || b.kind == TokenKind::Path || b.kind == TokenKind::Other
        &&& a.kind == TokenKind::Word && a.within == NodeKind::Identifier && a.above
            == NodeKind::Inherit ==> {
            ||| b.kind == TokenKind::Word && b.within == NodeKind::Identifier && b.above
                == NodeKind::Inherit
            ||| tokens[k].text.contains('\n')
            ||| b.kind == TokenKind::Comment
            ||| b.text.len() > 0 && (b.text[0] == ';' || b.text[0] == '"' || b.text[0] == '('
                || b.text[0] == '{' || b.text[0] == '}' || b.text[0] == '=')
        }
    }
}

/// Whether a token closes what an attribute can be selected from.
pub open spec fn closes_value(token: syntax::TokenView) -> bool {
    ||| token.kind == TokenKind::Word || token.kind == TokenKind::Comment
    ||| token.kind == TokenKind::StringEnd || token.kind == TokenKind::DynamicEnd
    ||| token.kind == TokenKind::ParenClose || token.kind == TokenKind::SquareClose
    ||| token.kind == TokenKind::CurlyClose
}

/// Whether a token opens an attribute, or stands in front of one.
pub open spec fn opens_attribute(token: syntax::TokenView) -> bool {
    ||| token.kind == TokenKind::Word || token.kind == TokenKind::Comment
    ||| token.kind == TokenKind::StringStart || token.kind == TokenKind::DynamicStart
}

/// Whether a token is not cut short, or ends the text, or has space behind it.
pub open spec fn is_whole(tokens: Tokens, k: int) -> bool {
    let s = tokens[k].text;
    ||| k + 1 == tokens.len() || tokens[k + 1].kind == TokenKind::White
    ||| tokens[k].kind != TokenKind::Error && tokens[k].kind != TokenKind::Less
    ||| tokens[k].kind == TokenKind::Error && s.len() > 0 && s[0] != '<' && (s.last() != '/'
        || s.drop_last().contains('/'))
    ||| tokens[k].kind == TokenKind::Less && tokens[k].within != NodeKind::Error
}

/// Code with space only where the formatter leaves tokens as they are, and with
/// mistakes only where they break no string and no path, can be formatted,
/// whatever is interpolated in it, if no carriage return stands in its comments
/// or nothing but ASCII does.
pub proof fn law_tidy_code_can_be_formatted(
    s: Seq<char>,
    nodes: Seq<syntax::NodeView>,
    tokens: Tokens,
)
    requires
        forall|i: int, p: int|
            #![trigger nodes[i], nodes[p]]
            0 <= p < i < nodes.len() && i < p + nodes[p].extent && nodes[i].kind == NodeKind::Error
                && nodes[p].kind == NodeKind::Text ==> nodes[p].range.start + 2
                >= vstd::utf8::encode_utf8(s).len() || vstd::utf8::encode_utf8(
                s,
            )[nodes[p].range.start + 2] != 10 || interpolated(nodes, nodes[p].range),
        forall|k: int|
            0 <= k < tokens.len() ==> #[trigger] is_whole(tokens, k) || interpolated(
                nodes,
                tokens[k].range,
            ),
        forall|k: int|
            0 <= k < tokens.len() && (#[trigger] tokens[k]).kind == TokenKind::Comment
                ==> !tokens[k].text.contains('\r') || vstd::utf8::is_ascii_chars(tokens[k].text)
                || interpolated(nodes, tokens[k].range),
        forall|k: int|
            0 <= k < tokens.len() && tokens[k].kind == TokenKind::White ==> #[trigger] is_tidy(
                tokens,
                k,
            ) || interpolated(nodes, tokens[k].range),
    ensures
        formattable_with(s, nodes, tokens),
{
    let b = vstd::utf8::encode_utf8(s);
    assert forall|k: int| #[trigger] runs_together(tokens, k) implies interpolated(
        nodes,
        tokens[k].range,
    ) by {
        assert(is_tidy(tokens, k) || interpolated(nodes, tokens[k].range));
    }
    reveal_strlit("<");
    assert forall|k: int| #[trigger] falls_apart(tokens, k) implies interpolated(
        nodes,
        tokens[k].range,
    ) by {
        assert(is_whole(tokens, k) || interpolated(nodes, tokens[k].range));
        let token = tokens[k].text;
        if "<"@.is_prefix_of(token) {
            assert(token[0] == "<"@[0]);
        }
        if token.len() > 0 && token.drop_last().contains('/') {
            let i = choose|i: int|
                0 <= i < token.drop_last().len() && token.drop_last()[i] == '/';
            assert(token[i] == '/');
        }
    }
    assert forall|i: int| !#[trigger] breaks_string(b, nodes, i) by {
        if breaks_string(b, nodes, i) {
            let p = tree::enclosing(nodes, i, i)->0;
            lemma_enclosing_holds(nodes, i, i);
            assert(nodes[i].kind == NodeKind::Error && nodes[p].kind == NodeKind::Text);
        }
    }
    assert forall|k: int| 0 <= k < tokens.len() implies !is_cut(nodes, #[trigger] tokens[k]) by {
        if tokens[k].kind == TokenKind::Comment && !interpolated(nodes, tokens[k].range) {
            if tokens[k].text.contains('\r') {
                vstd::utf8::is_ascii_chars_encode_utf8(tokens[k].text);
            } else {
                lemma_comments_without_returns(tokens[k].text);
            }
        }
    }
}

proof fn lemma_enclosing_holds(nodes: Seq<syntax::NodeView>, node: int, below: int)
    requires
        tree::enclosing(nodes, node, below) is Some,
    ensures
        ({
            let p = tree::enclosing(nodes, node, below)->0;
            0 <= p < below && node < p + nodes[p].extent
        }),
    decreases below,
{
    if below > 0 && !(node < below - 1 + nodes[below - 1].extent) {
        lemma_enclosing_holds(nodes, node, below - 1);
    }
}

/// Whether space parts two tokens that would become others without it: a dot
/// from a path, a URL, a number or the like before it, or from what is no
/// attribute behind it, an inherited name from what could go on with it, and a
/// comma, a colon or a closing sign from what could take it in.
pub open spec fn parts_tokens(tokens: Tokens, k: int) -> bool {
    0 < k && k + 1 < tokens.len() && tokens[k].kind == TokenKind::White && {
        let a = tokens[k - 1];
        let b = tokens[k + 1];
        ||| b.kind == TokenKind::Dot && b.within == NodeKind::Select && (a.kind == TokenKind::Uri
            || a.kind == TokenKind::Other || a.kind == TokenKind::Error || a.kind
            == TokenKind::Slash || a.kind == TokenKind::Colon || a.kind == TokenKind::Path
            && !"<"@.is_prefix_of(a.text))
        ||| a.kind == TokenKind::Dot && a.within == NodeKind::Select && (b.kind == TokenKind::Path
            || b.kind == TokenKind::Uri || b.kind == TokenKind::Colon || b.kind == TokenKind::Error
            || b.kind == TokenKind::Dot || b.kind == TokenKind::Other)
        ||| a.kind == TokenKind::Word && a.within == NodeKind::Identifier && a.above
            == NodeKind::Inherit && !tokens[k].text.contains('\n') && b.kind != TokenKind::Comment
            && b.kind != TokenKind::Word && b.text.len() > 0 && (b.text[0] == '\'' || b.text[0]
            == ':' || b.text[0] == '/' || b.text[0] == '.' || '0' <= b.text[0] <= '9')
        ||| b.kind == TokenKind::Comma && b.within == NodeKind::Pattern && (a.kind == TokenKind::Uri
            || a.kind == TokenKind::Slash || a.kind == TokenKind::Colon)
            && !tokens[k].text.contains('\n')
        ||| b.kind == TokenKind::Colon && b.within == NodeKind::Lambda && (a.kind == TokenKind::Uri
            || a.kind == TokenKind::Path || a.kind == TokenKind::Slash || a.kind
            == TokenKind::Colon || a.kind == TokenKind::Error || a.kind == TokenKind::Other)
        ||| b.kind == TokenKind::Colon && b.within == NodeKind::Lambda && k + 2 < tokens.len()
            && goes_with_colon(tokens[k + 2])
        ||| b.kind == TokenKind::Colon && b.within == NodeKind::Lambda && k + 3 < tokens.len()
            && tokens[k + 2].kind == TokenKind::White && goes_with_colon(tokens[k + 3])
        ||| b.kind == TokenKind::Dot && b.within == NodeKind::Select && k + 2 < tokens.len() && (
        tokens[k + 2].kind == TokenKind::Path || tokens[k + 2].kind == TokenKind::Uri || tokens[k
            + 2].kind == TokenKind::Colon || tokens[k + 2].kind == TokenKind::Error || tokens[k
            + 2].kind == TokenKind::Dot || tokens[k + 2].kind == TokenKind::Other)
        ||| a.kind == TokenKind::Slash && (b.kind == TokenKind::ParenClose || b.kind
            == TokenKind::SquareClose || b.kind == TokenKind::CurlyClose || b.kind
            == TokenKind::Semicolon)
    }
}

/// Whether a token could go on with a URL that begins with a colon.
pub open spec fn goes_with_colon(token: syntax::TokenView) -> bool {
    token.kind == TokenKind::Comma || token.kind == TokenKind::Colon || token.kind == TokenKind::Dot
}

/// Whether something directly follows a token that is cut short, and that could
/// become a path: one that holds a slash at its end alone or that begins with an
/// opening bracket, or such a bracket where nothing is compared.
pub open spec fn comes_apart(tokens: Tokens, k: int) -> bool {
    0 <= k && k + 1 < tokens.len() && tokens[k + 1].kind != TokenKind::White && {
        let s = tokens[k].text;
        ||| tokens[k].kind == TokenKind::Error && s.len() > 0 && s.last() == '/'
            && !s.drop_last().contains('/')
        ||| tokens[k].kind == TokenKind::Error && s.len() > 0 && s[0] == '<'
        ||| tokens[k].kind == TokenKind::Less && tokens[k].within == NodeKind::Error
    }
}

/// A text in which things are interpolated more than once cannot be formatted if
/// tokens in it could become others, or if a string in it that begins with a
/// newline holds what the grammar has no place for.
pub proof fn law_unsteady_texts_cannot_be_formatted(
    s: Seq<char>,
    nodes: Seq<syntax::NodeView>,
    tokens: Tokens,
    i: int,
    j: int,
    k: int,
    parent: int,
)
    requires
        0 <= i < j && j + 1 < s.len(),
        s[i] == '$' && s[i + 1] == '{' && s[j] == '$' && s[j + 1] == '{',
        ({
            ||| parts_tokens(tokens, k) && !interpolated(nodes, tokens[k].range)
            ||| comes_apart(tokens, k) && !interpolated(nodes, tokens[k].range)
            ||| 0 <= parent < k < nodes.len() && nodes[k].kind == NodeKind::Error && k < parent
                + nodes[parent].extent && nodes[parent].kind == NodeKind::Text && (forall|q: int|
                #![trigger nodes[q]]
                parent < q < k ==> k >= q + nodes[q].extent) && !interpolated(
                nodes,
                nodes[parent].range,
            ) && nodes[parent].range.start + 2 < vstd::utf8::encode_utf8(s).len()
                && vstd::utf8::encode_utf8(s)[nodes[parent].range.start + 2] == 10
        }),
    ensures
        !formattable_with(s, nodes, tokens),
{
    assert(pair_at(s, i, '$', '{') && pair_at(s, j, '$', '{'));
    assert(interpolates_twice(s));
    if parts_tokens(tokens, k) && !interpolated(nodes, tokens[k].range) {
        assert(runs_together(tokens, k));
    } else if comes_apart(tokens, k) && !interpolated(nodes, tokens[k].range) {
        let token = tokens[k].text;
        reveal_strlit("<");
        assert(token.len() > 0 && token[0] == '<' ==> "<"@.is_prefix_of(token));
        if token.len() > 0 && !token.drop_last().contains('/') {
            assert forall|l: int| 0 <= l < token.len() - 1 implies token[l] != '/' by {
                assert(token.drop_last()[l] == token[l]);
            }
        }
        assert(falls_apart(tokens, k));
    } else {
        lemma_enclosing_is_parent(nodes, k, k, parent);
        assert(breaks_string(vstd::utf8::encode_utf8(s), nodes, k));
    }
}

proof fn lemma_enclosing_is_parent(
    nodes: Seq<syntax::NodeView>,
    node: int,
    below: int,
    parent: int,
)
    requires
        0 <= parent < below <= node,
        node < parent + nodes[parent].extent,
        forall|q: int|
            #![trigger nodes[q]]
            parent < q < below ==> node >= q + nodes[q].extent,
    ensures
        tree::enclosing(nodes, node, below) == Some(parent),
    decreases below,
{
    if below - 1 > parent {
        lemma_enclosing_is_parent(nodes, node, below - 1, parent);
    }
}

/// The newlines before an index that stand behind a carriage return.
pub open spec fn returned_lines(b: Seq<u8>, i: int) -> Set<int> {
    vstd::set_lib::set_int_range(1, i).filter(|j: int| b[j] == 10 && b[j - 1] == 13)
}

proof fn lemma_returned_lines(b: Seq<u8>, i: int)
    ensures
        returned_lines(b, i).finite(),
        returned_lines(b, i).len() == returns_before(b, i),
    decreases i,
{
    if i <= 1 {
        assert(returned_lines(b, i) =~= Set::empty());
    } else {
        lemma_returned_lines(b, i - 1);
        if b[i - 1] == 10 && b[i - 2] == 13 {
            assert(returned_lines(b, i) =~= returned_lines(b, i - 1).insert(i - 1));
        } else {
            assert(returned_lines(b, i) =~= returned_lines(b, i - 1));
        }
    }
}

proof fn lemma_count_spaces(b: Seq<u8>, i: int, n: nat)
    requires
        0 <= i && i + n < b.len(),
        forall|j: int| i <= j < i + n ==> #[trigger] b[j] == 32,
        b[i + n] != 32,
    ensures
        spaces_at(b, i) == n,
    decreases n,
{
    if n > 0 {
        assert(b[i] == 32);
        lemma_count_spaces(b, i + 1, (n - 1) as nat);
    }
}

/// A text cannot be formatted if one of its comments is cut, and a character of
/// several bytes stands behind a carriage return in it. The comment is cut if the
/// place of a line in it, or that of the first sign on the line, falls into a
/// character when it is moved to the left by one byte for each carriage return
/// before it.
pub proof fn law_cut_comments_cannot_be_formatted(
    s: Seq<char>,
    nodes: Seq<syntax::NodeView>,
    tokens: Tokens,
    j: int,
    m: int,
    k: int,
    i: int,
    spaces: nat,
)
    requires
        0 <= j < m < s.len(),
        s[j] == '\r',
        text::width(s[m]) > 1,
        0 <= k < tokens.len(),
        tokens[k].kind == TokenKind::Comment,
        !interpolated(nodes, tokens[k].range),
        ({
            let b = vstd::utf8::encode_utf8(tokens[k].text);
            let p = i - returned_lines(b, i).len();
            &&& 0 < i && i + spaces < b.len()
            &&& b[i - 1] == 10
            &&& forall|l: int| i <= l < i + spaces ==> #[trigger] b[l] == 32
            &&& b[i + spaces] != 10 && b[i + spaces] != 13 && b[i + spaces] != 32
            &&& {
                ||| 0 <= p < b.len() && 0x80 <= b[p] < 0xc0
                ||| 0 <= p + spaces < b.len() && 0x80 <= b[p + spaces] < 0xc0
            }
        }),
    ensures
        !formattable_with(s, nodes, tokens),
{
    let b = vstd::utf8::encode_utf8(tokens[k].text);
    assert(slips(s)) by {
        assert(s[j] == '\r' && text::width(s[m]) > 1);
    }
    lemma_count_spaces(b, i, spaces);
    lemma_returned_lines(b, i);
    assert(misses_line(b, i));
    assert(cuts_comment(b));
    assert(is_cut(nodes, tokens[k]));
}

/// Bytes are interpolated if they lie in what is interpolated, and not if they
/// stick out of all that is.
pub proof fn law_interpolations_hold_their_bytes(
    nodes: Seq<syntax::NodeView>,
    range: TextRange,
    i: int,
)
    ensures
        0 <= i < nodes.len() && nodes[i].kind == NodeKind::Interpolation && nodes[i].range.start
            <= range.start && range.end <= nodes[i].range.end ==> interpolated(nodes, range),
        (forall|j: int|
            #![trigger nodes[j]]
            0 <= j < nodes.len() && nodes[j].kind == NodeKind::Interpolation ==> range.start
                < nodes[j].range.start || nodes[j].range.end < range.end) ==> !interpolated(
            nodes,
            range,
        ),
{
}

} // verus!
