//! Links from the paths in a file to the files that they name.

use vstd::prelude::*;

use crate::position;
use crate::position::{Range, TextRange};
use crate::syntax;
use crate::syntax::{Anchor, Node, NodeKind, TokenKind};
use crate::text;

verus! {

/// The file that a path to a directory stands for.
pub const DEFAULT_FILE: &'static str = "default.nix";

/// What a path becomes a URL with.
pub const FILE_SCHEME: &'static str = "file://";

/// Where a path starts from.
#[derive(Clone, Copy, Debug, PartialEq, Eq, Structural)]
pub enum Base {
    /// The root of the file system: the path is absolute.
    Root,
    /// The directory of the file that holds the path.
    ParentDir,
    HomeDir,
}

/// A path in a file, and where it starts from.
#[derive(Debug, PartialEq, Eq)]
pub struct Candidate {
    pub range: TextRange,
    pub base: Base,
    pub path: String,
}

/// What a candidate holds.
pub struct CandidateView {
    pub range: TextRange,
    pub base: Base,
    pub path: Seq<char>,
}

impl DeepView for Candidate {
    type V = CandidateView;

    open spec fn deep_view(&self) -> CandidateView {
        CandidateView {
            range: self.range,
            base: self.base,
            path: self.path@,
        }
    }
}

/// What the file system holds at the path of a candidate, and at the default
/// file below that path.
#[derive(Debug, PartialEq, Eq)]
pub struct Probe {
    pub path: String,
    pub is_dir: bool,
    pub is_file: bool,
    pub default_path: String,
    pub default_is_file: bool,
}

/// What a probe holds.
pub struct ProbeView {
    pub path: Seq<char>,
    pub is_dir: bool,
    pub is_file: bool,
    pub default_path: Seq<char>,
    pub default_is_file: bool,
}

impl DeepView for Probe {
    type V = ProbeView;

    open spec fn deep_view(&self) -> ProbeView {
        ProbeView {
            path: self.path@,
            is_dir: self.is_dir,
            is_file: self.is_file,
            default_path: self.default_path@,
            default_is_file: self.default_is_file,
        }
    }
}

/// A stretch of bytes that leads to a URL.
#[derive(Debug, PartialEq, Eq)]
pub struct FileLink {
    pub range: TextRange,
    pub url: String,
}

/// What such a stretch holds.
pub struct FileLinkView {
    pub range: TextRange,
    pub url: Seq<char>,
}

impl DeepView for FileLink {
    type V = FileLinkView;

    open spec fn deep_view(&self) -> FileLinkView {
        FileLinkView { range: self.range, url: self.url@ }
    }
}

/// A link as the editor is told of it.
#[derive(Debug, PartialEq, Eq)]
pub struct DocumentLink {
    pub range: Range,
    pub target: String,
}

/// What a link holds.
pub struct DocumentLinkView {
    pub range: Range,
    pub target: Seq<char>,
}

impl DeepView for DocumentLink {
    type V = DocumentLinkView;

    open spec fn deep_view(&self) -> DocumentLinkView {
        DocumentLinkView { range: self.range, target: self.target@ }
    }
}

/// The path that a node names: relative to the directory of the file, relative
/// to the home directory, or absolute. A path on the search path names no file,
/// nor does one that starts from a directory which there is not.
pub open spec fn candidate_of(
    node: syntax::NodeView,
    has_parent: bool,
    has_home: bool,
) -> Option<CandidateView> {
    if node.kind != NodeKind::Literal || node.token_kind != TokenKind::Path {
        None
    } else {
        match syntax::path_of(node.token) {
            Some((Anchor::Absolute, path)) => Some(
                CandidateView { range: node.range, base: Base::Root, path },
            ),
            Some((Anchor::Relative, path)) => if has_parent {
                Some(CandidateView { range: node.range, base: Base::ParentDir, path })
            } else {
                None
            },
            Some((Anchor::Home, path)) => if has_home {
                Some(CandidateView { range: node.range, base: Base::HomeDir, path })
            } else {
                None
            },
            Some((Anchor::Store, _)) => None,
            None => None,
        }
    }
}

/// The paths that the nodes of a file name, in order.
pub open spec fn candidates(
    nodes: Seq<syntax::NodeView>,
    has_parent: bool,
    has_home: bool,
) -> Seq<CandidateView>
    decreases nodes.len(),
{
    if nodes.len() == 0 {
        seq![]
    } else {
        let before = candidates(nodes.drop_last(), has_parent, has_home);
        match candidate_of(nodes.last(), has_parent, has_home) {
            Some(candidate) => before.push(candidate),
            None => before,
        }
    }
}

/// The file that a probed path leads to: for a directory its default file, for
/// anything else the path itself, and only where that is a file.
pub open spec fn target_of(probe: ProbeView) -> Option<Seq<char>> {
    if probe.is_dir {
        if probe.default_is_file {
            Some(probe.default_path)
        } else {
            None
        }
    } else if probe.is_file {
        Some(probe.path)
    } else {
        None
    }
}

/// The URL that `lsp_types::Url::parse` reads in a text, written out, or `None`
/// if there is none.
pub uninterp spec fn url_of(text: Seq<char>) -> Option<Seq<char>>;

/// The URL of a file.
pub open spec fn file_url_of(path: Seq<char>) -> Option<Seq<char>> {
    url_of(FILE_SCHEME@ + path)
}

/// The link that a path makes, if a file is found for it.
pub open spec fn link_of(candidate: CandidateView, probe: ProbeView) -> Option<FileLinkView> {
    match target_of(probe) {
        Some(path) => match file_url_of(path) {
            Some(url) => Some(FileLinkView { range: candidate.range, url }),
            None => None,
        },
        None => None,
    }
}

/// The links that paths make, in order, each with the probe in its place. A path
/// without a probe makes none.
pub open spec fn links_of(candidates: Seq<CandidateView>, probes: Seq<ProbeView>) -> Seq<
    FileLinkView,
>
    decreases candidates.len(),
{
    if candidates.len() == 0 {
        seq![]
    } else {
        let last = candidates.len() - 1;
        let before = links_of(candidates.drop_last(), probes);
        if last >= probes.len() {
            before
        } else {
            match link_of(candidates[last], probes[last]) {
                Some(link) => before.push(link),
                None => before,
            }
        }
    }
}

/// The number of newlines among the first bytes of a text.
pub open spec fn lines_before(b: Seq<u8>, n: int) -> nat
    decreases n,
{
    if n <= 0 {
        0
    } else {
        lines_before(b, n - 1) + if b[n - 1] == 10 {
            1nat
        } else {
            0nat
        }
    }
}

/// Whether a byte stands on a line that a newline ends, before that newline.
pub open spec fn on_closed_line(b: Seq<u8>, n: int) -> bool {
    0 <= n < b.len() && b[n] != 10 && exists|j: int| n <= j < b.len() && b[j] == 10
}

/// A link as the editor is told of it.
pub open spec fn placed_link(code: Seq<char>, link: FileLinkView) -> DocumentLinkView {
    DocumentLinkView { range: position::range_at(code, link.range), target: link.url }
}

/// The line on which a link begins.
pub open spec fn line_of(code: Seq<char>, link: FileLinkView) -> nat {
    lines_before(vstd::utf8::encode_utf8(code), link.range.start as int)
}

/// Whether a link begins on a line that a newline ends.
pub open spec fn begins_on_closed_line(code: Seq<char>, link: FileLinkView) -> bool {
    on_closed_line(vstd::utf8::encode_utf8(code), link.range.start as int)
}

/// The links as the editor is told of them, from the given line on. The first
/// link that does not stand on a closed line, or that stands on a line before
/// the one of the link before it, ends the list.
pub open spec fn placed(code: Seq<char>, links: Seq<FileLinkView>, line: nat) -> Seq<
    DocumentLinkView,
>
    decreases links.len(),
{
    if links.len() == 0 || !begins_on_closed_line(code, links[0]) || line_of(code, links[0])
        < line {
        seq![]
    } else {
        seq![placed_link(code, links[0])] + placed(
            code,
            links.drop_first(),
            line_of(code, links[0]),
        )
    }
}

/// `lsp_types::Url::parse`: the URL in a text, written out. It depends on the
/// text alone.
#[verifier::external_body]
fn parse_url(text: &str) -> (r: Option<String>)
    ensures
        r.deep_view() == url_of(text@),
{
    lsp_types::Url::parse(text).ok().map(String::from)
}

/// The URL of a file.
pub fn file_url(path: &str) -> (r: Option<String>)
    ensures
        r.deep_view() == file_url_of(path@),
{
    let mut text: String = FILE_SCHEME.to_owned();
    text.append(path);
    parse_url(text.as_str())
}

/// The paths that the nodes of a file name, in order.
pub fn link_candidates(
    nodes: &Vec<Node>,
    has_parent: bool,
    has_home: bool,
) -> (r: Vec<Candidate>)
    ensures
        r.deep_view() == candidates(nodes.deep_view(), has_parent, has_home),
{
    let mut found: Vec<Candidate> = Vec::new();
    let mut i: usize = 0;
    let ghost tree = nodes.deep_view();
    assert(tree.take(0) =~= seq![]);
    assert(found.deep_view() =~= seq![]);
    while i < nodes.len()
        invariant
            i <= nodes@.len(),
            tree == nodes.deep_view(),
            found.deep_view() == candidates(tree.take(i as int), has_parent, has_home),
        decreases nodes.len() - i,
    {
        let ghost before = found.deep_view();
        proof {
            assert(tree.take(i + 1).drop_last() =~= tree.take(i as int));
            assert(tree.take(i + 1).last() == nodes@[i as int].deep_view());
        }
        if let Some(candidate) = link_candidate(&nodes[i], has_parent, has_home) {
            found.push(candidate);
            assert(found.deep_view() =~= before.push(candidate.deep_view()));
        }
        i = i + 1;
    }
    assert(tree.take(nodes@.len() as int) =~= tree);
    found
}

/// The path that a node names.
fn link_candidate(node: &Node, has_parent: bool, has_home: bool) -> (r: Option<Candidate>)
    ensures
        r.deep_view() == candidate_of(node.deep_view(), has_parent, has_home),
{
    if node.kind != NodeKind::Literal || node.token_kind != TokenKind::Path {
        return None;
    }
    let range = node.range;
    match syntax::parse_path(node.token.as_str()) {
        Some((Anchor::Absolute, path)) => Some(Candidate { range, base: Base::Root, path }),
        Some((Anchor::Relative, path)) => if has_parent {
            Some(Candidate { range, base: Base::ParentDir, path })
        } else {
            None
        },
        Some((Anchor::Home, path)) => if has_home {
            Some(Candidate { range, base: Base::HomeDir, path })
        } else {
            None
        },
        Some((Anchor::Store, _)) => None,
        None => None,
    }
}

/// The file that a probed path leads to.
pub fn link_target(probe: &Probe) -> (r: Option<&String>)
    ensures
        match r {
            Some(path) => target_of(probe.deep_view()) == Some(path@),
            None => target_of(probe.deep_view()) is None,
        },
{
    if probe.is_dir {
        if probe.default_is_file {
            Some(&probe.default_path)
        } else {
            None
        }
    } else if probe.is_file {
        Some(&probe.path)
    } else {
        None
    }
}

/// The links that paths make, in order, each with the probe in its place.
pub fn resolve_links(candidates: &Vec<Candidate>, probes: &Vec<Probe>) -> (r: Vec<FileLink>)
    ensures
        r.deep_view() == links_of(candidates.deep_view(), probes.deep_view()),
{
    let mut found: Vec<FileLink> = Vec::new();
    let mut i: usize = 0;
    let ghost all = candidates.deep_view();
    assert(all.take(0) =~= seq![]);
    assert(found.deep_view() =~= seq![]);
    while i < candidates.len()
        invariant
            i <= candidates@.len(),
            all == candidates.deep_view(),
            found.deep_view() == links_of(all.take(i as int), probes.deep_view()),
        decreases candidates.len() - i,
    {
        let ghost before = found.deep_view();
        proof {
            assert(all.take(i + 1).drop_last() =~= all.take(i as int));
            assert(all.take(i + 1).last() == candidates@[i as int].deep_view());
        }
        if i < probes.len() {
            assert(probes.deep_view()[i as int] == probes@[i as int].deep_view());
            if let Some(path) = link_target(&probes[i]) {
                if let Some(url) = file_url(path.as_str()) {
                    let link = FileLink { range: candidates[i].range, url };
                    found.push(link);
                    assert(found.deep_view() =~= before.push(link.deep_view()));
                }
            }
        }
        i = i + 1;
    }
    assert(all.take(candidates@.len() as int) =~= all);
    found
}

proof fn lemma_lines_before(b: Seq<u8>, m: int, n: int)
    requires
        0 <= m <= n,
    ensures
        lines_before(b, m) <= lines_before(b, n),
        forall|j: int| m <= j < n && b[j] == 10 ==> lines_before(b, m) < lines_before(b, n),
        (forall|j: int| m <= j < n ==> b[j] != 10) ==> lines_before(b, m) == lines_before(b, n),
        lines_before(b, n) <= n,
    decreases n,
{
    if m < n {
        lemma_lines_before(b, m, n - 1);
    } else if n > 0 {
        lemma_lines_before(b, m - 1, n - 1);
    }
}

/// The links as the editor is told of them.
pub fn place_links(code: &str, links: &Vec<FileLink>) -> (r: Vec<DocumentLink>)
    requires
        text::measurable(code@),
    ensures
        r.deep_view() == placed(code@, links.deep_view(), 0),
{
    let bytes = code.as_bytes();
    let ghost s = code@;
    let ghost b = bytes@;
    let ghost all = links.deep_view();
    let mut out: Vec<DocumentLink> = Vec::new();
    let mut next_link: usize = 0;
    let mut line_start: usize = 0;
    let mut i: usize = 0;
    proof {
        text::lemma_byte_len_is_utf8(s);
        assert(all.skip(0) =~= all);
        assert(out.deep_view() =~= seq![]);
        assert(seq![] + placed(s, all, 0) =~= placed(s, all, 0));
    }
    while i < bytes.len()
        invariant
            i <= b.len() <= u32::MAX,
            bytes@ == b,
            code@ == s,
            b == vstd::utf8::encode_utf8(s),
            text::measurable(s),
            all == links.deep_view(),
            next_link <= links@.len(),
            line_start <= i,
            line_start > 0 ==> b[line_start - 1] == 10,
            forall|j: int| line_start <= j < i ==> b[j] != 10,
            out.deep_view() + placed(
                s,
                all.skip(next_link as int),
                lines_before(b, line_start as int),
            ) == placed(s, all, 0),
        decreases bytes.len() - i,
    {
        if bytes[i] == 10 {
            let ghost line = lines_before(b, line_start as int);
            while next_link < links.len() && links[next_link].range.start as usize >= line_start
                && (links[next_link].range.start as usize) < i
                invariant
                    i < b.len() <= u32::MAX,
                    b[i as int] == 10,
                    code@ == s,
                    b == vstd::utf8::encode_utf8(s),
                    text::measurable(s),
                    all == links.deep_view(),
                    next_link <= links@.len(),
                    line_start <= i,
                    line == lines_before(b, line_start as int),
                    forall|j: int| line_start <= j < i ==> b[j] != 10,
                    out.deep_view() + placed(s, all.skip(next_link as int), line) == placed(
                        s,
                        all,
                        0,
                    ),
                decreases links.len() - next_link,
            {
                let link = &links[next_link];
                let ghost before = out.deep_view();
                let ghost rest = all.skip(next_link as int);
                let ghost start = link.range.start as int;
                proof {
                    lemma_lines_before(b, line_start as int, start);
                    assert(rest[0] == link.deep_view());
                    assert(rest.drop_first() =~= all.skip(next_link + 1));
                    assert(on_closed_line(b, start));
                    assert(line_of(s, rest[0]) == line);
                }
                let document_link = DocumentLink {
                    range: position::range(code, link.range),
                    target: link.url.clone(),
                };
                out.push(document_link);
                proof {
                    assert(out.deep_view() =~= before.push(document_link.deep_view()));
                    assert(document_link.deep_view() == placed_link(s, rest[0]));
                    assert(out.deep_view() + placed(s, rest.drop_first(), line) =~= before
                        + placed(s, rest, line));
                }
                next_link = next_link + 1;
            }
            proof {
                let rest = all.skip(next_link as int);
                lemma_lines_before(b, line_start as int, i as int);
                if next_link < links@.len() {
                    let start = rest[0].range.start as int;
                    assert(start == links@[next_link as int].range.start);
                    if start < line_start {
                        lemma_lines_before(b, start, line_start as int);
                        assert(b[line_start - 1] == 10);
                    } else if start > i {
                        lemma_lines_before(b, i + 1, start);
                    }
                }
                assert(lines_before(b, i + 1) == line + 1);
                assert(placed(s, rest, line) == placed(s, rest, line + 1));
            }
            line_start = i + 1;
        }
        i = i + 1;
    }
    proof {
        let rest = all.skip(next_link as int);
        if next_link < links@.len() {
            let start = rest[0].range.start as int;
            if on_closed_line(b, start) {
                let j = choose|j: int| start <= j < b.len() && b[j] == 10;
                assert(start < line_start);
                lemma_lines_before(b, start, line_start as int);
                assert(b[line_start - 1] == 10);
            }
        }
        assert(placed(s, rest, lines_before(b, line_start as int)) =~= seq![]);
        assert(out.deep_view() + seq![] =~= out.deep_view());
    }
    out
}

/// The links that the editor is told of are the first ones, in their order,
/// and each leads to its own URL.
pub proof fn law_links_keep_their_order(code: Seq<char>, links: Seq<FileLinkView>, line: nat)
    ensures
        placed(code, links, line).len() <= links.len(),
        forall|i: int|
            0 <= i < placed(code, links, line).len() ==> #[trigger] placed(code, links, line)[i]
                == placed_link(code, links[i]),
    decreases links.len(),
{
    let all = placed(code, links, line);
    if all.len() > 0 {
        let next_line = line_of(code, links[0]);
        let rest = placed(code, links.drop_first(), next_line);
        law_links_keep_their_order(code, links.drop_first(), next_line);
        assert forall|i: int| 0 <= i < all.len() implies #[trigger] all[i] == placed_link(
            code,
            links[i],
        ) by {
            if i > 0 {
                assert(all[i] == rest[i - 1]);
            }
        }
    }
}

/// No link is lost if each one stands on a closed line, and none before the one
/// that comes before it.
pub proof fn law_ordered_links_are_all_placed(code: Seq<char>, links: Seq<FileLinkView>)
    requires
        forall|i: int|
            0 <= i < links.len() ==> begins_on_closed_line(code, #[trigger] links[i]),
        forall|i: int, j: int|
            0 <= i <= j < links.len() ==> (#[trigger] links[i]).range.start <= (
            #[trigger] links[j]).range.start,
    ensures
        placed(code, links, 0).len() == links.len(),
{
    lemma_ordered_links(code, links, 0);
}

proof fn lemma_ordered_links(code: Seq<char>, links: Seq<FileLinkView>, line: nat)
    requires
        forall|i: int|
            0 <= i < links.len() ==> begins_on_closed_line(code, #[trigger] links[i]),
        forall|i: int, j: int|
            0 <= i <= j < links.len() ==> (#[trigger] links[i]).range.start <= (
            #[trigger] links[j]).range.start,
        links.len() > 0 ==> line_of(code, links[0]) >= line,
    ensures
        placed(code, links, line).len() == links.len(),
    decreases links.len(),
{
    if links.len() > 0 {
        let rest = links.drop_first();
        assert(begins_on_closed_line(code, links[0]));
        if rest.len() > 0 {
            assert(rest[0] == links[1]);
            lemma_lines_before(
                vstd::utf8::encode_utf8(code),
                links[0].range.start as int,
                links[1].range.start as int,
            );
        }
        lemma_ordered_links(code, rest, line_of(code, links[0]));
    }
}

/// Whether a stretch of bytes is that of a path in a tree.
pub open spec fn is_path(nodes: Seq<syntax::NodeView>, range: TextRange) -> bool {
    exists|i: int|
        0 <= i < nodes.len() && (#[trigger] nodes[i]).kind == NodeKind::Literal
            && nodes[i].token_kind == TokenKind::Path && nodes[i].range == range
}

/// Each candidate is a path in the tree, and they stand in the text in their
/// order.
pub proof fn law_candidates_are_paths(
    nodes: Seq<syntax::NodeView>,
    has_parent: bool,
    has_home: bool,
)
    requires
        syntax::nested(nodes),
        forall|i: int| 0 <= i < nodes.len() ==> (#[trigger] nodes[i]).range.ordered(),
    ensures
        forall|k: int|
            0 <= k < candidates(nodes, has_parent, has_home).len() ==> is_path(
                nodes,
                (#[trigger] candidates(nodes, has_parent, has_home)[k]).range,
            ),
        forall|k: int, l: int|
            0 <= k <= l < candidates(nodes, has_parent, has_home).len() ==> (
            #[trigger] candidates(nodes, has_parent, has_home)[k]).range.start <= (
            #[trigger] candidates(nodes, has_parent, has_home)[l]).range.start,
{
    assert(nodes.take(nodes.len() as int) =~= nodes);
    lemma_candidates(nodes, has_parent, has_home, nodes.len() as int);
}

proof fn lemma_candidates(
    nodes: Seq<syntax::NodeView>,
    has_parent: bool,
    has_home: bool,
    n: int,
)
    requires
        syntax::nested(nodes),
        forall|i: int| 0 <= i < nodes.len() ==> (#[trigger] nodes[i]).range.ordered(),
        0 <= n <= nodes.len(),
    ensures
        ({
            let found = candidates(nodes.take(n), has_parent, has_home);
            &&& forall|k: int|
                0 <= k < found.len() ==> is_path(nodes, (#[trigger] found[k]).range)
            &&& forall|k: int, i: int|
                0 <= k < found.len() && n <= i < nodes.len() ==> (#[trigger] found[k]).range.start
                    <= (#[trigger] nodes[i]).range.start
            &&& forall|k: int, l: int|
                0 <= k <= l < found.len() ==> (#[trigger] found[k]).range.start <= (
                #[trigger] found[l]).range.start
        }),
    decreases n,
{
    if n > 0 {
        lemma_candidates(nodes, has_parent, has_home, n - 1);
        assert(nodes.take(n).drop_last() =~= nodes.take(n - 1));
        assert(nodes.take(n).last() == nodes[n - 1]);
        let before = candidates(nodes.take(n - 1), has_parent, has_home);
        let found = candidates(nodes.take(n), has_parent, has_home);
        assert forall|i: int| n <= i < nodes.len() implies nodes[n - 1].range.start <= (
        #[trigger] nodes[i]).range.start by {
            if i >= n - 1 + nodes[n - 1].extent {
                assert(nodes[n - 1].range.ordered());
            }
        }
        if candidate_of(nodes[n - 1], has_parent, has_home) is Some {
            assert(found.drop_last() =~= before);
            assert(found.last().range == nodes[n - 1].range);
        }
    }
}

/// Whether a link is made by one of some paths.
pub open spec fn is_made(
    candidates: Seq<CandidateView>,
    probes: Seq<ProbeView>,
    link: FileLinkView,
) -> bool {
    exists|i: int|
        0 <= i < candidates.len() && i < probes.len() && #[trigger] link_of(
            candidates[i],
            probes[i],
        ) == Some(link)
}

/// Every path for which a file is found makes one link, over its own bytes, and
/// nothing else does.
pub proof fn law_one_link_per_path(
    candidates: Seq<CandidateView>,
    probes: Seq<ProbeView>,
)
    ensures
        forall|k: int|
            0 <= k < links_of(candidates, probes).len() ==> is_made(
                candidates,
                probes,
                #[trigger] links_of(candidates, probes)[k],
            ),
        forall|i: int|
            0 <= i < candidates.len() && i < probes.len() ==> (#[trigger] link_of(
                candidates[i],
                probes[i],
            ) matches Some(link) ==> links_of(candidates, probes).contains(link)),
        links_of(candidates, probes).len() <= candidates.len(),
        (forall|i: int, j: int|
            0 <= i <= j < candidates.len() ==> (#[trigger] candidates[i]).range.start <= (
            #[trigger] candidates[j]).range.start) ==> (forall|k: int, l: int|
            0 <= k <= l < links_of(candidates, probes).len() ==> (#[trigger] links_of(
                candidates,
                probes,
            )[k]).range.start <= (#[trigger] links_of(candidates, probes)[l]).range.start),
    decreases candidates.len(),
{
    if candidates.len() > 0 {
        let last = candidates.len() - 1;
        let fewer = candidates.drop_last();
        law_one_link_per_path(fewer, probes);
        let before = links_of(fewer, probes);
        let all = links_of(candidates, probes);
        assert forall|k: int| 0 <= k < all.len() implies is_made(
            candidates,
            probes,
            #[trigger] all[k],
        ) by {
            if k < before.len() {
                assert(all[k] == before[k]);
                assert(is_made(fewer, probes, before[k]));
                let i = choose|i: int|
                    0 <= i < fewer.len() && i < probes.len() && #[trigger] link_of(
                        fewer[i],
                        probes[i],
                    ) == Some(before[k]);
                assert(link_of(candidates[i], probes[i]) == Some(all[k]));
            } else {
                assert(link_of(candidates[last], probes[last]) == Some(all[k]));
            }
        }
        assert forall|i: int|
            0 <= i < candidates.len() && i < probes.len() && link_of(
                candidates[i],
                probes[i],
            ) is Some implies all.contains((#[trigger] link_of(candidates[i], probes[i]))->0) by {
            let link = link_of(candidates[i], probes[i])->0;
            if i < last {
                assert(link_of(fewer[i], probes[i]) == Some(link));
                let k = choose|k: int| 0 <= k < before.len() && before[k] == link;
                assert(all[k] == link);
            } else {
                assert(all[before.len() as int] == link);
            }
        }
        if forall|i: int, j: int|
            0 <= i <= j < candidates.len() ==> (#[trigger] candidates[i]).range.start <= (
            #[trigger] candidates[j]).range.start {
            assert forall|i: int, j: int| 0 <= i <= j < fewer.len() implies (
            #[trigger] fewer[i]).range.start <= (#[trigger] fewer[j]).range.start by {
                assert(fewer[i] == candidates[i] && fewer[j] == candidates[j]);
            }
            assert forall|k: int, l: int| 0 <= k <= l < all.len() implies (
            #[trigger] all[k]).range.start <= (#[trigger] all[l]).range.start by {
                if l < before.len() {
                    assert(all[k] == before[k] && all[l] == before[l]);
                } else if k < before.len() {
                    assert(all[k] == before[k]);
                    assert(is_made(fewer, probes, before[k]));
                    let i = choose|i: int|
                        0 <= i < fewer.len() && i < probes.len() && #[trigger] link_of(
                            fewer[i],
                            probes[i],
                        ) == Some(before[k]);
                    assert(candidates[i].range.start <= candidates[last].range.start);
                }
            }
        }
    }
}

/// Whether each path in a tree is a single token that has characters, none of
/// them a newline.
pub open spec fn plain_paths(nodes: Seq<syntax::NodeView>) -> bool {
    forall|i: int|
        0 <= i < nodes.len() && (#[trigger] nodes[i]).kind == NodeKind::Literal
            && nodes[i].token_kind == TokenKind::Path ==> nodes[i].extent == 1
            && nodes[i].token.len() > 0 && !nodes[i].token.contains('\n')
}

/// Whether no path in a tree begins at a newline.
pub open spec fn paths_off_newlines(nodes: Seq<syntax::NodeView>) -> bool {
    forall|i: int|
        0 <= i < nodes.len() && (#[trigger] nodes[i]).kind == NodeKind::Literal
            && nodes[i].token_kind == TokenKind::Path ==> nodes[i].token.len() > 0
            && nodes[i].token[0] != '\n'
}

proof fn lemma_candidates_apart(
    nodes: Seq<syntax::NodeView>,
    has_parent: bool,
    has_home: bool,
    n: int,
)
    requires
        syntax::nested(nodes),
        plain_paths(nodes),
        0 <= n <= nodes.len(),
    ensures
        ({
            let found = candidates(nodes.take(n), has_parent, has_home);
            &&& forall|k: int, i: int|
                0 <= k < found.len() && n <= i < nodes.len() ==> (#[trigger] found[k]).range.end
                    <= (#[trigger] nodes[i]).range.start
            &&& forall|k: int, l: int|
                0 <= k < l < found.len() ==> (#[trigger] found[k]).range.end <= (
                #[trigger] found[l]).range.start
        }),
    decreases n,
{
    if n > 0 {
        lemma_candidates_apart(nodes, has_parent, has_home, n - 1);
        assert(nodes.take(n).drop_last() =~= nodes.take(n - 1));
        assert(nodes.take(n).last() == nodes[n - 1]);
        let before = candidates(nodes.take(n - 1), has_parent, has_home);
        let found = candidates(nodes.take(n), has_parent, has_home);
        if candidate_of(nodes[n - 1], has_parent, has_home) is Some {
            assert(found.drop_last() =~= before);
            assert(found.last().range == nodes[n - 1].range);
            assert(nodes[n - 1].extent == 1);
        }
    }
}

proof fn lemma_links_apart(candidates: Seq<CandidateView>, probes: Seq<ProbeView>)
    requires
        forall|i: int, j: int|
            0 <= i < j < candidates.len() ==> (#[trigger] candidates[i]).range.end <= (
            #[trigger] candidates[j]).range.start,
    ensures
        forall|k: int, l: int|
            0 <= k < l < links_of(candidates, probes).len() ==> (#[trigger] links_of(
                candidates,
                probes,
            )[k]).range.end <= (#[trigger] links_of(candidates, probes)[l]).range.start,
    decreases candidates.len(),
{
    if candidates.len() > 0 {
        let last = candidates.len() - 1;
        let fewer = candidates.drop_last();
        lemma_links_apart(fewer, probes);
        law_one_link_per_path(fewer, probes);
        let before = links_of(fewer, probes);
        let all = links_of(candidates, probes);
        assert forall|k: int, l: int| 0 <= k < l < all.len() implies (
        #[trigger] all[k]).range.end <= (#[trigger] all[l]).range.start by {
            assert(all[k] == before[k]);
            if l < before.len() {
                assert(all[l] == before[l]);
            } else {
                assert(is_made(fewer, probes, before[k]));
                let i = choose|i: int|
                    0 <= i < fewer.len() && i < probes.len() && #[trigger] link_of(
                        fewer[i],
                        probes[i],
                    ) == Some(before[k]);
                assert(candidates[i].range.end <= candidates[last].range.start);
            }
        }
    }
}

/// The node of the path that a link covers.
proof fn lemma_link_has_path(
    nodes: Seq<syntax::NodeView>,
    has_parent: bool,
    has_home: bool,
    probes: Seq<ProbeView>,
    k: int,
) -> (i: int)
    requires
        syntax::nested(nodes),
        forall|i: int| 0 <= i < nodes.len() ==> (#[trigger] nodes[i]).range.ordered(),
        0 <= k < links_of(candidates(nodes, has_parent, has_home), probes).len(),
    ensures
        0 <= i < nodes.len(),
        nodes[i].kind == NodeKind::Literal,
        nodes[i].token_kind == TokenKind::Path,
        nodes[i].range == links_of(candidates(nodes, has_parent, has_home), probes)[k].range,
{
    let paths = candidates(nodes, has_parent, has_home);
    let link = links_of(paths, probes)[k];
    law_one_link_per_path(paths, probes);
    law_candidates_are_paths(nodes, has_parent, has_home);
    assert(is_made(paths, probes, link));
    let c = choose|c: int|
        0 <= c < paths.len() && c < probes.len() && #[trigger] link_of(paths[c], probes[c])
            == Some(link);
    assert(is_path(nodes, paths[c].range));
    choose|i: int|
        0 <= i < nodes.len() && (#[trigger] nodes[i]).kind == NodeKind::Literal
            && nodes[i].token_kind == TokenKind::Path && nodes[i].range == link.range
}

/// Each link begins and ends on one line, and ends behind its beginning. No link
/// begins before the end of one that comes before it.
pub proof fn law_links_stand_on_one_line(
    code: Seq<char>,
    nodes: Seq<syntax::NodeView>,
    has_parent: bool,
    has_home: bool,
    probes: Seq<ProbeView>,
)
    requires
        text::measurable(code),
        syntax::nested(nodes),
        syntax::spelt_out(code, nodes),
        forall|i: int| 0 <= i < nodes.len() ==> (#[trigger] nodes[i]).range.ordered(),
        plain_paths(nodes),
    ensures
        ({
            let found = links_of(candidates(nodes, has_parent, has_home), probes);
            let told = placed(code, found, 0);
            &&& forall|k: int|
                0 <= k < told.len() ==> (#[trigger] told[k]).range.start.line
                    == told[k].range.end.line && told[k].range.start.character
                    < told[k].range.end.character
            &&& forall|k: int, l: int|
                0 <= k < l < told.len() ==> position::precedes(
                    (#[trigger] told[k]).range.end,
                    (#[trigger] told[l]).range.start,
                )
        }),
{
    let paths = candidates(nodes, has_parent, has_home);
    let found = links_of(paths, probes);
    let told = placed(code, found, 0);
    law_links_keep_their_order(code, found, 0);
    assert forall|k: int| 0 <= k < told.len() implies (#[trigger] told[k]).range.start.line
        == told[k].range.end.line && told[k].range.start.character
        < told[k].range.end.character by {
        let n = lemma_link_has_path(nodes, has_parent, has_home, probes, k);
        let range = nodes[n].range;
        let token = nodes[n].token;
        assert(syntax::stands_at(code, range, token));
        let i = choose|i: int|
            #![trigger code.take(i)]
            0 <= i && i + token.len() <= code.len() && code.subrange(i, i + token.len()) == token
                && range.start == text::byte_len(code.take(i)) && range.end == text::byte_len(
                code.take(i + token.len()),
            );
        let j = i + token.len();
        position::lemma_chars_before_prefix(code, i);
        position::lemma_chars_before_prefix(code, j);
        assert forall|m: int| i <= m < j implies code[m] != '\n' by {
            assert(code[m] == token[m - i]);
        }
        position::lemma_end_of_same_line(code, i, j);
        position::lemma_end_of_bound(code.take(i));
        position::lemma_end_of_bound(code.take(j));
        text::lemma_byte_len_take(code, i);
        text::lemma_byte_len_take(code, j);
    }
    assert(nodes.take(nodes.len() as int) =~= nodes);
    lemma_candidates_apart(nodes, has_parent, has_home, nodes.len() as int);
    lemma_links_apart(paths, probes);
    assert forall|k: int, l: int| 0 <= k < l < told.len() implies position::precedes(
        (#[trigger] told[k]).range.end,
        (#[trigger] told[l]).range.start,
    ) by {
        position::law_positions_keep_order(
            code,
            found[k].range.end as int,
            found[l].range.start as int,
        );
    }
}

/// In a text that ends with a newline, every path for which a file is found is
/// linked.
pub proof fn law_every_path_is_linked(
    code: Seq<char>,
    nodes: Seq<syntax::NodeView>,
    has_parent: bool,
    has_home: bool,
    probes: Seq<ProbeView>,
)
    requires
        code.len() > 0,
        code.last() == '\n',
        syntax::nested(nodes),
        syntax::spelt_out(code, nodes),
        forall|i: int| 0 <= i < nodes.len() ==> (#[trigger] nodes[i]).range.ordered(),
        paths_off_newlines(nodes),
    ensures
        ({
            let paths = candidates(nodes, has_parent, has_home);
            let told = placed(code, links_of(paths, probes), 0);
            &&& told.len() == links_of(paths, probes).len()
            &&& forall|c: int|
                0 <= c < paths.len() && c < probes.len() ==> (#[trigger] link_of(
                    paths[c],
                    probes[c],
                ) matches Some(link) ==> told.contains(placed_link(code, link)))
        }),
{
    let paths = candidates(nodes, has_parent, has_home);
    let found = links_of(paths, probes);
    let told = placed(code, found, 0);
    let b = vstd::utf8::encode_utf8(code);
    assert forall|k: int| 0 <= k < found.len() implies begins_on_closed_line(
        code,
        #[trigger] found[k],
    ) by {
        let n = lemma_link_has_path(nodes, has_parent, has_home, probes, k);
        let range = nodes[n].range;
        let token = nodes[n].token;
        assert(syntax::stands_at(code, range, token));
        let i = choose|i: int|
            #![trigger code.take(i)]
            0 <= i && i + token.len() <= code.len() && code.subrange(i, i + token.len()) == token
                && range.start == text::byte_len(code.take(i)) && range.end == text::byte_len(
                code.take(i + token.len()),
            );
        let end = code.len() - 1;
        assert(code[i] == token[0]);
        text::lemma_byte_at(code, i);
        text::lemma_byte_at(code, end);
        text::lemma_byte_len_take(code.take(end), i);
        assert(code.take(end).take(i) =~= code.take(i));
        assert(b[text::byte_len(code.take(end)) as int] == 10);
    }
    law_candidates_are_paths(nodes, has_parent, has_home);
    law_one_link_per_path(paths, probes);
    law_ordered_links_are_all_placed(code, found);
    law_links_keep_their_order(code, found, 0);
    assert forall|c: int|
        0 <= c < paths.len() && c < probes.len() && link_of(
            paths[c],
            probes[c],
        ) is Some implies told.contains(
        placed_link(code, (#[trigger] link_of(paths[c], probes[c]))->0),
    ) by {
        let link = link_of(paths[c], probes[c])->0;
        assert(found.contains(link));
        let k = choose|k: int| 0 <= k < found.len() && found[k] == link;
        assert(told[k] == placed_link(code, link));
    }
}

/// Whether a path leads to a file from a directory: an absolute one from the
/// root, one that begins with a tilde and a slash from the home directory, and
/// any other one from the directory of the file that it stands in, but for those
/// in angle brackets.
pub open spec fn leads_from(token: Seq<char>, base: Base, path: Seq<char>) -> bool {
    match base {
        Base::Root => token.len() > 0 && token[0] == '/' && path == token,
        Base::HomeDir => token.len() >= 2 && token[0] == '~' && token[1] == '/' && path
            == token.skip(2),
        Base::ParentDir => path == token && (token.len() == 0 || token[0] != '/' && token[0] != '<'
            && (token[0] != '~' || token.len() < 2 || token[1] != '/')),
    }
}

/// Whether there is the directory that a path starts from.
pub open spec fn is_there(base: Base, has_parent: bool, has_home: bool) -> bool {
    match base {
        Base::Root => true,
        Base::HomeDir => has_home,
        Base::ParentDir => has_parent,
    }
}

/// Whether a candidate is that of a path literal.
pub open spec fn is_candidate(
    node: syntax::NodeView,
    has_parent: bool,
    has_home: bool,
    candidate: CandidateView,
) -> bool {
    &&& node.kind == NodeKind::Literal
    &&& node.token_kind == TokenKind::Path
    &&& candidate.range == node.range
    &&& leads_from(node.token, candidate.base, candidate.path)
    &&& is_there(candidate.base, has_parent, has_home)
}

/// Whether candidates are those of path literals, in their order.
pub open spec fn are_candidates(
    nodes: Seq<syntax::NodeView>,
    has_parent: bool,
    has_home: bool,
    found: Seq<CandidateView>,
    order: Seq<int>,
) -> bool {
    &&& order.len() == found.len()
    &&& forall|k: int|
        0 <= k < order.len() ==> 0 <= #[trigger] order[k] < nodes.len() && is_candidate(
            nodes[order[k]],
            has_parent,
            has_home,
            found[k],
        )
    &&& forall|k: int, l: int| 0 <= k < l < order.len() ==> #[trigger] order[k] < #[trigger] order[l]
    &&& forall|i: int, candidate: CandidateView|
        0 <= i < nodes.len() && #[trigger] is_candidate(
            nodes[i],
            has_parent,
            has_home,
            candidate,
        ) ==> order.contains(i)
}

/// Every path literal that leads to a file is a candidate, with its own bytes
/// and from the directory that it starts from, and nothing else is. They come in
/// the order of the file.
pub proof fn law_candidates_are_all_paths(
    nodes: Seq<syntax::NodeView>,
    has_parent: bool,
    has_home: bool,
) -> (order: Seq<int>)
    ensures
        are_candidates(
            nodes,
            has_parent,
            has_home,
            candidates(nodes, has_parent, has_home),
            order,
        ),
    decreases nodes.len(),
{
    let found = candidates(nodes, has_parent, has_home);
    if nodes.len() == 0 {
        seq![]
    } else {
        let fewer = nodes.drop_last();
        let n = nodes.len() - 1;
        let order = law_candidates_are_all_paths(fewer, has_parent, has_home);
        let before = candidates(fewer, has_parent, has_home);
        assert(nodes[n] == nodes.last());
        assert forall|i: int, candidate: CandidateView|
            0 <= i < n && #[trigger] is_candidate(
                nodes[i],
                has_parent,
                has_home,
                candidate,
            ) implies order.contains(i) by {
            assert(is_candidate(fewer[i], has_parent, has_home, candidate));
        }
        match candidate_of(nodes[n], has_parent, has_home) {
            Some(candidate) => {
                let more = order.push(n);
                assert(found =~= before.push(candidate));
                assert forall|i: int, candidate: CandidateView|
                    0 <= i < nodes.len() && #[trigger] is_candidate(
                        nodes[i],
                        has_parent,
                        has_home,
                        candidate,
                    ) implies more.contains(i) by {
                    if i < n {
                        assert(order.contains(i));
                        let k = choose|k: int| 0 <= k < order.len() && order[k] == i;
                        assert(more[k] == i);
                    } else {
                        assert(more[order.len() as int] == i);
                    }
                }
                assert forall|k: int| 0 <= k < more.len() implies 0 <= #[trigger] more[k]
                    < nodes.len() && is_candidate(
                    nodes[more[k]],
                    has_parent,
                    has_home,
                    found[k],
                ) by {
                    if k < order.len() {
                        assert(more[k] == order[k]);
                        assert(nodes[order[k]] == fewer[order[k]]);
                    }
                }
                more
            },
            None => {
                assert forall|i: int, candidate: CandidateView|
                    0 <= i < nodes.len() && #[trigger] is_candidate(
                        nodes[i],
                        has_parent,
                        has_home,
                        candidate,
                    ) implies order.contains(i) by {
                    if i == n {
                        assert(candidate_of(nodes[n], has_parent, has_home) is Some);
                    }
                }
                assert forall|k: int| 0 <= k < order.len() implies 0 <= #[trigger] order[k]
                    < nodes.len() && is_candidate(
                    nodes[order[k]],
                    has_parent,
                    has_home,
                    found[k],
                ) by {
                    assert(nodes[order[k]] == fewer[order[k]]);
                }
                order
            },
        }
    }
}

/// Whether a probe found a file, and the file has a URL: the default file of a
/// directory, or else the path itself.
pub open spec fn leads_to(probe: ProbeView, url: Seq<char>) -> bool {
    if probe.is_dir {
        probe.default_is_file && url_of("file://"@ + probe.default_path) == Some(url)
    } else {
        probe.is_file && url_of("file://"@ + probe.path) == Some(url)
    }
}

/// Whether the line on which a stretch begins is ended by a newline.
pub open spec fn is_ended(code: Seq<char>, range: TextRange) -> bool {
    exists|m: int|
        0 <= m < code.len() && #[trigger] code[m] == '\n' && text::byte_len(code.take(m))
            >= range.start
}

proof fn lemma_placed(code: Seq<char>, links: Seq<FileLinkView>, line: nat)
    requires
        forall|i: int, j: int|
            0 <= i <= j < links.len() ==> (#[trigger] links[i]).range.start <= (
            #[trigger] links[j]).range.start,
        forall|i: int|
            0 <= i < links.len() ==> (begins_on_closed_line(code, #[trigger] links[i])
                <==> is_ended(code, links[i].range)),
        links.len() > 0 ==> line_of(code, links[0]) >= line,
    ensures
        forall|i: int|
            0 <= i < links.len() ==> (i < placed(code, links, line).len() <==> is_ended(
                code,
                (#[trigger] links[i]).range,
            )),
    decreases links.len(),
{
    if links.len() > 0 {
        let rest = links.drop_first();
        let all = placed(code, links, line);
        if begins_on_closed_line(code, links[0]) {
            if rest.len() > 0 {
                assert(rest[0] == links[1]);
                assert(links[0].range.start <= links[1].range.start);
                lemma_lines_before(
                    vstd::utf8::encode_utf8(code),
                    links[0].range.start as int,
                    links[1].range.start as int,
                );
            }
            assert forall|i: int, j: int| 0 <= i <= j < rest.len() implies (
            #[trigger] rest[i]).range.start <= (#[trigger] rest[j]).range.start by {
                assert(rest[i] == links[i + 1] && rest[j] == links[j + 1]);
            }
            assert forall|i: int| 0 <= i < rest.len() implies (begins_on_closed_line(
                code,
                #[trigger] rest[i],
            ) <==> is_ended(code, rest[i].range)) by {
                assert(rest[i] == links[i + 1]);
            }
            lemma_placed(code, rest, line_of(code, links[0]));
            assert forall|i: int| 0 <= i < links.len() implies (i < all.len() <==> is_ended(
                code,
                (#[trigger] links[i]).range,
            )) by {
                if i > 0 {
                    assert(rest[i - 1] == links[i]);
                }
            }
        } else {
            assert forall|i: int| 0 <= i < links.len() implies !is_ended(
                code,
                (#[trigger] links[i]).range,
            ) by {
                assert(links[0].range.start <= links[i].range.start);
                if is_ended(code, links[i].range) {
                    let m = choose|m: int|
                        0 <= m < code.len() && #[trigger] code[m] == '\n' && text::byte_len(
                            code.take(m),
                        ) >= links[i].range.start;
                    assert(code[m] == '\n' && text::byte_len(code.take(m)) >= links[0].range.start);
                    assert(is_ended(code, links[0].range));
                }
            }
        }
    }
}

/// The links that the editor is told of: one for each path that leads to a file
/// with a URL, over the bytes of the path, and leading there. Paths behind the
/// last newline make none, and nothing else makes one. They come in the order of
/// the text, and none overlaps another.
pub proof fn law_links_lead_to_their_files(
    code: Seq<char>,
    nodes: Seq<syntax::NodeView>,
    has_parent: bool,
    has_home: bool,
    probes: Seq<ProbeView>,
)
    requires
        text::measurable(code),
        syntax::nested(nodes),
        syntax::spelt_out(code, nodes),
        forall|i: int| 0 <= i < nodes.len() ==> (#[trigger] nodes[i]).range.ordered(),
        plain_paths(nodes),
    ensures
        are_links(
            code,
            candidates(nodes, has_parent, has_home),
            probes,
            placed(code, links_of(candidates(nodes, has_parent, has_home), probes), 0),
        ),
{
    let paths = candidates(nodes, has_parent, has_home);
    let found = links_of(paths, probes);
    let told = placed(code, found, 0);
    let b = vstd::utf8::encode_utf8(code);
    law_links_stand_on_one_line(code, nodes, has_parent, has_home, probes);
    law_links_keep_their_order(code, found, 0);
    law_one_link_per_path(paths, probes);
    law_candidates_are_paths(nodes, has_parent, has_home);
    assert(FILE_SCHEME@ == "file://"@);
    assert forall|k: int| 0 <= k < found.len() implies (begins_on_closed_line(
        code,
        #[trigger] found[k],
    ) <==> is_ended(code, found[k].range)) by {
        let n = lemma_link_has_path(nodes, has_parent, has_home, probes, k);
        let range = nodes[n].range;
        let token = nodes[n].token;
        assert(syntax::stands_at(code, range, token));
        let i = choose|i: int|
            #![trigger code.take(i)]
            0 <= i && i + token.len() <= code.len() && code.subrange(i, i + token.len()) == token
                && range.start == text::byte_len(code.take(i)) && range.end == text::byte_len(
                code.take(i + token.len()),
            );
        assert(code[i] == token[0]);
        assert(token.contains(token[0]));
        text::lemma_byte_at(code, i);
        if is_ended(code, range) {
            let m = choose|m: int|
                0 <= m < code.len() && #[trigger] code[m] == '\n' && text::byte_len(code.take(m))
                    >= range.start;
            text::lemma_byte_at(code, m);
            assert(b[text::byte_len(code.take(m)) as int] == 10);
        }
        if begins_on_closed_line(code, found[k]) {
            let j = choose|j: int| range.start <= j < b.len() && b[j] == 10;
            let m = text::lemma_newline_byte(code, j);
            assert(code[m] == '\n' && text::byte_len(code.take(m)) >= range.start);
        }
    }
    lemma_placed(code, found, 0);
    assert forall|c: int, url: Seq<char>|
        0 <= c < paths.len() && c < probes.len() && #[trigger] leads_to(probes[c], url) && is_ended(
            code,
            paths[c].range,
        ) implies told.contains(
        DocumentLinkView { range: position::range_at(code, paths[c].range), target: url },
    ) by {
        assert(link_of(paths[c], probes[c]) == Some(
            FileLinkView { range: paths[c].range, url },
        ));
        let link = link_of(paths[c], probes[c])->0;
        assert(found.contains(link));
        let k = choose|k: int| 0 <= k < found.len() && found[k] == link;
        assert(is_ended(code, found[k].range));
        assert(told[k] == placed_link(code, link));
    }
    assert forall|k: int| 0 <= k < told.len() implies is_told(
        code,
        paths,
        probes,
        #[trigger] told[k],
    ) by {
        assert(told[k] == placed_link(code, found[k]));
        assert(is_made(paths, probes, found[k]));
        let c = choose|c: int|
            0 <= c < paths.len() && c < probes.len() && #[trigger] link_of(paths[c], probes[c])
                == Some(found[k]);
        assert(is_ended(code, found[k].range));
        assert(leads_to(probes[c], told[k].target));
    }
}

/// Whether a link is that of one of some paths.
pub open spec fn is_told(
    code: Seq<char>,
    paths: Seq<CandidateView>,
    probes: Seq<ProbeView>,
    link: DocumentLinkView,
) -> bool {
    exists|c: int|
        0 <= c < paths.len() && c < probes.len() && #[trigger] leads_to(probes[c], link.target)
            && link.range == position::range_at(code, paths[c].range) && is_ended(
            code,
            paths[c].range,
        )
}

/// Whether links are those of some paths.
pub open spec fn are_links(
    code: Seq<char>,
    paths: Seq<CandidateView>,
    probes: Seq<ProbeView>,
    told: Seq<DocumentLinkView>,
) -> bool {
    &&& forall|c: int, url: Seq<char>|
        0 <= c < paths.len() && c < probes.len() && #[trigger] leads_to(probes[c], url) && is_ended(
            code,
            paths[c].range,
        ) ==> told.contains(
            DocumentLinkView { range: position::range_at(code, paths[c].range), target: url },
        )
    &&& forall|k: int| 0 <= k < told.len() ==> is_told(code, paths, probes, #[trigger] told[k])
    &&& forall|k: int|
        0 <= k < told.len() ==> (#[trigger] told[k]).range.start.line == told[k].range.end.line
            && told[k].range.start.character < told[k].range.end.character
    &&& forall|k: int, l: int|
        0 <= k < l < told.len() ==> position::precedes(
            (#[trigger] told[k]).range.end,
            (#[trigger] told[l]).range.start,
        )
}

} // verus!
