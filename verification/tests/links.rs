//! Links to files.

use rnix_lsp::document::Document;
use rnix_lsp::links::{
    file_url, link_candidates, link_target, place_links, resolve_links, Base, Candidate,
    DocumentLink, FileLink, Probe,
};
use rnix_lsp::position::{Position, Range, TextRange};

fn candidates_in(code: &str, has_parent: bool, has_home: bool) -> Vec<(Base, String)> {
    let document = Document::new(code.to_string());
    link_candidates(document.nodes(), has_parent, has_home)
        .into_iter()
        .map(|c| (c.base, c.path))
        .collect()
}

fn link(start: u32, end: u32) -> FileLink {
    FileLink { range: TextRange { start, end }, url: format!("file:///{}", start) }
}

fn placed_at(line: u32, start: u32, end: u32, offset: u32) -> DocumentLink {
    DocumentLink {
        range: Range {
            start: Position { line, character: start },
            end: Position { line, character: end },
        },
        target: format!("file:///{}", offset),
    }
}

fn probe(is_dir: bool, is_file: bool, default_is_file: bool) -> Probe {
    Probe {
        path: "/a b".to_string(),
        is_dir,
        is_file,
        default_path: "/a b/default.nix".to_string(),
        default_is_file,
    }
}

fn candidate(start: u32) -> Candidate {
    Candidate {
        range: TextRange { start, end: start + 3 },
        base: Base::ParentDir,
        path: "./a".to_string(),
    }
}

#[test]
fn anchors_of_paths() {
    let code = "[ ./a.nix ../b /etc/c ~/d <nixpkgs> e/f \"./g\" 1 https://h.org ]";
    assert_eq!(
        candidates_in(code, true, true),
        vec![
            (Base::ParentDir, "./a.nix".to_string()),
            (Base::ParentDir, "../b".to_string()),
            (Base::Root, "/etc/c".to_string()),
            (Base::HomeDir, "d".to_string()),
            (Base::ParentDir, "e/f".to_string()),
        ],
    );
}

#[test]
fn paths_without_their_directory() {
    let code = "[ ./a ~/b /c ]";
    assert_eq!(
        candidates_in(code, false, true),
        vec![(Base::HomeDir, "b".to_string()), (Base::Root, "/c".to_string())],
    );
    assert_eq!(
        candidates_in(code, true, false),
        vec![(Base::ParentDir, "./a".to_string()), (Base::Root, "/c".to_string())],
    );
    assert_eq!(candidates_in(code, false, false), vec![(Base::Root, "/c".to_string())]);
}

#[test]
fn ranges_of_paths() {
    let document = Document::new("import ./x.nix".to_string());
    assert_eq!(
        link_candidates(document.nodes(), true, true),
        vec![Candidate {
            range: TextRange { start: 7, end: 14 },
            base: Base::ParentDir,
            path: "./x.nix".to_string(),
        }],
    );
    assert_eq!(candidates_in("{ a = 1; }", true, true), vec![]);
    assert_eq!(candidates_in("", true, true), vec![]);
}

#[test]
fn targets_of_probes() {
    assert_eq!(link_target(&probe(false, true, false)), Some(&"/a b".to_string()));
    assert_eq!(link_target(&probe(true, false, true)), Some(&"/a b/default.nix".to_string()));
    assert_eq!(link_target(&probe(true, false, false)), None);
    assert_eq!(link_target(&probe(false, false, true)), None);
    assert_eq!(link_target(&probe(false, false, false)), None);
}

#[test]
fn urls_of_files() {
    assert_eq!(file_url("/etc/nixos"), Some("file:///etc/nixos".to_string()));
    assert_eq!(file_url("/a b"), Some("file:///a%20b".to_string()));
    assert_eq!(file_url("/a/../b"), Some("file:///b".to_string()));
    assert_eq!(file_url("a b/c"), None);
}

#[test]
fn links_of_paths() {
    let candidates = vec![candidate(1), candidate(5), candidate(9)];
    let probes = vec![
        probe(false, true, false),
        probe(false, false, false),
        probe(true, false, true),
    ];
    assert_eq!(
        resolve_links(&candidates, &probes),
        vec![
            FileLink {
                range: TextRange { start: 1, end: 4 },
                url: "file:///a%20b".to_string(),
            },
            FileLink {
                range: TextRange { start: 9, end: 12 },
                url: "file:///a%20b/default.nix".to_string(),
            },
        ],
    );
    assert_eq!(resolve_links(&vec![], &probes), vec![]);
}

#[test]
fn a_path_without_a_probe_makes_no_link() {
    let candidates = vec![candidate(1), candidate(5)];
    let links = resolve_links(&candidates, &vec![probe(false, true, false)]);
    assert_eq!(links.len(), 1);
    assert_eq!(links[0].range.start, 1);
}

#[test]
fn a_path_without_a_url_makes_no_link() {
    let mut relative = probe(false, true, false);
    relative.path = "a b/c".to_string();
    assert_eq!(resolve_links(&vec![candidate(1)], &vec![relative]), vec![]);
}

#[test]
fn candidates_stand_in_their_order() {
    let document = Document::new("{ a = [ ./x (f ./y) ]; b = ./z; }".to_string());
    let candidates = link_candidates(document.nodes(), true, true);
    let starts: Vec<u32> = candidates.iter().map(|c| c.range.start).collect();
    assert_eq!(starts, vec![8, 15, 27]);
}

#[test]
fn links_are_placed_on_their_lines() {
    let code = "[ ./a ./b\n\n  ./c\n]";
    assert_eq!(
        place_links(code, &vec![link(2, 5), link(6, 9), link(13, 16)]),
        vec![placed_at(0, 2, 5, 2), placed_at(0, 6, 9, 6), placed_at(2, 2, 5, 13)],
    );
}

#[test]
fn columns_of_links_count_code_units() {
    let code = "\"\u{e4}\u{1f600}\" + ./a\n";
    assert_eq!(place_links(code, &vec![link(11, 14)]), vec![placed_at(0, 8, 11, 11)]);
}

#[test]
fn links_on_an_open_line_are_left_out() {
    assert_eq!(place_links("./a\n./b", &vec![link(0, 3), link(4, 7)]), vec![placed_at(0, 0, 3, 0)]);
    assert_eq!(place_links("./a", &vec![link(0, 3)]), vec![]);
    assert_eq!(place_links("", &vec![link(0, 0)]), vec![]);
    assert_eq!(place_links("./a\n", &vec![]), vec![]);
}

#[test]
fn a_link_out_of_order_ends_the_list() {
    let code = "./a\n./b\n./c\n";
    assert_eq!(
        place_links(code, &vec![link(4, 7), link(0, 3), link(8, 11)]),
        vec![placed_at(1, 0, 3, 4)],
    );
    assert_eq!(
        place_links("./a ./b\n", &vec![link(4, 7), link(0, 3)]),
        vec![placed_at(0, 4, 7, 4), placed_at(0, 0, 3, 0)],
    );
}

#[test]
fn ordered_links_on_closed_lines_are_all_placed() {
    let code = "./a ./b\n\n./c\n";
    let links = vec![link(0, 3), link(4, 7), link(9, 12)];
    let placed = place_links(code, &links);
    assert_eq!(placed.len(), links.len());
    for (document_link, file_link) in placed.iter().zip(&links) {
        assert_eq!(document_link.target, file_link.url);
    }
}

/// The links of a file all of whose paths lead to files.
fn links_in(code: &str) -> (usize, Vec<DocumentLink>) {
    let document = Document::new(code.to_string());
    let candidates = link_candidates(document.nodes(), true, true);
    let probes = candidates.iter().map(|_| probe(false, true, false)).collect();
    (candidates.len(), place_links(code, &resolve_links(&candidates, &probes)))
}

#[test]
fn links_begin_and_end_on_one_line() {
    let code = "{\n  a = [ ./x ./y/z.nix ];\n  \"\u{1f600}\" = f ./b (g ~/c);\n  d = /e;\n}\n";
    let (paths, links) = links_in(code);
    assert_eq!((paths, links.len()), (5, 5));
    for link in &links {
        assert_eq!(link.range.start.line, link.range.end.line);
        assert!(link.range.start.character < link.range.end.character);
    }
    for pair in links.windows(2) {
        let (end, start) = (pair[0].range.end, pair[1].range.start);
        assert!((end.line, end.character) <= (start.line, start.character));
    }
}

#[test]
fn every_path_is_linked_if_the_text_ends_with_a_newline() {
    for code in ["./a\n", "[ ./a\n ./b ]\n", "f ./a /b\n\n", "\n\n~/a\n"] {
        let (paths, links) = links_in(code);
        assert!(paths > 0);
        assert_eq!(paths, links.len(), "{:?}", code);
    }
    assert_eq!(links_in("[ ./a\n ./b ]").1.len(), 1);
}
