//! What the server says about Nix code.

use rnix_lsp::change::{apply_changes, ContentChange};
use rnix_lsp::diagnostics::{send_diagnostics, Diagnostic, PublishDiagnostics, Severity};
use rnix_lsp::document::Document;
use rnix_lsp::position::{Position, Range, TextRange};
use rnix_lsp::rename::{edit_at, rename_below, TextEdit};
use rnix_lsp::scope::{complete, Binding, CompletionItem, Cursor, Variable};
use rnix_lsp::syntax::{ErrorKind, Node, NodeKind, SyntaxError, TokenKind};

fn span(line: u32, character: u32, to_line: u32, to_character: u32) -> Range {
    Range {
        start: Position { line, character },
        end: Position { line: to_line, character: to_character },
    }
}

fn mistake(kind: ErrorKind, message: &str) -> SyntaxError {
    SyntaxError { kind, message: message.to_string() }
}

fn remark(range: Range, message: &str) -> Diagnostic {
    Diagnostic { range, severity: Severity::Error, message: message.to_string() }
}

fn remarks_on(code: &str, errors: Vec<SyntaxError>) -> Vec<Diagnostic> {
    send_diagnostics("file:///a.nix".to_string(), code, &errors).diagnostics
}

/// The code after a variable has been renamed everywhere.
fn renamed(code: &str, old: &str, new: &str) -> String {
    renamed_below(code, 0, old, new)
}

fn renamed_below(code: &str, node: usize, old: &str, new: &str) -> String {
    let document = Document::new(code.to_string());
    let mut edits = rename_below(code, document.nodes(), node, &old.to_string(), &new.to_string());
    // The last edit first, so that none moves another.
    edits.reverse();
    let changes = edits
        .into_iter()
        .map(|edit| ContentChange { range: Some(edit.range), text: edit.new_text })
        .collect();
    apply_changes(code, &changes)
}

fn variable(name: &str) -> Variable {
    Variable {
        name: name.to_string(),
        binding: None,
        documentation: None,
        deprecated: false,
        detail: "".to_string(),
    }
}

const PROGRAMS: [&str; 14] = [
    "",
    "x",
    " # only a comment\n",
    "{ a = 1; b.c = rec { d = a; inherit d; }; }",
    "let f = x: { y ? 1, ... }@z: x + y; in f 1 { y = ./p; }",
    "with import <nixpkgs> {}; [ a.b.c (a ? b) or d ]",
    "\"\u{e4}${x}\" + ''\n  ${y}\n''",
    "if a then b else assert c; d",
    "{ a = ; } ) ] let",
    "a.b or c.${d}.\"e\"",
    "\u{1f600} \u{a7} \\ $ @",
    "\"not closed ${",
    "''neither ${ x",
    "let or = 1; in or",
];

#[test]
fn trees_cover_their_text() {
    for code in PROGRAMS {
        let document = Document::new(code.to_string());
        assert_eq!(document.text(), code);
        assert_eq!(document.root_range(), TextRange { start: 0, end: code.len() as u32 });
        assert_eq!(document.nodes()[0].extent, document.nodes().len());
    }
}

#[test]
fn identifiers_and_literals_stand_in_the_text() {
    for code in PROGRAMS {
        let document = Document::new(code.to_string());
        for node in document.nodes() {
            assert!(node.range.start <= node.range.end);
            if node.kind == NodeKind::Identifier || node.kind == NodeKind::Literal {
                assert_eq!(&code[node.range.start as usize..node.range.end as usize], node.token);
            }
        }
    }
}

#[test]
fn subtrees_follow_their_node() {
    for code in PROGRAMS {
        let document = Document::new(code.to_string());
        let nodes = document.nodes();
        for (i, node) in nodes.iter().enumerate() {
            assert!(node.extent >= 1);
            for (j, below) in nodes.iter().enumerate().skip(i).take(node.extent) {
                assert!(node.range.start <= below.range.start && below.range.end <= node.range.end);
                assert!(j + below.extent <= i + node.extent);
            }
            for behind in &nodes[i + node.extent..] {
                assert!(node.range.end <= behind.range.start);
            }
        }
    }
}

#[test]
fn nodes_of_a_selection() {
    let document = Document::new("a.b".to_string());
    let nodes = document.nodes();
    assert_eq!(
        nodes[1],
        Node {
            kind: NodeKind::Select,
            range: TextRange { start: 0, end: 3 },
            extent: 3,
            token_kind: TokenKind::Word,
            token: "a".to_string(),
        },
    );
    assert_eq!(nodes[2].kind, NodeKind::Identifier);
    assert_eq!(nodes[2].token, "a");
    assert_eq!(nodes[3].token, "b");
    let path = Document::new("./p".to_string());
    assert_eq!(path.nodes()[1].kind, NodeKind::Literal);
    assert_eq!(path.nodes()[1].token_kind, TokenKind::Path);
    assert_eq!(path.nodes()[1].token, "./p");
}

#[test]
fn places_of_mistakes() {
    let code = "ab\ncd";
    assert_eq!(
        remarks_on(code, vec![mistake(ErrorKind::Unexpected(TextRange { start: 0, end: 1 }), "m")]),
        vec![remark(span(0, 0, 0, 1), "m")],
    );
    assert_eq!(
        remarks_on(code, vec![mistake(ErrorKind::UnexpectedExtra(TextRange { start: 1, end: 4 }), "m")]),
        vec![remark(span(0, 1, 1, 1), "m")],
    );
    assert_eq!(
        remarks_on(code, vec![mistake(ErrorKind::UnexpectedWanted(TextRange { start: 3, end: 5 }), "m")]),
        vec![remark(span(1, 0, 1, 2), "m")],
    );
    assert_eq!(
        remarks_on(code, vec![mistake(ErrorKind::UnexpectedDoubleBind(TextRange { start: 3, end: 3 }), "m")]),
        vec![remark(span(1, 0, 1, 0), "m")],
    );
    assert_eq!(
        remarks_on(code, vec![mistake(ErrorKind::UnexpectedEof, "m")]),
        vec![remark(span(1, 2, 1, 2), "m")],
    );
    assert_eq!(
        remarks_on(code, vec![mistake(ErrorKind::UnexpectedEofWanted, "m")]),
        vec![remark(span(1, 2, 1, 2), "m")],
    );
    assert_eq!(remarks_on(code, vec![mistake(ErrorKind::Other, "m")]), vec![]);
}

#[test]
fn one_remark_for_each_mistake() {
    let errors = vec![
        mistake(ErrorKind::UnexpectedEof, "first"),
        mistake(ErrorKind::Unexpected(TextRange { start: 0, end: 1 }), "second"),
    ];
    assert_eq!(
        send_diagnostics("file:///a.nix".to_string(), "x", &errors),
        PublishDiagnostics {
            uri: "file:///a.nix".to_string(),
            diagnostics: vec![
                remark(span(0, 1, 0, 1), "first"),
                remark(span(0, 0, 0, 1), "second"),
            ],
            version: None,
        },
    );
}

#[test]
fn a_mistake_without_a_place_leaves_the_others() {
    let errors = vec![
        mistake(ErrorKind::Other, "hidden"),
        mistake(ErrorKind::Unexpected(TextRange { start: 0, end: 1 }), "shown"),
    ];
    assert_eq!(remarks_on("x", errors), vec![remark(span(0, 0, 0, 1), "shown")]);
}

#[test]
fn an_edit_at_a_stretch_of_bytes() {
    assert_eq!(
        edit_at("\u{1f600}\nxyz", TextRange { start: 5, end: 7 }, "new".to_string()),
        TextEdit { range: span(1, 0, 1, 2), new_text: "new".to_string() },
    );
}

#[test]
fn variables_are_renamed() {
    assert_eq!(renamed("let x = 1; in x + x", "x", "long"), "let long = 1; in long + long");
    assert_eq!(renamed("x: { y ? x }: [ x y ]", "x", "n"), "n: { y ? n }: [ n y ]");
    assert_eq!(renamed("let x = 1; in y", "z", "n"), "let x = 1; in y");
    assert_eq!(renamed("\"\u{1f600}${x}\"", "x", "n"), "\"\u{1f600}${n}\"");
}

#[test]
fn attributes_are_not_renamed() {
    assert_eq!(renamed("x.x.x", "x", "n"), "n.x.x");
    assert_eq!(renamed("{ x.x = x; a.x = x.a; }", "x", "n"), "{ n.x = n; a.x = n.a; }");
    assert_eq!(renamed("a.x", "x", "n"), "a.x");
}

#[test]
fn names_are_compared_whole() {
    assert_eq!(renamed("[ x xx x' ]", "x", "n"), "[ n xx x' ]");
}

#[test]
fn only_what_is_below_the_node_is_renamed() {
    let code = "[ x (x) ]";
    let document = Document::new(code.to_string());
    let paren = document.nodes().iter().position(|n| n.range.start == 4).unwrap();
    assert_eq!(renamed_below(code, paren, "x", "n"), "[ x (n) ]");
    assert_eq!(renamed_below(code, document.nodes().len(), "x", "n"), code);
}

#[test]
fn renamed_places_held_the_old_name() {
    let code = "let x = { x = x.x; }; in x";
    let document = Document::new(code.to_string());
    let edits = rename_below(code, document.nodes(), 0, &"x".to_string(), &"n".to_string());
    assert_eq!(edits.len(), 4);
    for edit in &edits {
        assert_eq!(edit.new_text, "n");
        let start = edit.range.start.character as usize;
        assert_eq!(&code[start..edit.range.end.character as usize], "x");
    }
}

#[test]
fn renamed_places_do_not_overlap() {
    let code = "x: x (x.y) { x = [ x x ]; inherit x; }";
    let document = Document::new(code.to_string());
    let edits = rename_below(code, document.nodes(), 0, &"x".to_string(), &"n".to_string());
    for pair in edits.windows(2) {
        assert!(pair[0].range.end.character <= pair[1].range.start.character);
    }
    assert_eq!(edits.len(), 7);
}

#[test]
fn every_variable_is_renamed() {
    let code = "let x = 1; in if x then a.x else { y = x: (x.x or x) + \"${x}\"; z.x = x; }";
    assert_eq!(
        renamed(code, "x", "n"),
        "let n = 1; in if n then a.x else { y = n: (n.x or n) + \"${n}\"; z.x = n; }",
    );
}

#[test]
fn completions_begin_with_what_is_typed() {
    let cursor = Cursor {
        ident: "ma".to_string(),
        ident_range: TextRange { start: 4, end: 6 },
        scope: vec![variable("map"), variable("import"), variable("ma"), variable("m")],
        typed: "ma".to_string(),
    };
    let items = complete("let\nma", &cursor);
    let labels: Vec<&str> = items.iter().map(|item| item.label.as_str()).collect();
    assert_eq!(labels, vec!["map", "ma"]);
    for item in &items {
        assert_eq!(item.text_edit, TextEdit { range: span(1, 0, 1, 2), new_text: item.label.clone() });
    }
}

#[test]
fn a_completion_carries_what_is_known() {
    let cursor = Cursor {
        ident: "".to_string(),
        ident_range: TextRange { start: 0, end: 0 },
        scope: vec![Variable {
            name: "toPath".to_string(),
            binding: Some(Binding {
                file: "file:///a.nix".to_string(),
                key: TextRange { start: 1, end: 2 },
            }),
            documentation: Some("Makes a path.".to_string()),
            deprecated: true,
            detail: "Lambda: string -> path".to_string(),
        }],
        typed: "".to_string(),
    };
    assert_eq!(
        complete("", &cursor),
        vec![CompletionItem {
            label: "toPath".to_string(),
            documentation: Some("Makes a path.".to_string()),
            deprecated: true,
            text_edit: TextEdit { range: span(0, 0, 0, 0), new_text: "toPath".to_string() },
            detail: "Lambda: string -> path".to_string(),
        }],
    );
}

#[test]
fn no_completion_is_left_out() {
    let names = ["a", "ab", "abc", "b"];
    let cursor = Cursor {
        ident: "a".to_string(),
        ident_range: TextRange { start: 0, end: 1 },
        scope: names.iter().map(|name| variable(name)).collect(),
        typed: "a".to_string(),
    };
    let items = complete("a", &cursor);
    for name in names {
        assert_eq!(items.iter().any(|item| item.label == name), name.starts_with('a'));
    }
}
