//! Finding one's way in a syntax tree.

use rnix::SyntaxKind;
use rnix_lsp::document::Document;
use rnix_lsp::layout::can_format;
use rnix_lsp::position::{offset_to_pos, TextRange};
use rnix_lsp::scope::look_up;
use rnix_lsp::server::{App, Notification};
use rnix_lsp::syntax::{node_kind, parse_tokens, token_kind, NodeKind, TokenKind};
use rnix_lsp::tree::{find_bound, find_ident, find_path, follow_path, ranges_around, scope_for};

const PROGRAMS: [&str; 7] = [
    "",
    "let a = 1; inherit (b) c; d.e = a; in { f ? a, ... }@g: f.h.i + \"${a}\"",
    "rec { a = { b = 1; }; c = a.b; }",
    "x: y: x (y z)",
    "{ a = ; } ) ] let",
    "[ ./p a:b ''c${d}'' ]\n",
    "\u{e4} \"\u{1f600}\" a",
];

fn names(code: &str, offset: u32) -> Vec<String> {
    let document = Document::new(code.to_string());
    let ident = find_ident(document.nodes(), offset).unwrap();
    scope_for(document.nodes(), ident).into_iter().map(|bound| bound.name).collect()
}

fn path(code: &str, offset: u32) -> Option<Vec<String>> {
    let document = Document::new(code.to_string());
    let ident = find_ident(document.nodes(), offset)?;
    find_path(document.nodes(), ident)
}

fn owned(names: &[&str]) -> Vec<String> {
    names.iter().map(|name| name.to_string()).collect()
}

#[test]
fn kinds_have_the_names_of_the_parser() {
    let kinds = [
        (SyntaxKind::NODE_IDENT, NodeKind::Identifier),
        (SyntaxKind::NODE_SELECT, NodeKind::Select),
        (SyntaxKind::NODE_KEY, NodeKind::Key),
        (SyntaxKind::NODE_LITERAL, NodeKind::Literal),
        (SyntaxKind::NODE_LET_IN, NodeKind::LetIn),
        (SyntaxKind::NODE_LEGACY_LET, NodeKind::LegacyLet),
        (SyntaxKind::NODE_ATTR_SET, NodeKind::AttrSet),
        (SyntaxKind::NODE_KEY_VALUE, NodeKind::KeyValue),
        (SyntaxKind::NODE_INHERIT, NodeKind::Inherit),
        (SyntaxKind::NODE_LAMBDA, NodeKind::Lambda),
        (SyntaxKind::NODE_PATTERN, NodeKind::Pattern),
        (SyntaxKind::NODE_PAT_ENTRY, NodeKind::PatEntry),
        (SyntaxKind::NODE_PAT_BIND, NodeKind::PatBind),
        (SyntaxKind::NODE_STRING, NodeKind::Text),
        (SyntaxKind::NODE_STRING_INTERPOL, NodeKind::Interpolation),
        (SyntaxKind::NODE_ERROR, NodeKind::Error),
        (SyntaxKind::NODE_INHERIT_FROM, NodeKind::Other),
        (SyntaxKind::NODE_ROOT, NodeKind::Other),
    ];
    for (kind, expected) in kinds {
        assert_eq!(node_kind(&format!("{:?}", kind)), expected);
    }
    let kinds = [
        (SyntaxKind::TOKEN_WHITESPACE, TokenKind::White),
        (SyntaxKind::TOKEN_COMMENT, TokenKind::Comment),
        (SyntaxKind::TOKEN_ERROR, TokenKind::Error),
        (SyntaxKind::TOKEN_IDENT, TokenKind::Word),
        (SyntaxKind::TOKEN_PATH, TokenKind::Path),
        (SyntaxKind::TOKEN_URI, TokenKind::Uri),
        (SyntaxKind::TOKEN_STRING_START, TokenKind::StringStart),
        (SyntaxKind::TOKEN_STRING_END, TokenKind::StringEnd),
        (SyntaxKind::TOKEN_DYNAMIC_START, TokenKind::DynamicStart),
        (SyntaxKind::TOKEN_DYNAMIC_END, TokenKind::DynamicEnd),
        (SyntaxKind::TOKEN_DOT, TokenKind::Dot),
        (SyntaxKind::TOKEN_COLON, TokenKind::Colon),
        (SyntaxKind::TOKEN_COMMA, TokenKind::Comma),
        (SyntaxKind::TOKEN_SEMICOLON, TokenKind::Semicolon),
        (SyntaxKind::TOKEN_PAREN_CLOSE, TokenKind::ParenClose),
        (SyntaxKind::TOKEN_SQUARE_B_CLOSE, TokenKind::SquareClose),
        (SyntaxKind::TOKEN_CURLY_B_CLOSE, TokenKind::CurlyClose),
        (SyntaxKind::TOKEN_DIV, TokenKind::Slash),
        (SyntaxKind::TOKEN_LESS, TokenKind::Less),
        (SyntaxKind::TOKEN_INTEGER, TokenKind::Other),
    ];
    for (kind, expected) in kinds {
        assert_eq!(token_kind(&format!("{:?}", kind)), expected);
    }
}

#[test]
fn tokens_are_those_of_the_tree() {
    for code in PROGRAMS {
        let tokens = parse_tokens(code);
        let together: String = tokens.iter().map(|token| token.text.as_str()).collect();
        assert_eq!(together, code);
        let mut end = 0;
        for token in &tokens {
            assert_eq!(token.range.start, end);
            end += token.text.len() as u32;
            assert_eq!(token.range.end, end);
        }
    }
    let tokens = parse_tokens("{ inherit a; }");
    let name = tokens.iter().find(|token| token.text == "a").unwrap();
    assert_eq!(name.kind, TokenKind::Word);
    assert_eq!((name.within, name.above), (NodeKind::Identifier, NodeKind::Inherit));
    assert_eq!((tokens[0].within, tokens[0].above), (NodeKind::AttrSet, NodeKind::Other));
}

#[test]
fn stretches_are_those_of_the_ancestors() {
    for code in PROGRAMS {
        let document = Document::new(code.to_string());
        let root = rnix::parse(code).node();
        for (offset, _) in code.char_indices() {
            let offset = offset as u32;
            let token = root.token_at_offset(offset.into()).left_biased().unwrap();
            let expected: Vec<TextRange> = token
                .ancestors()
                .map(|node| TextRange {
                    start: node.text_range().start().into(),
                    end: node.text_range().end().into(),
                })
                .collect();
            assert_eq!(ranges_around(document.nodes(), offset), expected);
        }
    }
}

#[test]
fn stretches_lie_in_each_other() {
    let document = Document::new("{ a = [ (b) ]; }".to_string());
    for offset in 0..16 {
        let ranges = ranges_around(document.nodes(), offset);
        for pair in ranges.windows(2) {
            assert!(pair[1].start <= pair[0].start && pair[0].end <= pair[1].end);
        }
    }
}

#[test]
fn identifiers_at_offsets() {
    let document = Document::new("a.bc d".to_string());
    let token = |offset: u32| {
        find_ident(document.nodes(), offset).map(|i| document.nodes()[i].token.clone())
    };
    assert_eq!(token(0), Some("a".to_string()));
    assert_eq!(token(1), Some("a".to_string()));
    assert_eq!(token(2), Some("bc".to_string()));
    assert_eq!(token(3), Some("bc".to_string()));
    assert_eq!(token(4), Some("bc".to_string()));
    assert_eq!(token(5), Some("d".to_string()));
    assert_eq!(token(6), Some("d".to_string()));
    assert_eq!(find_ident(Document::new("1 + 2".to_string()).nodes(), 1), None);
}

#[test]
fn paths_to_identifiers() {
    assert_eq!(path("a.b.c", 0), Some(vec![]));
    assert_eq!(path("a.b.c", 2), Some(owned(&["a"])));
    assert_eq!(path("a.b.c", 4), Some(owned(&["a", "b"])));
    assert_eq!(path("(a).b", 4), None);
    assert_eq!(path("a.\"b\".c", 6), None);
    assert_eq!(path("{ a.b.c = 1; }", 2), Some(vec![]));
    assert_eq!(path("{ a.b.c = 1; }", 6), Some(owned(&["a", "b"])));
    assert_eq!(path("{ ${x}.c = 1; }", 7), None);
    assert_eq!(path("f a", 2), Some(vec![]));
}

#[test]
fn names_in_scope() {
    let code = "let a = 1; inherit (b) c; d.e = a; in { f ? a, ... }@g: f";
    assert_eq!(names(code, 56), owned(&["f", "g", "a", "c", "d"]));
    assert_eq!(names("x: let y = 1; in x", 17), owned(&["y", "x"]));
    assert_eq!(names("rec { a = b; }", 10), owned(&["a"]));
    assert_eq!(names("{ a = b; }", 6), Vec::<String>::new());
    assert_eq!(names("let { a = b; }", 10), owned(&["a"]));
}

#[test]
fn inner_names_hide_outer_ones() {
    let code = "x: y: x: x";
    let document = Document::new(code.to_string());
    let ident = find_ident(document.nodes(), 9).unwrap();
    let scope = scope_for(document.nodes(), ident);
    assert_eq!(scope.len(), 2);
    let i = find_bound(&scope, &"x".to_string()).unwrap();
    assert_eq!(document.nodes()[scope[i].key].range.start, 6);
    assert_eq!(find_bound(&scope, &"z".to_string()), None);
}

#[test]
fn names_are_those_of_their_bindings() {
    for code in PROGRAMS {
        let document = Document::new(code.to_string());
        for node in 0..document.nodes().len() {
            for bound in scope_for(document.nodes(), node) {
                let key = &document.nodes()[bound.key];
                assert_eq!(key.kind, NodeKind::Identifier);
                assert_eq!(key.token, bound.name);
            }
        }
    }
}

#[test]
fn attributes_along_a_path() {
    let code = "let s = { a = { b = 1; c = 2; }; d = 3; }; in s";
    let document = Document::new(code.to_string());
    let nodes = document.nodes();
    let ident = find_ident(nodes, 46).unwrap();
    let attributes = |path: &[&str]| {
        follow_path(nodes, scope_for(nodes, ident), &owned(path))
            .map(|found| found.into_iter().map(|bound| bound.name).collect::<Vec<String>>())
    };
    assert_eq!(attributes(&[]), Some(owned(&["s"])));
    assert_eq!(attributes(&["s"]), Some(owned(&["a", "d"])));
    assert_eq!(attributes(&["s", "a"]), Some(owned(&["b", "c"])));
    assert_eq!(attributes(&["s", "d"]), None);
    assert_eq!(attributes(&["t"]), None);
}

#[test]
fn no_name_occurs_twice() {
    let document = Document::new("a: let a = 1; b = 2; in a: b".to_string());
    let cursor = look_up(&"file:///a.nix".to_string(), document.nodes(), 27, &vec![]).unwrap();
    let mut found: Vec<String> = cursor.scope.into_iter().map(|v| v.name).collect();
    found.sort();
    assert_eq!(found, owned(&["a", "b"]));
}

#[test]
fn positions_stand_in_the_order_of_their_offsets() {
    let code = "a\u{1f600}\n\n\u{e4}b";
    for a in 0..code.len() as u32 {
        for b in a..=code.len() as u32 {
            let (p, q) = (offset_to_pos(code, a), offset_to_pos(code, b));
            assert!((p.line, p.character) <= (q.line, q.character));
        }
    }
}

fn formats(code: &str) -> bool {
    let mut app = App::new();
    let (uri, text) = ("file:///a.nix".to_string(), code.to_string());
    app.handle_notification(Notification::DidOpen { uri: uri.clone(), text });
    let document = Document::new(code.to_string());
    let formats = can_format(code, document.nodes(), &parse_tokens(code));
    assert_eq!(app.can_format(&uri), formats);
    if formats {
        assert_eq!(app.formatting(&uri).len(), 1);
    }
    formats
}

#[test]
fn code_with_whole_strings_is_formatted() {
    assert!(formats("\"${x}\""));
    assert!(formats("{ a = \"${x}\" b = 1; }"));
    assert!(formats("{ a = b c = \"${x}\"; }"));
    assert!(formats("\"${}\""));
    assert!(formats("(\"${}\") [ ./a${b} ]"));
    assert!(formats("\"${x"));
    assert!(formats("''\n ${ a ; b\n c }''"));
    assert!(formats("(''\n(\n${}\n'') (\n)"));
    assert!(!formats("''\n ${ a ; ./p${b}\n   c }\n ''"));
    assert!(formats("''x\n ${ a ; ./p${b}\n   c }\n ''"));
    assert!(formats("\"${''\n ${ a ; ./p${b}\n   c }\n ''}\""));
}

#[test]
fn code_with_slips_is_not_formatted() {
    assert!(!formats("/*\r\na\r\n\u{e9}\r\nb*/ 1"));
    assert!(formats("/*\r\na\r\n\u{e9}.\r\nb*/ 1"));
    assert!(formats("/*\r\na\r\n\u{e9}\r\n\r\n*/ 1"));
    assert!(formats("/*\na\n\u{e9}\nb*/ 1"));
    assert!(!formats("/*\r\n\r\n\r\n\u{e9}\r\n b*/ 1"));
    assert!(formats("/*\r\n\r\n\r\n\u{e9}\r\n  b*/ 1"));
    assert!(formats("\"${/*\r\na\r\n\u{e9}\r\nb*/ 1}\""));
    assert!(formats("/**/ \r\n\"\u{e9}\""));
    assert!(formats("/**/ 1 ) \r\n\"\u{e9}\""));
    assert!(formats("/*\r\n*/ ./a . b"));
    assert!(!formats("\r\n./a . \u{e9}"));
    assert!(formats("{\r\n  a = \"x/*\";\r\n  b = \"\u{e9}\";\r\n}\r\n"));
}

#[test]
fn tokens_that_run_into_strings_are_not_formatted() {
    assert!(formats("{ inherit a ''b''; }"));
    assert!(!formats("{ inherit a ''b''; } ${ ${"));
    assert!(formats("{ inherit (f ''b'') c; }"));
    assert!(formats("{ inherit a; b = ''${c}''; }"));
    assert!(formats("{ inherit a \"b\" ${c}; }"));
    assert!(formats("{ inherit a b /* c */ d; e = \"${f}\"; }"));
    assert!(!formats("a:b . ''${c}${d}''"));
    assert!(formats("a:b . ''${c}''"));
    assert!(formats("a.b . ''${c}${d}''"));
    assert!(formats("a . b . \"${c}\""));
    assert!(formats("<a> . b . \"${c}${d}\""));
    assert!(!formats("./a . b . \"${c}${d}\""));
    assert!(!formats("1 . b . \"${c}${d}\""));
    assert!(formats("\"${./a . b}${c}\""));
    assert!(!formats("a .b:c ${ ${"));
    assert!(formats("a .b ${c}"));
}

#[test]
fn tokens_that_run_into_comments_are_not_formatted() {
    let comment = "/* ''\n ${ a ; ./p${b}\n   c }\n '' */";
    assert!(!formats(&format!("./a . {comment} b")));
    assert!(!formats(&format!("./a . ${{b}}{comment} c")));
    assert!(!formats(&format!("./a . b{comment} c")));
    assert!(!formats(&format!("{{ inherit a :{comment} b; }}")));
    assert!(!formats(&format!("a . :{comment} b")));
    assert!(formats(&format!("a . {comment} b")));
    assert!(formats(&format!("a . b{comment} c")));
    assert!(formats(&format!("{{ inherit a {comment} b; }}")));
    assert!(formats(&format!("a: {comment} b")));
}

#[test]
fn other_tokens_that_change_are_not_formatted() {
    assert!(!formats("(a / ) ${ ${"));
    assert!(!formats("{ a ? b:c , d }: ${ ${"));
    assert!(formats("{ a ? b:c\n, d }: ${ ${"));
    assert!(formats("{ a ? b , c }: ${ ${"));
    assert!(!formats("x :, ${ ${"));
    assert!(!formats("x : , ${ ${"));
    assert!(formats("x : y: ${ ${"));
    assert!(!formats("[ <b . c> ] ${ ${"));
    assert!(formats("[ < b ] ${ ${"));
    assert!(!formats("<<n>+a ${ ${"));
    assert!(!formats("a/( ${ ${"));
    assert!(formats("a/b ( ${ ${"));
}
