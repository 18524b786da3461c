//! The server as a whole.

use lsp_server::RequestId;
use rnix_lsp::change::{apply_changes, ContentChange};
use rnix_lsp::diagnostics::PublishDiagnostics;
use rnix_lsp::links::{Base, Candidate, DocumentLink, Probe};
use rnix_lsp::position::{Position, Range, TextRange};
use rnix_lsp::protocol::{METHOD_NOT_FOUND, UNKNOWN_ERROR_CODE};
use rnix_lsp::rename::TextEdit;
use rnix_lsp::scope::{Binding, Cursor, Location, Variable};
use rnix_lsp::server::{
    err, App, Notification, Payload, Request, Response, ResponseError, TextDocumentPosition,
    WorkspaceChange,
};

const URI: &str = "file:///dir/a.nix";
const OTHER: &str = "file:///dir/b.nix";

fn span(line: u32, character: u32, to_line: u32, to_character: u32) -> Range {
    Range {
        start: Position { line, character },
        end: Position { line: to_line, character: to_character },
    }
}

fn at(uri: &str, line: u32, character: u32) -> TextDocumentPosition {
    TextDocumentPosition { uri: uri.to_string(), position: Position { line, character } }
}

fn tell(app: &mut App, notification: Notification) -> Option<PublishDiagnostics> {
    assert!(app.follows(&notification));
    app.handle_notification(notification)
}

fn open(app: &mut App, uri: &str, text: &str) -> PublishDiagnostics {
    let notification = Notification::DidOpen { uri: uri.to_string(), text: text.to_string() };
    tell(app, notification).unwrap()
}

fn change(uri: &str, changes: Vec<ContentChange>) -> Notification {
    Notification::DidChange { uri: uri.to_string(), changes }
}

fn replace(range: Range, text: &str) -> ContentChange {
    ContentChange { range: Some(range), text: text.to_string() }
}

fn with_text(text: &str) -> App {
    let mut app = App::new();
    open(&mut app, URI, text);
    app
}

fn ask(app: &App, request: Request) -> Result<Payload, ResponseError> {
    assert!(app.answers(&request));
    let response = app.handle_request(RequestId::from(7), request);
    assert_eq!(response.id, RequestId::from(7));
    response.result
}

fn cursor_on(ident: &str, file: &str, key: TextRange) -> Option<Cursor> {
    Some(Cursor {
        ident: ident.to_string(),
        ident_range: TextRange { start: 14, end: 15 },
        scope: vec![
            Variable {
                name: "map".to_string(),
                binding: None,
                documentation: None,
                deprecated: false,
                detail: "".to_string(),
            },
            Variable {
                name: "x".to_string(),
                binding: Some(Binding { file: file.to_string(), key }),
                documentation: None,
                deprecated: false,
                detail: "".to_string(),
            },
        ],
        typed: ident.to_string(),
    })
}

fn global(name: &str) -> Variable {
    Variable {
        name: name.to_string(),
        binding: None,
        documentation: Some(format!("About {}.", name)),
        deprecated: true,
        detail: "Builtin".to_string(),
    }
}

fn labels(result: Result<Payload, ResponseError>) -> Vec<String> {
    match result {
        Ok(Payload::Completions(items)) => items.into_iter().map(|item| item.label).collect(),
        other => panic!("{:?}", other),
    }
}

fn definition(code: &str, character: u32) -> Option<Range> {
    let app = with_text(code);
    match ask(&app, Request::GotoDefinition { at: at(URI, 0, character) }) {
        Ok(Payload::Definition(found)) => found.map(|location| location.range),
        other => panic!("{:?}", other),
    }
}

#[test]
fn a_document_reads_as_it_was_opened() {
    let mut app = App::new();
    assert_eq!(app.text(URI), None);
    open(&mut app, URI, "one");
    assert_eq!(app.text(URI), Some("one"));
    open(&mut app, URI, "two");
    assert_eq!(app.text(URI), Some("two"));
}

#[test]
fn other_documents_stay() {
    let mut app = with_text("one");
    open(&mut app, OTHER, "two");
    tell(&mut app, change(OTHER, vec![replace(span(0, 0, 0, 3), "three")]));
    assert_eq!(app.text(URI), Some("one"));
    assert_eq!(app.text(OTHER), Some("three"));
}

#[test]
fn changes_reach_the_document() {
    let mut app = with_text("{ }\n");
    tell(&mut app, change(URI, vec![replace(span(0, 1, 0, 2), " a = 1; ")]));
    assert_eq!(app.text(URI), Some("{ a = 1; }\n"));
    tell(&mut app, Notification::Ignored);
    assert_eq!(app.text(URI), Some("{ a = 1; }\n"));
}

#[test]
fn a_change_opens_an_unknown_document() {
    let mut app = App::new();
    let published = tell(&mut app, change(URI, vec![replace(span(0, 0, 0, 0), "1")])).unwrap();
    assert_eq!(published.uri, URI);
    assert_eq!(published.diagnostics, vec![]);
    assert_eq!(app.text(URI), Some("1"));
}

#[test]
fn changes_in_one_notification_or_in_two() {
    let mut one = with_text("abc");
    let mut two = with_text("abc");
    tell(
        &mut one,
        change(URI, vec![replace(span(0, 1, 0, 2), "\n"), replace(span(1, 0, 1, 0), "x")]),
    );
    tell(&mut two, change(URI, vec![replace(span(0, 1, 0, 2), "\n")]));
    tell(&mut two, change(URI, vec![replace(span(1, 0, 1, 0), "x")]));
    assert_eq!(one.text(URI), Some("a\nxc"));
    assert_eq!(one.text(URI), two.text(URI));
}

#[test]
fn changes_that_cannot_be_followed() {
    let app = with_text("abc");
    assert!(!app.follows(&change(URI, vec![replace(span(1, 0, 1, 0), "x")])));
    assert!(!app.follows(&change(URI, vec![replace(span(0, 0, 0, 4), "x")])));
    assert!(!app.follows(&change(OTHER, vec![replace(span(0, 0, 0, 1), "x")])));
    assert!(app.follows(&change(URI, vec![replace(span(0, 3, 0, 3), "x")])));
    assert!(app.follows(&change(URI, vec![])));
    assert!(app.follows(&Notification::Ignored));
}

#[test]
fn correct_code_draws_no_remarks() {
    let mut app = App::new();
    let published = open(&mut app, URI, "{ a = 1; }");
    assert_eq!(published.uri, URI);
    assert_eq!(published.diagnostics, vec![]);
    assert_eq!(published.version, None);
    assert_eq!(tell(&mut app, Notification::Ignored), None);
}

#[test]
fn remarks_on_an_early_end() {
    let mut app = App::new();
    let published = open(&mut app, URI, "{\n  a = 1;\n");
    assert!(!published.diagnostics.is_empty());
    assert!(published.diagnostics.iter().any(|d| d.range == span(2, 0, 2, 0)));
    for diagnostic in &published.diagnostics {
        assert!(diagnostic.message.starts_with("unexpected end of file"));
    }
}

#[test]
fn remarks_on_extra_text() {
    let mut app = App::new();
    let published = open(&mut app, URI, "1 )");
    assert_eq!(published.diagnostics.len(), 1);
    assert_eq!(published.diagnostics[0].range.end, Position { line: 0, character: 3 });
    assert!(published.diagnostics[0].message.starts_with("unexpected"));
}

#[test]
fn remarks_on_an_unwanted_token() {
    let mut app = App::new();
    let published = open(&mut app, URI, "{ a = 1 }");
    assert!(published.diagnostics.iter().any(|d| d.message.contains("wanted any of")));
}

#[test]
fn remarks_on_a_double_binding() {
    let mut app = App::new();
    let published = open(&mut app, URI, "a@{ }@b: 1");
    assert!(published.diagnostics.iter().any(|d| d.message.contains("double bind")));
}

#[test]
fn remarks_follow_the_text() {
    let mut app = App::new();
    assert!(!open(&mut app, URI, "{").diagnostics.is_empty());
    let published = tell(&mut app, change(URI, vec![replace(span(0, 1, 0, 1), "}")])).unwrap();
    assert_eq!(published.diagnostics, vec![]);
}

#[test]
fn offsets_of_the_cursor() {
    let app = with_text("a\nbc");
    assert_eq!(app.cursor_offset(&at(URI, 1, 1)), Some(3));
    assert_eq!(app.cursor_offset(&at(URI, 2, 0)), None);
    assert_eq!(app.cursor_offset(&at(OTHER, 0, 0)), None);
}

#[test]
fn definitions() {
    let app = with_text("let x = 1; in x");
    assert_eq!(
        ask(&app, Request::GotoDefinition { at: at(URI, 0, 14) }),
        Ok(Payload::Definition(Some(Location {
            uri: URI.to_string(),
            range: span(0, 4, 0, 5),
        }))),
    );
}

#[test]
fn definitions_of_all_kinds() {
    assert_eq!(definition("x: x", 3), Some(span(0, 0, 0, 1)));
    assert_eq!(definition("{ a, b ? a }: b", 14), Some(span(0, 5, 0, 6)));
    assert_eq!(definition("{ a }@s: s", 9), Some(span(0, 6, 0, 7)));
    assert_eq!(definition("s@{ a }: s", 9), Some(span(0, 0, 0, 1)));
    assert_eq!(definition("rec { a = 1; b = a; }", 17), Some(span(0, 6, 0, 7)));
    assert_eq!(definition("{ a = 1; b = a; }", 13), None);
    assert_eq!(definition("y: let inherit y; in y", 21), Some(span(0, 15, 0, 16)));
    assert_eq!(definition("let x = 1; in x: x", 17), Some(span(0, 14, 0, 15)));
    assert_eq!(definition("let s = { a = { b = 1; }; }; in s.a.b", 36), Some(span(0, 16, 0, 17)));
    assert_eq!(definition("let s = 1; in s.a", 16), None);
    assert_eq!(definition("unbound", 3), None);
}

#[test]
fn a_definition_is_spelt_like_the_name() {
    let code = "let \u{1f600}a = 1; name = 2; in name";
    let start = code.find("name").unwrap() as u32 - 2;
    let place = code.rfind("name").unwrap() as u32 - 2;
    assert_eq!(definition(code, place), Some(span(0, start, 0, start + 4)));
}

#[test]
fn a_definition_in_another_document() {
    let mut app = with_text("let x = 1; in x");
    open(&mut app, OTHER, "{\n  x = 1;\n}");
    let key = TextRange { start: 4, end: 5 };
    let request = at(URI, 0, 14);
    let found = app.lookup_definition(&request, &cursor_on("x", OTHER, key)).unwrap();
    assert_eq!(found, Location { uri: OTHER.to_string(), range: span(1, 2, 1, 3) });
    let there = TextDocumentPosition { uri: found.uri, position: found.range.start };
    assert_eq!(app.cursor_offset(&there), Some(4));
}

#[test]
fn what_has_no_definition() {
    let app = with_text("let x = 1; in x");
    let key = TextRange { start: 4, end: 5 };
    let place = at(URI, 0, 14);
    assert_eq!(app.lookup_definition(&place, &None), None);
    assert_eq!(app.lookup_definition(&place, &cursor_on("map", URI, key)), None);
    assert_eq!(app.lookup_definition(&place, &cursor_on("nowhere", URI, key)), None);
    assert_eq!(app.lookup_definition(&place, &cursor_on("x", OTHER, key)), None);
    assert_eq!(app.lookup_definition(&at(URI, 5, 0), &cursor_on("x", URI, key)), None);
}

#[test]
fn completions_at_the_cursor() {
    let app = with_text("let x = 1; xy = 2; y = 3; in x");
    let request = Request::Completion { at: at(URI, 0, 30), globals: vec![] };
    match ask(&app, request) {
        Ok(Payload::Completions(items)) => {
            assert_eq!(items.len(), 2);
            assert_eq!(items[0].label, "x");
            assert_eq!(items[0].text_edit.range, span(0, 29, 0, 30));
            assert_eq!(items[0].detail, "Variable");
            assert_eq!(items[1].label, "xy");
        }
        other => panic!("{:?}", other),
    }
    let nowhere = Request::Completion { at: at(URI, 0, 8), globals: vec![global("map")] };
    assert_eq!(ask(&app, nowhere), Ok(Payload::Completions(vec![])));
}

#[test]
fn global_variables_are_hidden_by_others() {
    let app = with_text("map: m");
    let globals = vec![global("map"), global("mapAttrs"), global("mapAttrs"), global("import")];
    let request = Request::Completion { at: at(URI, 0, 6), globals };
    assert_eq!(labels(ask(&app, request)), vec!["map", "mapAttrs"]);
    let cursor = app.cursor(&at(URI, 0, 6), &vec![global("map")]).unwrap();
    assert_eq!(cursor.scope.len(), 1);
    assert_eq!(cursor.scope[0].detail, "Parameter");
}

#[test]
fn attributes_are_completed() {
    let app = with_text("let s = { aa = 1; ab.c = 2; b = 3; }; in s.a");
    let request = Request::Completion { at: at(URI, 0, 44), globals: vec![global("abort")] };
    assert_eq!(labels(ask(&app, request)), vec!["aa", "ab"]);
}

#[test]
fn renaming_a_variable() {
    let app = with_text("let x = { x = x.x; }; in x");
    let request = Request::Rename { at: at(URI, 0, 25), new_name: "renamed".to_string() };
    let edit = |column: u32| TextEdit {
        range: span(0, column, 0, column + 1),
        new_text: "renamed".to_string(),
    };
    assert_eq!(
        ask(&app, request),
        Ok(Payload::Changes(Some(WorkspaceChange {
            uri: URI.to_string(),
            edits: vec![edit(4), edit(10), edit(14), edit(25)],
        }))),
    );
}

#[test]
fn renaming_stays_below_the_binding() {
    let app = with_text("[ x (x: x) ]");
    let change = app.rename(&at(URI, 0, 8), &"n".to_string()).unwrap();
    let columns: Vec<u32> = change.edits.iter().map(|e| e.range.start.character).collect();
    assert_eq!(columns, vec![5, 8]);
}

#[test]
fn what_cannot_be_renamed() {
    let app = with_text("let x = 1; in x.y z");
    let new_name = "n".to_string();
    assert_eq!(app.rename(&at(URI, 0, 17), &new_name), None);
    assert_eq!(app.rename(&at(URI, 0, 19), &new_name), None);
    assert_eq!(app.rename(&at(URI, 0, 8), &new_name), None);
    assert_eq!(app.rename(&at(URI, 1, 0), &new_name), None);
    assert!(app.rename(&at(URI, 0, 14), &new_name).is_some());
    let request = Request::Rename { at: at(URI, 0, 17), new_name };
    assert_eq!(ask(&app, request), Ok(Payload::Changes(None)));
}

#[test]
fn links_of_a_document() {
    let app = with_text("[\n  ./a.nix\n  /d\n]\n");
    let candidates = app.link_candidates(URI, true, false);
    assert_eq!(
        candidates,
        vec![
            Candidate {
                range: TextRange { start: 4, end: 11 },
                base: Base::ParentDir,
                path: "./a.nix".to_string(),
            },
            Candidate {
                range: TextRange { start: 14, end: 16 },
                base: Base::Root,
                path: "/d".to_string(),
            },
        ],
    );
    let probes = candidates
        .into_iter()
        .map(|candidate| Probe {
            path: format!("/dir/{}", candidate.path),
            is_dir: candidate.base == Base::Root,
            is_file: candidate.base == Base::ParentDir,
            default_path: "/d/default.nix".to_string(),
            default_is_file: true,
        })
        .collect();
    assert_eq!(
        ask(
            &app,
            Request::DocumentLink { uri: URI.to_string(), has_parent: true, has_home: false, probes },
        ),
        Ok(Payload::Links(vec![
            DocumentLink { range: span(1, 2, 1, 9), target: "file:///dir/a.nix".to_string() },
            DocumentLink { range: span(2, 2, 2, 4), target: "file:///d/default.nix".to_string() },
        ])),
    );
}

#[test]
fn a_document_without_links() {
    let app = with_text("{ }\n");
    assert_eq!(app.link_candidates(URI, true, true), vec![]);
    assert_eq!(app.document_links(URI, true, true, &vec![]), None);
    let request = Request::DocumentLink {
        uri: URI.to_string(),
        has_parent: true,
        has_home: true,
        probes: vec![],
    };
    assert_eq!(ask(&app, request), Ok(Payload::Links(vec![])));
}

#[test]
fn formatting_replaces_the_document() {
    let code = "{foo = 92;}";
    let app = with_text(code);
    let edits = app.formatting(URI);
    assert_eq!(
        edits,
        vec![TextEdit { range: span(0, 0, 0, 11), new_text: "{ foo = 92; }\n".to_string() }],
    );
    let changes = edits
        .into_iter()
        .map(|edit| ContentChange { range: Some(edit.range), text: edit.new_text })
        .collect();
    assert_eq!(apply_changes(code, &changes), "{ foo = 92; }\n");
}

#[test]
fn formatting_several_lines() {
    let app = with_text("{\n\u{e4} = 1;}\n");
    match ask(&app, Request::Formatting { uri: URI.to_string() }) {
        Ok(Payload::Edits(edits)) => {
            assert_eq!(edits.len(), 1);
            assert_eq!(edits[0].range, span(0, 0, 2, 0));
        }
        other => panic!("{:?}", other),
    }
}

#[test]
fn formatting_malformed_code() {
    for code in ["", "{ a = ; } ) ] let", "{", "\"not closed $", "1 )", "( "] {
        let app = with_text(code);
        assert!(app.can_format(URI));
        let edits = app.formatting(URI);
        assert_eq!(edits.len(), 1);
        assert_eq!(edits[0].range, span(0, 0, 0, code.len() as u32));
    }
}

#[test]
fn what_can_be_formatted() {
    for code in [
        "/*\r\na\r\nb*/\n1\n",
        "/*\n\u{e9}\n*/\n1\n",
        "/* a */\r\n\"\u{e9}\"\n",
        "# \u{e9}\r\n{ a = \"${b}\"; }\r\n",
        "{ inherit (a) b c; d = ''\n  ${e}\n''; }",
        "{ a = b c = \"${x}\"; }",
        "{ a ? http://b , c }: \"${c}\"",
        "{\r\n  a = \"x/*\";\r\n  b = \"\u{e9}\";\r\n}\r\n",
    ] {
        let app = with_text(code);
        assert!(app.can_format(URI), "{:?}", code);
        assert_eq!(app.formatting(URI).len(), 1);
    }
    assert!(App::new().can_format(URI));
}

#[test]
fn what_cannot_be_formatted() {
    for code in [
        "/*\r\na\r\n\u{e9}\r\nb*/\n1\n",
        "''\n ${ a ; ./p${b}\n   c }\n ''",
        "{ inherit a ''\n${b}${c}''; }",
        "a:b . ''\n${c}${d}''",
        "./a . b/* ''\n ${ a ; ./p${b}\n   c }\n '' */ c",
    ] {
        let app = with_text(code);
        assert!(!app.can_format(URI), "{:?}", code);
        let request = Request::Formatting { uri: URI.to_string() };
        assert!(!app.answers(&request));
        assert_eq!(app.try_request(RequestId::from(1), request), None);
    }
}

#[test]
fn requests_that_can_be_answered_are() {
    let app = with_text("{}");
    let request = || Request::Formatting { uri: URI.to_string() };
    assert_eq!(
        app.try_request(RequestId::from(1), request()),
        Some(app.handle_request(RequestId::from(1), request())),
    );
}

#[test]
fn selections_widen() {
    let app = with_text("[ (a b)\n]");
    let request = Request::SelectionRange {
        uri: URI.to_string(),
        positions: vec![
            Position { line: 0, character: 4 },
            Position { line: 7, character: 0 },
            Position { line: 0, character: 0 },
        ],
    };
    assert_eq!(
        ask(&app, request),
        Ok(Payload::Selections(vec![
            Some(vec![
                span(0, 3, 0, 4),
                span(0, 3, 0, 6),
                span(0, 2, 0, 7),
                span(0, 0, 1, 1),
                span(0, 0, 1, 1),
            ]),
            None,
            Some(vec![span(0, 0, 1, 1), span(0, 0, 1, 1)]),
        ])),
    );
    let unknown = Request::SelectionRange {
        uri: OTHER.to_string(),
        positions: vec![Position { line: 0, character: 0 }],
    };
    assert_eq!(ask(&app, unknown), Ok(Payload::Selections(vec![])));
}

#[test]
fn nothing_is_selected_in_an_empty_document() {
    let app = with_text("");
    let positions = vec![Position { line: 0, character: 0 }];
    assert_eq!(app.selection_ranges(URI, &positions), vec![None]);
}

#[test]
fn nothing_is_found_in_unknown_documents() {
    let app = with_text("let x = 1; in x\n");
    let key = TextRange { start: 4, end: 5 };
    let place = at(OTHER, 0, 0);
    assert_eq!(app.cursor(&place, &vec![]), None);
    assert_eq!(app.lookup_definition(&place, &cursor_on("x", URI, key)), None);
    assert_eq!(app.completions(&place, &cursor_on("x", URI, key)), None);
    assert_eq!(app.rename(&place, &"n".to_string()), None);
    assert_eq!(app.link_candidates(OTHER, true, true), vec![]);
    let probe = Probe {
        path: "/a".to_string(),
        is_dir: false,
        is_file: true,
        default_path: "/a/default.nix".to_string(),
        default_is_file: false,
    };
    assert_eq!(app.document_links(OTHER, true, true, &vec![probe]), None);
    assert_eq!(app.formatting(OTHER), vec![]);
    assert_eq!(app.selection_ranges(OTHER, &vec![place.position]), vec![]);
}

#[test]
fn unknown_methods_are_refused() {
    let app = App::new();
    assert_eq!(
        ask(&app, Request::Unhandled { method: "textDocument/hover".to_string() }),
        Err(ResponseError {
            code: METHOD_NOT_FOUND,
            message: "Unhandled method textDocument/hover".to_string(),
        }),
    );
}

#[test]
fn failures_are_reported() {
    assert_eq!(
        err(RequestId::from("a".to_string()), "no exit".to_string()),
        Response {
            id: RequestId::from("a".to_string()),
            result: Err(ResponseError {
                code: UNKNOWN_ERROR_CODE,
                message: "no exit".to_string(),
            }),
        },
    );
}
