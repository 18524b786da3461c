//! Changes to the text of a document.

use rnix_lsp::change::{apply_change, apply_changes, locate, try_changes, ContentChange};
use rnix_lsp::position::{range, Position, Range, TextRange};
use rnix_lsp::utf16::encode;

fn span(line: u32, character: u32, to_line: u32, to_character: u32) -> Range {
    Range {
        start: Position { line, character },
        end: Position { line: to_line, character: to_character },
    }
}

fn replace(range: Range, text: &str) -> ContentChange {
    ContentChange { range: Some(range), text: text.to_string() }
}

fn whole(text: &str) -> ContentChange {
    ContentChange { range: None, text: text.to_string() }
}

#[test]
fn places_in_a_text() {
    let units = encode("ab\ncd\nef");
    assert_eq!(locate(&units, span(0, 0, 0, 0)), Some((0, 0)));
    assert_eq!(locate(&units, span(0, 1, 0, 2)), Some((1, 2)));
    assert_eq!(locate(&units, span(1, 1, 2, 0)), Some((4, 6)));
    assert_eq!(locate(&units, span(0, 1, 2, 2)), Some((1, 8)));
    assert_eq!(locate(&units, span(2, 2, 2, 2)), Some((8, 8)));
}

#[test]
fn places_outside_a_text() {
    let units = encode("ab\ncd\nef");
    assert_eq!(locate(&units, span(3, 0, 3, 0)), None);
    assert_eq!(locate(&units, span(0, 0, 3, 0)), None);
    assert_eq!(locate(&units, span(2, 3, 2, 3)), None);
    assert_eq!(locate(&units, span(2, 0, 2, 3)), None);
    assert_eq!(locate(&units, span(1, 0, 0, 0)), None);
    assert_eq!(locate(&units, span(1, 2, 1, 1)), None);
}

#[test]
fn a_column_may_run_over_the_end_of_its_line() {
    let units = encode("ab\ncd\n");
    assert_eq!(locate(&units, span(0, 4, 0, 5)), Some((4, 5)));
    assert_eq!(apply_change("ab\ncd\n", &replace(span(0, 4, 0, 5), "X")), "ab\ncX\n");
}

#[test]
fn an_end_may_stand_before_the_start() {
    let units = encode("abcdef\nxy\n");
    assert_eq!(locate(&units, span(0, 9, 1, 0)), Some((9, 7)));
    assert_eq!(apply_change("abcdef\nxy\n", &replace(span(0, 9, 1, 0), "_")), "abcdef\nxy_xy\n");
}

#[test]
fn inserting_deleting_replacing() {
    assert_eq!(apply_change("{ }", &replace(span(0, 1, 0, 1), " a = 1;")), "{ a = 1; }");
    assert_eq!(apply_change("{ a = 1; }", &replace(span(0, 1, 0, 8), "")), "{ }");
    assert_eq!(apply_change("one\ntwo\nthree", &replace(span(0, 2, 2, 1), "-")), "on-hree");
    assert_eq!(apply_change("", &replace(span(0, 0, 0, 0), "x")), "x");
}

#[test]
fn a_change_without_a_range_replaces_everything() {
    assert_eq!(apply_change("old", &whole("new")), "new");
    assert_eq!(apply_change("old", &whole("")), "");
}

#[test]
fn columns_count_code_units() {
    let content = "\u{1f600}x\n\u{e4}y";
    assert_eq!(apply_change(content, &replace(span(0, 2, 0, 3), "Z")), "\u{1f600}Z\n\u{e4}y");
    assert_eq!(apply_change(content, &replace(span(1, 1, 1, 2), "Z")), "\u{1f600}x\n\u{e4}Z");
}

#[test]
fn half_a_pair_is_replaced() {
    assert_eq!(
        apply_change("a\u{1f600}b", &replace(span(0, 2, 0, 2), "|")),
        "a\u{fffd}|\u{fffd}b",
    );
}

#[test]
fn changes_are_made_in_order() {
    let changes = vec![
        replace(span(0, 0, 0, 0), "first\n"),
        replace(span(1, 0, 1, 0), "second "),
        replace(span(0, 0, 0, 5), "1st"),
    ];
    assert_eq!(apply_changes("text", &changes), "1st\nsecond text");
    assert_eq!(try_changes("text", &changes), Some("1st\nsecond text".to_string()));
    assert_eq!(apply_changes("text", &vec![]), "text");
}

#[test]
fn one_change_that_does_not_fit_refuses_all() {
    let changes = vec![replace(span(0, 0, 0, 1), "x"), replace(span(4, 0, 4, 0), "y")];
    assert_eq!(try_changes("abc", &changes), None);
}

#[test]
fn later_changes_may_fit_thanks_to_earlier_ones() {
    let changes = vec![whole("a\nb\nc"), replace(span(2, 0, 2, 1), "C")];
    assert_eq!(try_changes("", &changes), Some("a\nb\nC".to_string()));
}

#[test]
fn changes_compose() {
    let first = vec![replace(span(0, 0, 0, 1), "xy"), whole("new\ntext")];
    let second = vec![replace(span(1, 0, 1, 4), "end")];
    let both = vec![
        replace(span(0, 0, 0, 1), "xy"),
        whole("new\ntext"),
        replace(span(1, 0, 1, 4), "end"),
    ];
    let middle = apply_changes("abc", &first);
    assert_eq!(apply_changes(&middle, &second), apply_changes("abc", &both));
    assert_eq!(apply_changes("abc", &both), "new\nend");
}

#[test]
fn a_reported_range_is_what_an_edit_replaces() {
    let content = "a\u{1f600}\nb\u{e4}c\n";
    let reported = range(content, TextRange { start: 1, end: 9 });
    assert_eq!(apply_change(content, &replace(reported, "-")), "a-c\n");
}
