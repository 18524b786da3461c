//! Characters, bytes, code units and positions.

use rnix_lsp::position::{lookup_pos, offset_to_pos, range, Position, Range, TextRange};
use rnix_lsp::text::{byte_count, chars_of, is_measurable, same, starts_with, width_of};
use rnix_lsp::utf16::{decode, encode, unit_count};

const SAMPLES: [&str; 8] = [
    "",
    "a",
    "let x = 1; in x\n",
    "\n\n\n",
    "\u{e4}\u{f6}\u{fc}",
    "\u{20ac} and \u{ffff}",
    "a\u{1f600}b\u{10ffff}\n\u{10000}",
    "tab\there\r\nand there",
];

fn at(line: u32, character: u32) -> Position {
    Position { line, character }
}

#[test]
fn widths_are_those_of_utf8() {
    for c in ['a', '\u{7f}', '\u{80}', '\u{7ff}', '\u{800}', '\u{ffff}', '\u{10000}', '\u{10ffff}'] {
        assert_eq!(width_of(c) as usize, c.len_utf8());
        assert_eq!(unit_count(c) as usize, c.len_utf16());
    }
    assert_eq!(width_of('\u{20ac}'), 3);
    assert_eq!(unit_count('\u{1f600}'), 2);
}

#[test]
fn counts_agree_with_std() {
    for s in SAMPLES {
        assert_eq!(byte_count(s), s.len());
        assert_eq!(chars_of(s), s.chars().collect::<Vec<char>>());
        assert!(is_measurable(s));
    }
    assert_eq!(byte_count("a\u{20ac}\u{1f600}"), 8);
}

#[test]
fn concatenation_adds_bytes() {
    let (a, b) = ("\u{20ac}x", "\u{1f600}");
    assert_eq!(byte_count(&format!("{}{}", a, b)), byte_count(a) + byte_count(b));
}

#[test]
fn prefixes_and_equality() {
    assert!(starts_with("abc", ""));
    assert!(starts_with("abc", "ab"));
    assert!(starts_with("abc", "abc"));
    assert!(!starts_with("abc", "abcd"));
    assert!(!starts_with("abc", "b"));
    assert!(same("", ""));
    assert!(same("x\u{e4}", "x\u{e4}"));
    assert!(!same("x", "xy"));
    assert!(!same("xy", "x"));
}

#[test]
fn encoding_agrees_with_std() {
    for s in SAMPLES {
        assert_eq!(encode(s), s.encode_utf16().collect::<Vec<u16>>());
    }
    assert_eq!(encode("\u{1f600}"), vec![0xd83d, 0xde00]);
}

#[test]
fn decoding_undoes_encoding() {
    for s in SAMPLES {
        let units = encode(s);
        assert_eq!(decode(&units, 0, units.len()), s);
    }
}

#[test]
fn lone_halves_of_pairs_are_replaced() {
    let cases: Vec<Vec<u16>> = vec![
        vec![0xd800],
        vec![0xdc00],
        vec![0xdc00, 0xd800],
        vec![0xd800, 0xd800, 0xdc00],
        vec![0x61, 0xd83d, 0x62],
        vec![0xd83d, 0xde00, 0xde00],
        vec![0xdbff, 0xdfff],
        vec![0xd7ff, 0xe000],
    ];
    for units in &cases {
        assert_eq!(decode(units, 0, units.len()), String::from_utf16_lossy(units));
    }
    assert_eq!(decode(&vec![0x61, 0xd83d, 0x62], 0, 3), "a\u{fffd}b");
}

#[test]
fn a_part_is_decoded_by_itself() {
    let units = encode("a\u{1f600}b");
    assert_eq!(decode(&units, 0, 1), "a");
    assert_eq!(decode(&units, 1, 3), "\u{1f600}");
    assert_eq!(decode(&units, 0, 2), "a\u{fffd}");
    assert_eq!(decode(&units, 2, 4), "\u{fffd}b");
    assert_eq!(decode(&units, 4, 4), "");
}

#[test]
fn encoding_a_concatenation_concatenates() {
    let (a, b) = ("x\u{1f600}", "\u{e4}\n");
    let mut both = encode(a);
    both.extend(encode(b));
    assert_eq!(encode(&format!("{}{}", a, b)), both);
    assert_eq!(decode(&both, 0, encode(a).len()), a);
}

#[test]
fn positions_count_code_units() {
    let code = "ab\n\u{1f600}c\n";
    assert_eq!(offset_to_pos(code, 0), at(0, 0));
    assert_eq!(offset_to_pos(code, 2), at(0, 2));
    assert_eq!(offset_to_pos(code, 3), at(1, 0));
    assert_eq!(offset_to_pos(code, 7), at(1, 2));
    assert_eq!(offset_to_pos(code, 8), at(1, 3));
    assert_eq!(offset_to_pos(code, 9), at(2, 0));
    assert_eq!(
        range(code, TextRange { start: 1, end: 8 }),
        Range { start: at(0, 1), end: at(1, 3) },
    );
    assert_eq!(offset_to_pos("", 0), at(0, 0));
}

#[test]
fn offsets_of_positions() {
    let code = "ab\n\u{1f600}c\n";
    assert_eq!(lookup_pos(code, at(0, 0)), Some(0));
    assert_eq!(lookup_pos(code, at(0, 2)), Some(2));
    assert_eq!(lookup_pos(code, at(1, 0)), Some(3));
    assert_eq!(lookup_pos(code, at(1, 2)), Some(7));
    assert_eq!(lookup_pos(code, at(1, 3)), Some(8));
    assert_eq!(lookup_pos(code, at(2, 0)), Some(9));
    assert_eq!(lookup_pos(code, at(3, 0)), None);
    assert_eq!(lookup_pos(code, at(0, 99)), Some(2));
    assert_eq!(lookup_pos(code, at(2, 1)), Some(9));
    assert_eq!(lookup_pos("", at(0, 0)), Some(0));
}

#[test]
fn offsets_survive_the_way_to_positions_and_back() {
    for s in SAMPLES {
        for (offset, _) in s.char_indices() {
            assert_eq!(lookup_pos(s, offset_to_pos(s, offset as u32)), Some(offset as u32));
        }
        assert_eq!(lookup_pos(s, offset_to_pos(s, s.len() as u32)), Some(s.len() as u32));
    }
}
