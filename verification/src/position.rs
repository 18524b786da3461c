//! Places in a text: as byte offsets, the way the syntax tree counts, and as
//! a line and a column in UTF-16 units, the way the protocol counts.

use vstd::prelude::*;

use crate::text;
use crate::utf16;

verus! {

/// A place between two characters: a line, counted from zero, and the number
/// of UTF-16 units before it on that line.
#[derive(Clone, Copy, Debug, PartialEq, Eq, Structural)]
pub struct Position {
    pub line: u32,
    pub character: u32,
}

/// A stretch of text between two positions.
#[derive(Clone, Copy, Debug, PartialEq, Eq, Structural)]
pub struct Range {
    pub start: Position,
    pub end: Position,
}

/// A stretch of text between two byte offsets.
#[derive(Clone, Copy, Debug, PartialEq, Eq, Structural)]
pub struct TextRange {
    pub start: u32,
    pub end: u32,
}

impl DeepView for Range {
    type V = Range;

    open spec fn deep_view(&self) -> Range {
        *self
    }
}

impl TextRange {
    /// Whether the stretch does not end before it begins.
    pub open spec fn ordered(self) -> bool {
        self.start <= self.end
    }
}

/// Where a line begins: the index behind the given number of newlines, counted
/// from `from` on. There is none if there are not that many newlines.
pub open spec fn line_start<T>(s: Seq<T>, newline: T, from: int, line: nat) -> Option<int>
    decreases s.len() - from,
{
    if line == 0 {
        Some(from)
    } else if from < 0 || from >= s.len() {
        None
    } else if s[from] == newline {
        line_start(s, newline, from + 1, (line - 1) as nat)
    } else {
        line_start(s, newline, from + 1, line)
    }
}

/// The line and the column at which a text ends.
pub open spec fn end_of(s: Seq<char>) -> (nat, nat)
    decreases s.len(),
{
    if s.len() == 0 {
        (0, 0)
    } else {
        let (line, column) = end_of(s.drop_last());
        if s.last() == '\n' {
            (line + 1, 0)
        } else {
            (line, column + utf16::units_of(s.last()).len())
        }
    }
}

/// The number of characters that begin before a byte offset.
pub open spec fn chars_before(s: Seq<char>, offset: int) -> nat
    decreases s.len(),
{
    if s.len() == 0 || offset <= 0 {
        0
    } else {
        1 + chars_before(s.drop_first(), offset - text::width(s[0]))
    }
}

/// The position of a byte offset: where the characters before it end.
pub open spec fn position_at(s: Seq<char>, offset: int) -> Position {
    let (line, column) = end_of(s.take(chars_before(s, offset) as int));
    Position { line: line as u32, character: column as u32 }
}

/// The positions between which a stretch of bytes lies.
pub open spec fn range_at(s: Seq<char>, r: TextRange) -> Range {
    Range { start: position_at(s, r.start as int), end: position_at(s, r.end as int) }
}

/// The index that lies a number of UTF-16 units to the right of `from`, or the
/// end of the line if that comes first.
pub open spec fn column_index(s: Seq<char>, from: int, units: int) -> int
    decreases s.len() - from,
{
    if units <= 0 || from < 0 || from >= s.len() || s[from] == '\n' {
        from
    } else {
        column_index(s, from + 1, units - utf16::units_of(s[from]).len())
    }
}

/// The byte offset of a position. There is none behind the last line.
pub open spec fn offset_at(s: Seq<char>, p: Position) -> Option<nat> {
    match line_start(s, '\n', 0, p.line as nat) {
        Some(from) => Some(text::byte_len(s.take(column_index(s, from, p.character as int)))),
        None => None,
    }
}

/// The position of a byte offset.
pub fn offset_to_pos(code: &str, offset: u32) -> (r: Position)
    requires
        text::measurable(code@),
    ensures
        r == position_at(code@, offset as int),
{
    let chars = text::chars_of(code);
    let mut i: usize = 0;
    let mut bytes: u32 = 0;
    let mut line: u32 = 0;
    let mut column: u32 = 0;
    proof {
        assert(chars@.take(0) =~= seq![]);
        assert(chars@.skip(0) =~= chars@);
    }
    while i < chars.len() && bytes < offset
        invariant
            i <= chars@.len(),
            text::measurable(chars@),
            bytes == text::byte_len(chars@.take(i as int)),
            (line as nat, column as nat) == end_of(chars@.take(i as int)),
            line + column <= bytes,
            i + chars_before(chars@.skip(i as int), offset - bytes) == chars_before(
                chars@,
                offset as int,
            ),
        decreases chars.len() - i,
    {
        let c = chars[i];
        proof {
            text::lemma_byte_len_take(chars@, i as int);
            text::lemma_byte_len_take(chars@, i + 1);
            assert(chars@.take(i + 1).drop_last() =~= chars@.take(i as int));
            assert(chars@.take(i + 1).last() == c);
            assert(chars@.skip(i as int).drop_first() =~= chars@.skip(i + 1));
            assert(utf16::units_of(c).len() <= text::width(c));
        }
        if c == '\n' {
            line = line + 1;
            column = 0;
        } else {
            column = column + utf16::unit_count(c);
        }
        bytes = bytes + text::width_of(c);
        i = i + 1;
    }
    assert(chars_before(chars@.skip(i as int), offset - bytes) == 0);
    Position { line, character: column }
}

/// The positions between which a stretch of bytes lies.
pub fn range(code: &str, r: TextRange) -> (res: Range)
    requires
        text::measurable(code@),
    ensures
        res == range_at(code@, r),
{
    Range { start: offset_to_pos(code, r.start), end: offset_to_pos(code, r.end) }
}

/// The byte offset of a position, or `None` for a line that the text has not
/// got. A column behind the end of its line means the end of the line.
pub fn lookup_pos(code: &str, pos: Position) -> (r: Option<u32>)
    requires
        text::measurable(code@),
    ensures
        match offset_at(code@, pos) {
            Some(n) => r == Some(n as u32) && n <= text::byte_len(code@),
            None => r is None,
        },
{
    let chars = text::chars_of(code);
    let mut i: usize = 0;
    let mut bytes: u32 = 0;
    let mut lines: u32 = pos.line;
    assert(chars@.take(0) =~= seq![]);
    while lines > 0
        invariant
            i <= chars@.len(),
            chars@ == code@,
            text::measurable(chars@),
            bytes == text::byte_len(chars@.take(i as int)),
            line_start(chars@, '\n', i as int, lines as nat) == line_start(
                chars@,
                '\n',
                0,
                pos.line as nat,
            ),
        decreases chars.len() - i,
    {
        if i == chars.len() {
            return None;
        }
        proof {
            text::lemma_byte_len_take(chars@, i as int);
            text::lemma_byte_len_take(chars@, i + 1);
        }
        if chars[i] == '\n' {
            lines = lines - 1;
        }
        bytes = bytes + text::width_of(chars[i]);
        i = i + 1;
    }
    let ghost from = i as int;
    let mut units: u32 = 0;
    while i < chars.len() && chars[i] != '\n' && units < pos.character
        invariant
            0 <= from <= i <= chars@.len(),
            text::measurable(chars@),
            bytes == text::byte_len(chars@.take(i as int)),
            units <= bytes,
            column_index(chars@, i as int, pos.character - units) == column_index(
                chars@,
                from,
                pos.character as int,
            ),
        decreases chars.len() - i,
    {
        proof {
            text::lemma_byte_len_take(chars@, i as int);
            text::lemma_byte_len_take(chars@, i + 1);
            assert(utf16::units_of(chars@[i as int]).len() <= text::width(chars@[i as int]));
        }
        units = units + utf16::unit_count(chars[i]);
        bytes = bytes + text::width_of(chars[i]);
        i = i + 1;
    }
    proof {
        text::lemma_byte_len_take(chars@, i as int);
    }
    Some(bytes)
}

/// Where the last line of a text begins.
pub(crate) open spec fn last_line(s: Seq<char>) -> int
    decreases s.len(),
{
    if s.len() == 0 || s.last() == '\n' {
        s.len() as int
    } else {
        last_line(s.drop_last())
    }
}

/// The line behind the first newline after the start of a line is the next line.
pub(crate) proof fn lemma_next_line<T>(s: Seq<T>, newline: T, from: int, line: nat, a: int, b: int)
    requires
        0 <= from,
        line_start(s, newline, from, line) == Some(a),
        a <= b < s.len(),
        s[b] == newline,
        forall|j: int| a <= j < b ==> s[j] != newline,
    ensures
        line_start(s, newline, from, line + 1) == Some(b + 1),
    decreases s.len() - from,
{
    if line == 0 {
        if from == b {
            assert(line_start(s, newline, from + 1, 0) == Some(b + 1));
        } else {
            lemma_next_line(s, newline, from + 1, 0, from + 1, b);
        }
    } else if s[from] == newline {
        lemma_next_line(s, newline, from + 1, (line - 1) as nat, a, b);
    } else {
        lemma_next_line(s, newline, from + 1, line, a, b);
    }
}

/// The line on which a prefix of a text ends begins at the prefix's last line,
/// and the column counts the units from there on.
pub(crate) proof fn lemma_end_of_prefix(s: Seq<char>, k: int)
    requires
        0 <= k <= s.len(),
    ensures
        ({
            let a = last_line(s.take(k));
            &&& 0 <= a <= k
            &&& line_start(s, '\n', 0, end_of(s.take(k)).0) == Some(a)
            &&& end_of(s.take(k)).1 == utf16::encoded(s.subrange(a, k)).len()
            &&& forall|j: int| a <= j < k ==> s[j] != '\n'
        }),
    decreases k,
{
    let p = s.take(k);
    if k == 0 {
        assert(s.subrange(0, 0) =~= seq![]);
    } else {
        let q = s.take(k - 1);
        assert(p.drop_last() =~= q);
        lemma_end_of_prefix(s, k - 1);
        let a = last_line(q);
        if p.last() == '\n' {
            lemma_next_line(s, '\n', 0, end_of(q).0, a, k - 1);
            assert(s.subrange(k, k) =~= seq![]);
        } else {
            assert(s.subrange(a, k) =~= s.subrange(a, k - 1).push(s[k - 1]));
            utf16::lemma_encoded_push(s.subrange(a, k - 1), s[k - 1]);
        }
    }
}

/// As many characters begin before the end of a prefix as the prefix has.
pub(crate) proof fn lemma_chars_before_prefix(s: Seq<char>, k: int)
    requires
        0 <= k <= s.len(),
    ensures
        chars_before(s, text::byte_len(s.take(k)) as int) == k,
    decreases k,
{
    if k == 0 {
        assert(s.take(0) =~= seq![]);
    } else {
        let t = s.drop_first();
        assert(s.take(k).drop_first() =~= t.take(k - 1));
        lemma_chars_before_prefix(t, k - 1);
    }
}

proof fn lemma_column_index(s: Seq<char>, a: int, k: int)
    requires
        0 <= a <= k <= s.len(),
        forall|j: int| a <= j < k ==> s[j] != '\n',
    ensures
        column_index(s, a, utf16::encoded(s.subrange(a, k)).len() as int) == k,
    decreases k - a,
{
    if a == k {
        assert(s.subrange(a, k) =~= seq![]);
    } else {
        assert(s.subrange(a, k).drop_first() =~= s.subrange(a + 1, k));
        lemma_column_index(s, a + 1, k);
    }
}

/// The lengths of a text in lines, and of its last line in units, do not exceed
/// its length in bytes.
pub(crate) proof fn lemma_end_of_bound(s: Seq<char>)
    ensures
        end_of(s).0 + end_of(s).1 <= text::byte_len(s),
    decreases s.len(),
{
    if s.len() > 0 {
        let q = s.drop_last();
        lemma_end_of_bound(q);
        text::lemma_byte_len_take(s, s.len() - 1);
        assert(s.take(s.len() - 1) =~= q);
        assert(s.take(s.len() as int) =~= s);
        assert(utf16::units_of(s.last()).len() <= text::width(s.last()));
    }
}

/// A position leads back to the offset that it was made from: of the offset
/// behind any number of whole characters, the position is looked up as that
/// offset again.
pub proof fn law_offset_survives(s: Seq<char>, k: int)
    requires
        text::measurable(s),
        0 <= k <= s.len(),
    ensures
        offset_at(s, position_at(s, text::byte_len(s.take(k)) as int)) == Some(
            text::byte_len(s.take(k)),
        ),
{
    lemma_chars_before_prefix(s, k);
    lemma_end_of_prefix(s, k);
    lemma_end_of_bound(s.take(k));
    text::lemma_byte_len_take(s, k);
    lemma_column_index(s, last_line(s.take(k)), k);
}

/// The end of a longer prefix never lies before the end of a shorter one.
pub(crate) proof fn lemma_end_of_monotonic(s: Seq<char>, i: int, j: int)
    requires
        0 <= i <= j <= s.len(),
    ensures
        ({
            let p = end_of(s.take(i));
            let q = end_of(s.take(j));
            p.0 < q.0 || (p.0 == q.0 && p.1 <= q.1)
        }),
    decreases j - i,
{
    if i < j {
        lemma_end_of_monotonic(s, i, j - 1);
        assert(s.take(j).drop_last() =~= s.take(j - 1));
    }
}

/// Without a newline between them, the ends of two prefixes lie on one line, the
/// longer one further to the right.
pub(crate) proof fn lemma_end_of_same_line(s: Seq<char>, i: int, j: int)
    requires
        0 <= i <= j <= s.len(),
        forall|k: int| i <= k < j ==> s[k] != '\n',
    ensures
        end_of(s.take(j)).0 == end_of(s.take(i)).0,
        end_of(s.take(j)).1 >= end_of(s.take(i)).1 + (j - i),
    decreases j - i,
{
    if i < j {
        lemma_end_of_same_line(s, i, j - 1);
        assert(s.take(j).drop_last() =~= s.take(j - 1));
        assert(s.take(j).last() == s[j - 1]);
        assert(utf16::units_of(s[j - 1]).len() >= 1);
    }
}

/// Whether a position does not lie behind another.
pub open spec fn precedes(a: Position, b: Position) -> bool {
    a.line < b.line || (a.line == b.line && a.character <= b.character)
}

proof fn lemma_chars_before_monotonic(s: Seq<char>, a: int, b: int)
    requires
        a <= b,
    ensures
        chars_before(s, a) <= chars_before(s, b) <= s.len(),
    decreases s.len(),
{
    if s.len() > 0 && b > 0 {
        lemma_chars_before_monotonic(
            s.drop_first(),
            a - text::width(s[0]),
            b - text::width(s[0]),
        );
    }
}

/// Positions stand in the order of their offsets.
pub proof fn law_positions_keep_order(s: Seq<char>, a: int, b: int)
    requires
        text::measurable(s),
        a <= b,
    ensures
        precedes(position_at(s, a), position_at(s, b)),
{
    let i = chars_before(s, a) as int;
    let j = chars_before(s, b) as int;
    lemma_chars_before_monotonic(s, a, b);
    lemma_end_of_monotonic(s, i, j);
    lemma_end_of_bound(s.take(i));
    lemma_end_of_bound(s.take(j));
    text::lemma_byte_len_take(s, i);
    text::lemma_byte_len_take(s, j);
}

/// The number of newlines in a text.
pub open spec fn newlines(s: Seq<char>) -> nat
    decreases s.len(),
{
    if s.len() == 0 {
        0
    } else {
        newlines(s.drop_last()) + if s.last() == '\n' {
            1nat
        } else {
            0nat
        }
    }
}

/// Whether a line begins at an index.
pub open spec fn begins_line(s: Seq<char>, a: int) -> bool {
    0 <= a <= s.len() && (a == 0 || s[a - 1] == '\n')
}

/// Whether no newline stands between two indices.
pub open spec fn on_one_line(s: Seq<char>, a: int, k: int) -> bool {
    0 <= a <= k <= s.len() && forall|j: int| a <= j < k ==> s[j] != '\n'
}

proof fn lemma_lines_are_newlines(s: Seq<char>)
    ensures
        end_of(s).0 == newlines(s),
    decreases s.len(),
{
    if s.len() > 0 {
        lemma_lines_are_newlines(s.drop_last());
    }
}

proof fn lemma_last_line(s: Seq<char>, a: int, k: int)
    requires
        begins_line(s, a),
        on_one_line(s, a, k),
    ensures
        last_line(s.take(k)) == a,
    decreases k - a,
{
    if a < k {
        assert(s.take(k).last() == s[k - 1]);
        assert(s.take(k).drop_last() =~= s.take(k - 1));
        lemma_last_line(s, a, k - 1);
    } else if a > 0 {
        assert(s.take(a).last() == s[a - 1]);
    }
}

/// The position behind some characters counts the lines that end among them, and
/// on the last line the UTF-16 units.
pub proof fn law_positions_count_lines_and_units(s: Seq<char>, a: int, k: int)
    requires
        text::measurable(s),
        begins_line(s, a),
        on_one_line(s, a, k),
    ensures
        ({
            let p = position_at(s, text::byte_len(s.take(k)) as int);
            &&& p.line == newlines(s.take(k))
            &&& p.line == newlines(s.take(a))
            &&& p.character == utf16::encoded(s.subrange(a, k)).len()
        }),
{
    lemma_chars_before_prefix(s, k);
    lemma_end_of_prefix(s, k);
    lemma_end_of_bound(s.take(k));
    text::lemma_byte_len_take(s, k);
    lemma_last_line(s, a, k);
    lemma_lines_are_newlines(s.take(k));
    lemma_lines_are_newlines(s.take(a));
    lemma_end_of_same_line(s, a, k);
}

proof fn lemma_chars_before_inside(s: Seq<char>, k: int, offset: int)
    requires
        0 <= k < s.len(),
        text::byte_len(s.take(k)) < offset <= text::byte_len(s.take(k + 1)),
    ensures
        chars_before(s, offset) == k + 1,
    decreases k,
{
    let rest = s.drop_first();
    if k == 0 {
        assert(s.take(0) =~= seq![]);
        assert(s.take(1).drop_first() =~= seq![]);
        assert(text::byte_len(s.take(1).drop_first()) == 0);
        assert(chars_before(rest, offset - text::width(s[0])) == 0);
    } else {
        assert(s.take(k).drop_first() =~= rest.take(k - 1));
        assert(s.take(k + 1).drop_first() =~= rest.take(k));
        lemma_chars_before_inside(rest, k - 1, offset - text::width(s[0]));
    }
}

/// An offset inside a character has the position of the end of the character.
pub proof fn law_positions_lie_between_characters(s: Seq<char>, k: int, offset: int)
    requires
        0 <= k < s.len(),
        text::byte_len(s.take(k)) < offset <= text::byte_len(s.take(k + 1)),
    ensures
        position_at(s, offset) == position_at(s, text::byte_len(s.take(k + 1)) as int),
{
    lemma_chars_before_inside(s, k, offset);
    lemma_chars_before_prefix(s, k + 1);
}

proof fn lemma_chars_before_end(s: Seq<char>, offset: int)
    requires
        offset >= text::byte_len(s),
    ensures
        chars_before(s, offset) == s.len(),
    decreases s.len(),
{
    if s.len() > 0 {
        lemma_chars_before_end(s.drop_first(), offset - text::width(s[0]));
    }
}

/// An offset behind the text has the position of the end of the text.
pub proof fn law_positions_end_with_the_text(s: Seq<char>, offset: int)
    requires
        offset >= text::byte_len(s),
    ensures
        position_at(s, offset) == position_at(s, text::byte_len(s) as int),
{
    lemma_chars_before_end(s, offset);
    lemma_chars_before_end(s, text::byte_len(s) as int);
}

proof fn lemma_newlines_skip(s: Seq<char>, from: int)
    requires
        0 <= from < s.len(),
    ensures
        newlines(s.skip(from)) == newlines(s.skip(from + 1)) + if s[from] == '\n' {
            1nat
        } else {
            0nat
        },
    decreases s.len(),
{
    let fewer = s.drop_last();
    if from == s.len() - 1 {
        assert(s.skip(from + 1) =~= seq![]);
        assert(s.skip(from).drop_last() =~= seq![]);
        assert(newlines(s.skip(from).drop_last()) == 0);
    } else {
        lemma_newlines_skip(fewer, from);
        assert(s.skip(from).drop_last() =~= fewer.skip(from));
        assert(s.skip(from + 1).drop_last() =~= fewer.skip(from + 1));
    }
}

proof fn lemma_line_start(s: Seq<char>, from: int, line: nat)
    requires
        0 <= from <= s.len(),
    ensures
        line_start(s, '\n', from, line) is Some <==> line <= newlines(s.skip(from)),
    decreases s.len() - from,
{
    if from == s.len() {
        assert(s.skip(from) =~= seq![]);
    } else {
        lemma_newlines_skip(s, from);
        if line > 0 {
            if s[from] == '\n' {
                lemma_line_start(s, from + 1, (line - 1) as nat);
            } else {
                lemma_line_start(s, from + 1, line);
            }
        }
    }
}

proof fn lemma_column_step(s: Seq<char>, a: int, k: int, units: int)
    requires
        on_one_line(s, a, k),
        a < k ==> units > utf16::encoded(s.subrange(a, k - 1)).len(),
    ensures
        column_index(s, a, units) == column_index(
            s,
            k,
            units - utf16::encoded(s.subrange(a, k)).len(),
        ),
    decreases k - a,
{
    if a < k {
        assert(s.subrange(a, k).drop_first() =~= s.subrange(a + 1, k));
        if a + 1 < k {
            assert(s.subrange(a, k - 1).drop_first() =~= s.subrange(a + 1, k - 1));
        }
        lemma_column_step(s, a + 1, k, units - utf16::units_of(s[a]).len());
    } else {
        assert(s.subrange(a, k) =~= seq![]);
    }
}

/// A position is looked up on its line, behind as many characters as it takes
/// for the units that it counts. Behind the end of the line that is the end of
/// the line. There is no such line behind the last one.
pub proof fn law_positions_are_looked_up_on_their_line(
    s: Seq<char>,
    p: Position,
    a: int,
    k: int,
)
    requires
        begins_line(s, a),
        newlines(s.take(a)) == p.line,
        on_one_line(s, a, k),
        k == a || utf16::encoded(s.subrange(a, k - 1)).len() < p.character,
        p.character <= utf16::encoded(s.subrange(a, k)).len() || k == s.len() || s[k] == '\n',
    ensures
        offset_at(s, p) == Some(text::byte_len(s.take(k))),
{
    lemma_end_of_prefix(s, a);
    lemma_last_line(s, a, a);
    lemma_lines_are_newlines(s.take(a));
    lemma_column_step(s, a, k, p.character as int);
}

/// A position has an offset unless it lies behind the last line.
pub proof fn law_positions_on_lines_are_found(s: Seq<char>, p: Position)
    ensures
        offset_at(s, p) is Some <==> p.line <= newlines(s),
{
    lemma_line_start(s, 0, p.line as nat);
    assert(s.skip(0) =~= s);
}

} // verus!
