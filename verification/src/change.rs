//! Changes that an editor reports of an open document.

use vstd::prelude::*;

use crate::position;
use crate::position::{Range, TextRange};
use crate::text;
use crate::utf16;

verus! {

/// A change of a document: new text for a range of it, or for all of it.
#[derive(Debug, PartialEq, Eq)]
pub struct ContentChange {
    pub range: Option<Range>,
    pub text: String,
}

/// The code unit that ends a line.
pub const NEWLINE: u16 = 10;

/// Where a range lies among the UTF-16 units of a text: the column is counted
/// from the beginning of its line. There is no such place if the range runs
/// backwards or if one of its ends lies outside the text.
pub open spec fn located(u: Seq<u16>, r: Range) -> Option<(int, int)> {
    let start_line = position::line_start(u, NEWLINE, 0, r.start.line as nat);
    let end_line = position::line_start(u, NEWLINE, 0, r.end.line as nat);
    if r.end.line < r.start.line || (r.end.line == r.start.line && r.end.character
        < r.start.character) {
        None
    } else if start_line is None || end_line is None {
        None
    } else if start_line->0 + r.start.character > u.len() || end_line->0 + r.end.character
        > u.len() {
        None
    } else {
        Some((start_line->0 + r.start.character, end_line->0 + r.end.character))
    }
}

/// Whether a text has a range.
pub open spec fn has_range(s: Seq<char>, r: Range) -> bool {
    located(utf16::encoded(s), r) is Some
}

/// A text with a new text in place of a range.
pub open spec fn replaced(s: Seq<char>, r: Range, new_text: Seq<char>) -> Seq<char> {
    let u = utf16::encoded(s);
    let (start, end) = located(u, r)->0;
    utf16::decoded(u.take(start)) + new_text + utf16::decoded(u.skip(end))
}

/// Whether a change speaks of a place that the text has.
pub open spec fn change_fits(s: Seq<char>, change: ContentChange) -> bool {
    change.range matches Some(r) ==> has_range(s, r)
}

/// The text after a change.
pub open spec fn changed(s: Seq<char>, change: ContentChange) -> Seq<char> {
    match change.range {
        None => change.text@,
        Some(r) => replaced(s, r, change.text@),
    }
}

/// Whether each change speaks of a place that the text has when its turn comes.
pub open spec fn changes_fit(s: Seq<char>, changes: Seq<ContentChange>) -> bool
    decreases changes.len(),
{
    changes.len() == 0 || (change_fits(s, changes[0]) && changes_fit(
        changed(s, changes[0]),
        changes.drop_first(),
    ))
}

/// The text after a run of changes, each made to what the one before it left.
pub open spec fn changed_by_all(s: Seq<char>, changes: Seq<ContentChange>) -> Seq<char>
    decreases changes.len(),
{
    if changes.len() == 0 {
        s
    } else {
        changed_by_all(changed(s, changes[0]), changes.drop_first())
    }
}

/// Where a line begins among the units of a text.
fn find_line(units: &Vec<u16>, line: u32) -> (r: Option<usize>)
    ensures
        match position::line_start(units@, NEWLINE, 0, line as nat) {
            Some(i) => r == Some(i as usize) && 0 <= i <= units@.len(),
            None => r is None,
        },
{
    let mut i: usize = 0;
    let mut lines: u32 = line;
    while lines > 0
        invariant
            i <= units@.len(),
            position::line_start(units@, NEWLINE, i as int, lines as nat) == position::line_start(
                units@,
                NEWLINE,
                0,
                line as nat,
            ),
        decreases units.len() - i,
    {
        if i == units.len() {
            return None;
        }
        if units[i] == NEWLINE {
            lines = lines - 1;
        }
        i = i + 1;
    }
    Some(i)
}

/// Where a range lies among the UTF-16 units of a text.
pub fn locate(units: &Vec<u16>, range: Range) -> (r: Option<(usize, usize)>)
    ensures
        match located(units@, range) {
            Some((a, b)) => r == Some((a as usize, b as usize)) && 0 <= a <= units@.len() && 0 <= b
                <= units@.len(),
            None => r is None,
        },
{
    if range.end.line < range.start.line {
        return None;
    }
    if range.end.line == range.start.line && range.end.character < range.start.character {
        return None;
    }
    let start_line = match find_line(units, range.start.line) {
        Some(i) => i,
        None => {
            return None;
        },
    };
    let end_line = match find_line(units, range.end.line) {
        Some(i) => i,
        None => {
            return None;
        },
    };
    if units.len() - start_line < range.start.character as usize {
        return None;
    }
    if units.len() - end_line < range.end.character as usize {
        return None;
    }
    Some((start_line + range.start.character as usize, end_line + range.end.character as usize))
}

/// The text after a change.
pub fn apply_change(content: &str, change: &ContentChange) -> (r: String)
    requires
        change_fits(content@, *change),
    ensures
        r@ == changed(content@, *change),
{
    match change.range {
        None => change.text.clone(),
        Some(range) => {
            let units = utf16::encode(content);
            match locate(&units, range) {
                Some((start, end)) => splice(&units, start, &change.text, end),
                None => String::new(),
            }
        },
    }
}

/// The text of the units before `start`, a text, and the text of the units
/// from `end` on.
fn splice(units: &Vec<u16>, start: usize, text: &String, end: usize) -> (r: String)
    requires
        start <= units@.len(),
        end <= units@.len(),
    ensures
        r@ == utf16::decoded(units@.take(start as int)) + text@ + utf16::decoded(
            units@.skip(end as int),
        ),
{
    let mut new_content = utf16::decode(units, 0, start);
    new_content.append(text.as_str());
    let suffix = utf16::decode(units, end, units.len());
    new_content.append(suffix.as_str());
    proof {
        assert(units@.subrange(0, start as int) =~= units@.take(start as int));
        assert(units@.subrange(end as int, units@.len() as int) =~= units@.skip(end as int));
    }
    new_content
}

/// The text after a run of changes, or `None` if one of them speaks of a place
/// that the text has not got when its turn comes.
pub fn try_changes(content: &str, changes: &Vec<ContentChange>) -> (r: Option<String>)
    ensures
        r is Some <==> changes_fit(content@, changes@),
        r matches Some(t) ==> t@ == changed_by_all(content@, changes@),
{
    let mut current: String = content.to_owned();
    let mut i: usize = 0;
    assert(changes@.skip(0) =~= changes@);
    while i < changes.len()
        invariant
            i <= changes@.len(),
            changes_fit(current@, changes@.skip(i as int)) == changes_fit(content@, changes@),
            changed_by_all(current@, changes@.skip(i as int)) == changed_by_all(
                content@,
                changes@,
            ),
        decreases changes.len() - i,
    {
        let change = &changes[i];
        assert(changes@.skip(i as int).drop_first() =~= changes@.skip(i + 1));
        assert(changes@.skip(i as int)[0] == *change);
        if let Some(range) = change.range {
            let units = utf16::encode(current.as_str());
            match locate(&units, range) {
                Some((start, end)) => {
                    current = splice(&units, start, &change.text, end);
                },
                None => {
                    return None;
                },
            }
        } else {
            current = change.text.clone();
        }
        i = i + 1;
    }
    Some(current)
}

/// The text after a run of changes.
pub fn apply_changes(content: &str, changes: &Vec<ContentChange>) -> (r: String)
    requires
        changes_fit(content@, changes@),
    ensures
        r@ == changed_by_all(content@, changes@),
{
    match try_changes(content, changes) {
        Some(t) => t,
        None => String::new(),
    }
}

/// Changes reported together do what they do when they are reported one after
/// another.
pub proof fn law_changes_compose(s: Seq<char>, a: Seq<ContentChange>, b: Seq<ContentChange>)
    ensures
        changes_fit(s, a + b) <==> changes_fit(s, a) && changes_fit(changed_by_all(s, a), b),
        changed_by_all(s, a + b) == changed_by_all(changed_by_all(s, a), b),
    decreases a.len(),
{
    if a.len() == 0 {
        assert(a + b =~= b);
    } else {
        assert((a + b).drop_first() =~= a.drop_first() + b);
        law_changes_compose(changed(s, a[0]), a.drop_first(), b);
    }
}

/// Only the newline is encoded with the unit that ends a line.
proof fn lemma_newline_unit(c: char)
    ensures
        c == '\n' ==> utf16::units_of(c) == seq![NEWLINE],
        c != '\n' ==> utf16::units_of(c)[0] != NEWLINE,
        c != '\n' && utf16::units_of(c).len() == 2 ==> utf16::units_of(c)[1] != NEWLINE,
        1 <= utf16::units_of(c).len() <= 2,
{
    vstd::utf8::char_is_scalar(c);
    vstd::utf8::char_u32_cast(c, c as u32);
    vstd::utf8::char_u32_cast('\n', '\n' as u32);
    assert('\n' as u32 == 10);
}

/// The lines of a text begin among its units where they begin among its
/// characters.
proof fn lemma_unit_lines(s: Seq<char>, i: int, line: nat)
    requires
        0 <= i <= s.len(),
        position::line_start(s, '\n', i, line) is Some,
    ensures
        ({
            let a = position::line_start(s, '\n', i, line)->0;
            &&& i <= a <= s.len()
            &&& position::line_start(
                utf16::encoded(s),
                NEWLINE,
                utf16::encoded(s.take(i)).len() as int,
                line,
            ) == Some(utf16::encoded(s.take(a)).len() as int)
        }),
    decreases s.len() - i,
{
    if line > 0 {
        let u = utf16::encoded(s);
        let e = utf16::encoded(s.take(i)).len() as int;
        let c = s[i];
        let n = utf16::units_of(c).len() as int;
        lemma_newline_unit(c);
        assert(s =~= s.take(i) + s.skip(i));
        assert(s.skip(i).drop_first() =~= s.skip(i + 1));
        utf16::law_encoded_concat(s.take(i), s.skip(i));
        assert(forall|j: int| 0 <= j < n ==> u[e + j] == utf16::units_of(c)[j]);
        assert(s.take(i + 1) =~= s.take(i).push(c));
        utf16::lemma_encoded_push(s.take(i), c);
        assert(u[e + 0] == utf16::units_of(c)[0]);
        if c == '\n' {
            lemma_unit_lines(s, i + 1, (line - 1) as nat);
        } else {
            lemma_unit_lines(s, i + 1, line);
            if n == 2 {
                assert(u[e + 1] == utf16::units_of(c)[1]);
                assert(position::line_start(u, NEWLINE, e, line) == position::line_start(
                    u,
                    NEWLINE,
                    e + 1,
                    line,
                ));
            }
        }
    }
}

/// The position behind a prefix lies behind the units of that prefix.
proof fn lemma_position_unit(s: Seq<char>, k: int)
    requires
        text::measurable(s),
        0 <= k <= s.len(),
    ensures
        ({
            let p = position::position_at(s, text::byte_len(s.take(k)) as int);
            let line = position::line_start(utf16::encoded(s), NEWLINE, 0, p.line as nat);
            &&& line is Some
            &&& line->0 + p.character == utf16::encoded(s.take(k)).len()
            &&& (p.line as nat, p.character as nat) == position::end_of(s.take(k))
        }),
{
    position::lemma_chars_before_prefix(s, k);
    position::lemma_end_of_prefix(s, k);
    position::lemma_end_of_bound(s.take(k));
    text::lemma_byte_len_take(s, k);
    let a = position::last_line(s.take(k));
    lemma_unit_lines(s, 0, position::end_of(s.take(k)).0);
    assert(s.take(0) =~= seq![]);
    assert(s.take(k) =~= s.take(a) + s.subrange(a, k));
    utf16::law_encoded_concat(s.take(a), s.subrange(a, k));
}

/// To replace the range that this library reports for a stretch of whole
/// characters is to replace exactly these characters.
pub proof fn law_reported_range_is_replaced(s: Seq<char>, i: int, j: int, new_text: Seq<char>)
    requires
        text::measurable(s),
        0 <= i <= j <= s.len(),
    ensures
        ({
            let r = position::range_at(
                s,
                TextRange {
                    start: text::byte_len(s.take(i)) as u32,
                    end: text::byte_len(s.take(j)) as u32,
                },
            );
            &&& has_range(s, r)
            &&& replaced(s, r, new_text) == s.take(i) + new_text + s.skip(j)
        }),
{
    let u = utf16::encoded(s);
    text::lemma_byte_len_take(s, i);
    text::lemma_byte_len_take(s, j);
    lemma_position_unit(s, i);
    lemma_position_unit(s, j);
    position::lemma_end_of_monotonic(s, i, j);
    assert(s =~= s.take(i) + s.skip(i));
    utf16::law_encoded_concat(s.take(i), s.skip(i));
    assert(s =~= s.take(j) + s.skip(j));
    utf16::law_encoded_concat(s.take(j), s.skip(j));
    assert(u.take(utf16::encoded(s.take(i)).len() as int) =~= utf16::encoded(s.take(i)));
    assert(u.skip(utf16::encoded(s.take(j)).len() as int) =~= utf16::encoded(s.skip(j)));
    utf16::law_round_trip(s.take(i));
    utf16::law_round_trip(s.skip(j));
}

/// How often a unit occurs.
pub open spec fn times(u: Seq<u16>, unit: u16) -> nat
    decreases u.len(),
{
    if u.len() == 0 {
        0
    } else {
        times(u.drop_first(), unit) + if u[0] == unit {
            1nat
        } else {
            0nat
        }
    }
}

/// Whether a line begins at an index among units, the one of a number.
pub open spec fn begins_line(u: Seq<u16>, a: int, line: nat) -> bool {
    0 <= a <= u.len() && (a == 0 || u[a - 1] == NEWLINE) && times(u.take(a), NEWLINE) == line
}

proof fn lemma_times_last(u: Seq<u16>, unit: u16)
    requires
        u.len() > 0,
        u.last() == unit,
    ensures
        times(u, unit) > 0,
    decreases u.len(),
{
    if u.len() > 1 {
        lemma_times_last(u.drop_first(), unit);
    }
}

proof fn lemma_line_begins(u: Seq<u16>, from: int, a: int)
    requires
        0 <= from <= a <= u.len(),
        a == from || u[a - 1] == NEWLINE,
    ensures
        position::line_start(u, NEWLINE, from, times(u.subrange(from, a), NEWLINE)) == Some(a),
    decreases a - from,
{
    let part = u.subrange(from, a);
    if from < a {
        assert(part.drop_first() =~= u.subrange(from + 1, a));
        assert(part.last() == u[a - 1]);
        lemma_times_last(part, NEWLINE);
        lemma_line_begins(u, from + 1, a);
    }
}

/// A range lies from its first line, behind the units that its first column
/// counts, to its last line, behind those that its last column counts. The text
/// has no such range if one of them lies behind the end of the text, or if the
/// range runs backwards.
pub proof fn law_ranges_count_lines_and_units(u: Seq<u16>, r: Range, a: int, b: int)
    requires
        begins_line(u, a, r.start.line as nat),
        begins_line(u, b, r.end.line as nat),
    ensures
        located(u, r) == if position::precedes(r.start, r.end) && a + r.start.character <= u.len()
            && b + r.end.character <= u.len() {
            Some((a + r.start.character, b + r.end.character))
        } else {
            None
        },
{
    assert(u.subrange(0, a) =~= u.take(a));
    assert(u.subrange(0, b) =~= u.take(b));
    lemma_line_begins(u, 0, a);
    lemma_line_begins(u, 0, b);
}

/// A range of units is replaced by a text: what stands before it and what stands
/// behind it is kept, as far as it is whole characters.
pub proof fn law_replacing_keeps_the_rest(s: Seq<char>, r: Range, new_text: Seq<char>, a: int, b: int)
    requires
        located(utf16::encoded(s), r) == Some((a, b)),
        0 <= a <= utf16::encoded(s).len(),
        0 <= b <= utf16::encoded(s).len(),
    ensures
        replaced(s, r, new_text) == utf16::decoded(utf16::encoded(s).subrange(0, a)) + new_text
            + utf16::decoded(
            utf16::encoded(s).subrange(b, utf16::encoded(s).len() as int),
        ),
{
    let u = utf16::encoded(s);
    assert(u.subrange(0, a) =~= u.take(a));
    assert(u.subrange(b, u.len() as int) =~= u.skip(b));
}

} // verus!
