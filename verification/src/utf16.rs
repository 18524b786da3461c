//! UTF-16, the encoding in which the protocol counts characters.

use vstd::prelude::*;

verus! {

/// Whether a code unit opens a surrogate pair.
pub open spec fn is_high(u: u16) -> bool {
    0xd800 <= u < 0xdc00
}

/// Whether a code unit closes a surrogate pair.
pub open spec fn is_low(u: u16) -> bool {
    0xdc00 <= u < 0xe000
}

/// The code units of one character.
pub open spec fn units_of(c: char) -> Seq<u16> {
    let v = c as u32;
    if v < 0x10000 {
        seq![v as u16]
    } else {
        seq![(0xd800 + (v - 0x10000) / 0x400) as u16, (0xdc00 + (v - 0x10000) % 0x400) as u16]
    }
}

/// The character that a surrogate pair stands for.
pub open spec fn pair_char(high: u16, low: u16) -> char {
    (0x10000 + (high - 0xd800) * 0x400 + (low - 0xdc00)) as u32 as char
}

/// The code units of a text.
pub open spec fn encoded(s: Seq<char>) -> Seq<u16>
    decreases s.len(),
{
    if s.len() == 0 {
        seq![]
    } else {
        units_of(s[0]) + encoded(s.drop_first())
    }
}

/// The text that a run of code units stands for. A surrogate without its
/// partner stands for U+FFFD.
pub open spec fn decoded(u: Seq<u16>) -> Seq<char>
    decreases u.len(),
{
    if u.len() == 0 {
        seq![]
    } else if is_high(u[0]) && u.len() >= 2 && is_low(u[1]) {
        seq![pair_char(u[0], u[1])] + decoded(u.skip(2))
    } else if is_high(u[0]) || is_low(u[0]) {
        seq!['\u{fffd}'] + decoded(u.skip(1))
    } else {
        seq![u[0] as u32 as char] + decoded(u.skip(1))
    }
}

/// `char::from_u32`: the character with the given scalar value. There is one
/// unless the value is a surrogate or lies beyond U+10FFFF.
pub assume_specification[ char::from_u32 ](v: u32) -> (r: Option<char>)
    ensures
        r is Some <==> (v < 0xd800 || 0xe000 <= v <= 0x10ffff),
        r matches Some(c) ==> c as u32 == v,
;

/// The number of code units that a character takes.
pub fn unit_count(c: char) -> (n: u32)
    ensures
        n == units_of(c).len(),
{
    proof {
        vstd::utf8::char_is_scalar(c);
    }
    if (c as u32) < 0x10000 {
        1
    } else {
        2
    }
}

/// Encodes a text.
pub fn encode(s: &str) -> (r: Vec<u16>)
    ensures
        r@ == encoded(s@),
{
    let mut out: Vec<u16> = Vec::new();
    assert(s@.skip(0) =~= s@);
    for c in it: s.chars()
        invariant
            it.seq() == s@,
            out@ + encoded(s@.skip(it.index() as int)) == encoded(s@),
    {
        let v: u32 = c as u32;
        let ghost before = out@;
        proof {
            vstd::utf8::char_is_scalar(c);
            let rest = s@.skip(it.index() as int);
            assert(rest[0] == c);
            assert(rest.drop_first() =~= s@.skip(it.index() + 1));
        }
        if v < 0x10000 {
            out.push(v as u16);
        } else {
            out.push((0xd800 + (v - 0x10000) / 0x400) as u16);
            out.push((0xdc00 + (v - 0x10000) % 0x400) as u16);
        }
        assert(out@ =~= before + units_of(c));
        assert(before + units_of(c) + encoded(s@.skip(it.index() + 1)) =~= before + (units_of(c)
            + encoded(s@.skip(it.index() + 1))));
    }
    assert(s@.skip(s@.len() as int) =~= seq![]);
    out
}

/// Decodes a run of code units, with U+FFFD for each lone surrogate.
pub fn decode(u: &Vec<u16>, from: usize, to: usize) -> (r: String)
    requires
        from <= to <= u@.len(),
    ensures
        r@ == decoded(u@.subrange(from as int, to as int)),
{
    let mut out = String::new();
    let mut i: usize = from;
    while i < to
        invariant
            from <= i <= to <= u@.len(),
            out@ + decoded(u@.subrange(i as int, to as int)) == decoded(
                u@.subrange(from as int, to as int),
            ),
        decreases to - i,
    {
        let ghost rest = u@.subrange(i as int, to as int);
        let ghost before = out@;
        let a: u16 = u[i];
        if 0xd800 <= a && a < 0xdc00 && to - i >= 2 && 0xdc00 <= u[i + 1] && u[i + 1] < 0xe000 {
            let v: u32 = 0x10000 + (a as u32 - 0xd800) * 0x400 + (u[i + 1] as u32 - 0xdc00);
            if let Some(c) = char::from_u32(v) {
                proof {
                    vstd::utf8::char_u32_cast(c, v);
                }
                out.push(c);
            }
            assert(rest.skip(2) =~= u@.subrange(i + 2, to as int));
            assert(out@ =~= before + seq![pair_char(rest[0], rest[1])]);
            i = i + 2;
        } else {
            if 0xd800 <= a && a < 0xe000 {
                out.push('\u{fffd}');
            } else if let Some(c) = char::from_u32(a as u32) {
                proof {
                    vstd::utf8::char_u32_cast(c, a as u32);
                }
                out.push(c);
            }
            assert(rest.skip(1) =~= u@.subrange(i + 1, to as int));
            assert(out@ =~= before + decoded(rest).take(1));
            i = i + 1;
        }
        assert(out@ + decoded(u@.subrange(i as int, to as int)) =~= before + decoded(rest));
    }
    assert(u@.subrange(to as int, to as int) =~= seq![]);
    out
}

/// The units of two texts in a row are the units of the first and then those
/// of the second.
pub proof fn law_encoded_concat(a: Seq<char>, b: Seq<char>)
    ensures
        encoded(a + b) == encoded(a) + encoded(b),
    decreases a.len(),
{
    if a.len() == 0 {
        assert(a + b =~= b);
    } else {
        assert((a + b).drop_first() =~= a.drop_first() + b);
        law_encoded_concat(a.drop_first(), b);
        assert(units_of(a[0]) + (encoded(a.drop_first()) + encoded(b)) =~= (units_of(a[0])
            + encoded(a.drop_first())) + encoded(b));
    }
}

/// One character more, at the end of a text.
pub(crate) proof fn lemma_encoded_push(s: Seq<char>, c: char)
    ensures
        encoded(s.push(c)) == encoded(s) + units_of(c),
{
    assert(s.push(c) =~= s + seq![c]);
    law_encoded_concat(s, seq![c]);
    assert(seq![c].drop_first() =~= seq![]);
    assert(encoded(seq![c]) =~= units_of(c) + encoded(seq![c].drop_first()));
}

/// Whole characters decode to themselves, whatever units follow them.
pub proof fn law_decode_prefix(s: Seq<char>, rest: Seq<u16>)
    ensures
        decoded(encoded(s) + rest) == s + decoded(rest),
    decreases s.len(),
{
    if s.len() == 0 {
        assert(encoded(s) + rest =~= rest);
        assert(s + decoded(rest) =~= decoded(rest));
    } else {
        let c = s[0];
        let tail = encoded(s.drop_first()) + rest;
        let all = encoded(s) + rest;
        let v = c as u32;
        vstd::utf8::char_is_scalar(c);
        assert(all =~= units_of(c) + tail);
        law_decode_prefix(s.drop_first(), rest);
        if v < 0x10000 {
            vstd::utf8::char_u32_cast(c, v);
            assert(all.skip(1) =~= tail);
            assert(decoded(all) =~= seq![c] + decoded(tail));
        } else {
            let w = v - 0x10000;
            assert(w == (w / 0x400) * 0x400 + w % 0x400);
            vstd::utf8::char_u32_cast(c, v);
            assert(pair_char(all[0], all[1]) == c);
            assert(all.skip(2) =~= tail);
            assert(decoded(all) =~= seq![c] + decoded(tail));
        }
        assert(seq![c] + (s.drop_first() + decoded(rest)) =~= s + decoded(rest));
    }
}

/// A text survives the way to UTF-16 and back.
pub proof fn law_round_trip(s: Seq<char>)
    ensures
        decoded(encoded(s)) == s,
{
    law_decode_prefix(s, seq![]);
    assert(encoded(s) + seq![] =~= encoded(s));
    assert(s + decoded(seq![]) =~= s);
}

/// A character of the first plane is its own unit. Any other one takes two, an
/// opening and a closing one, which hold ten bits each of what it lies beyond
/// that plane.
pub proof fn law_units_of_characters(c: char)
    ensures
        (c as u32) <= 0xffff ==> units_of(c).len() == 1 && units_of(c)[0] == c as u32,
        (c as u32) > 0xffff ==> units_of(c).len() == 2 && 0xd800 <= units_of(c)[0] <= 0xdbff
            && 0xdc00 <= units_of(c)[1] <= 0xdfff && c as u32 - 0x10000 == (units_of(c)[0] - 0xd800)
            * 0x400 + (units_of(c)[1] - 0xdc00),
{
}

/// A surrogate without its partner is read as U+FFFD, and what stands around it
/// as it is.
pub proof fn law_lone_surrogates_are_replaced(before: Seq<char>, u: u16, after: Seq<char>)
    requires
        0xd800 <= u <= 0xdfff,
    ensures
        decoded(encoded(before) + seq![u] + encoded(after)) == before + seq!['\u{fffd}'] + after,
{
    let rest = seq![u] + encoded(after);
    law_decode_prefix(before, rest);
    assert(encoded(before) + seq![u] + encoded(after) =~= encoded(before) + rest);
    if after.len() > 0 {
        law_units_of_characters(after[0]);
        assert(encoded(after)[0] == units_of(after[0])[0]);
        assert(rest[1] == encoded(after)[0]);
    }
    assert(rest.skip(1) =~= encoded(after));
    law_round_trip(after);
    assert(decoded(rest) =~= seq!['\u{fffd}'] + after);
    assert(before + (seq!['\u{fffd}'] + after) =~= before + seq!['\u{fffd}'] + after);
}

} // verus!
