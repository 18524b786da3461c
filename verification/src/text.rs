//! Texts, their characters and their length in bytes.

use vstd::prelude::*;

verus! {

/// `String::push`: the character comes to stand at the end of the text.
pub assume_specification[ String::push ](s: &mut String, c: char)
    ensures
        final(s)@ == old(s)@.push(c),
;

/// The number of bytes that a character takes in UTF-8.
pub open spec fn width(c: char) -> nat {
    let v = c as u32;
    if v < 0x80 {
        1
    } else if v < 0x800 {
        2
    } else if v < 0x10000 {
        3
    } else {
        4
    }
}

/// The length of a text in bytes.
pub open spec fn byte_len(s: Seq<char>) -> nat
    decreases s.len(),
{
    if s.len() == 0 {
        0
    } else {
        width(s[0]) + byte_len(s.drop_first())
    }
}

/// Whether every offset into a text fits in 32 bits. The syntax tree measures
/// texts in such offsets and takes no longer ones.
pub open spec fn measurable(s: Seq<char>) -> bool {
    byte_len(s) <= u32::MAX
}

/// The number of bytes that a character takes in UTF-8.
pub fn width_of(c: char) -> (n: u32)
    ensures
        n == width(c),
{
    let v: u32 = c as u32;
    proof {
        vstd::utf8::char_is_scalar(c);
    }
    if v < 0x80 {
        1
    } else if v < 0x800 {
        2
    } else if v < 0x10000 {
        3
    } else {
        4
    }
}

/// The characters of a text.
pub fn chars_of(s: &str) -> (r: Vec<char>)
    ensures
        r@ == s@,
{
    let mut out: Vec<char> = Vec::new();
    for c in it: s.chars()
        invariant
            it.seq() == s@,
            out@ == s@.take(it.index() as int),
    {
        assert(s@.take(it.index() + 1) =~= s@.take(it.index() as int).push(c));
        out.push(c);
    }
    assert(s@.take(s@.len() as int) =~= s@);
    out
}

/// The length of a text in bytes.
pub fn byte_count(s: &str) -> (n: usize)
    ensures
        n == byte_len(s@),
{
    proof {
        lemma_byte_len_is_utf8(s@);
    }
    s.as_bytes().len()
}

/// Whether a text is short enough to be measured in 32 bits.
pub fn is_measurable(s: &str) -> (b: bool)
    ensures
        b == measurable(s@),
{
    byte_count(s) as u64 <= 0xffff_ffff
}

/// Whether a text begins with another.
pub fn starts_with(s: &str, prefix: &str) -> (b: bool)
    ensures
        b == prefix@.is_prefix_of(s@),
{
    let a = chars_of(s);
    let p = chars_of(prefix);
    if p.len() > a.len() {
        return false;
    }
    let mut i: usize = 0;
    while i < p.len()
        invariant
            a@ == s@,
            p@ == prefix@,
            i <= p.len() <= a.len(),
            forall|j: int| 0 <= j < i ==> a@[j] == p@[j],
        decreases p.len() - i,
    {
        if a[i] != p[i] {
            assert(s@.subrange(0, p.len() as int)[i as int] != prefix@[i as int]);
            return false;
        }
        i = i + 1;
    }
    assert(s@.subrange(0, p.len() as int) =~= prefix@);
    true
}

/// Whether two texts are the same.
pub fn same(a: &str, b: &str) -> (r: bool)
    ensures
        r == (a@ == b@),
{
    let forth = starts_with(a, b);
    let back = starts_with(b, a);
    proof {
        if forth && back {
            assert(a@.subrange(0, b@.len() as int) =~= a@);
        }
        if a@ == b@ {
            assert(a@.subrange(0, b@.len() as int) =~= a@);
        }
    }
    forth && back
}

/// Lengths in bytes add up.
pub proof fn law_byte_len_concat(a: Seq<char>, b: Seq<char>)
    ensures
        byte_len(a + b) == byte_len(a) + byte_len(b),
    decreases a.len(),
{
    if a.len() == 0 {
        assert(a + b =~= b);
    } else {
        assert((a + b).drop_first() =~= a.drop_first() + b);
        law_byte_len_concat(a.drop_first(), b);
    }
}

/// The length grows from one prefix of a text to the next by the width of the
/// character between them, and no prefix is longer than the text.
pub(crate) proof fn lemma_byte_len_take(s: Seq<char>, k: int)
    requires
        0 <= k <= s.len(),
    ensures
        byte_len(s.take(k)) + byte_len(s.skip(k)) == byte_len(s),
        k < s.len() ==> byte_len(s.take(k + 1)) == byte_len(s.take(k)) + width(s[k]),
        k <= byte_len(s.take(k)),
    decreases k,
{
    assert(s =~= s.take(k) + s.skip(k));
    law_byte_len_concat(s.take(k), s.skip(k));
    if k < s.len() {
        assert(s.take(k + 1) =~= s.take(k) + seq![s[k]]);
        law_byte_len_concat(s.take(k), seq![s[k]]);
        assert(seq![s[k]].drop_first() =~= seq![]);
        assert(byte_len(seq![s[k]]) == width(s[k]) + byte_len(seq![s[k]].drop_first()));
    }
    if k > 0 {
        lemma_byte_len_take(s, k - 1);
    }
}

pub(crate) proof fn lemma_byte_len_is_utf8(s: Seq<char>)
    ensures
        byte_len(s) == vstd::utf8::encode_utf8(s).len(),
    decreases s.len(),
{
    if s.len() > 0 {
        vstd::utf8::char_is_scalar(s[0]);
        lemma_byte_len_is_utf8(s.drop_first());
    }
}

/// Only a newline begins with the byte of a newline.
proof fn lemma_first_byte(c: char)
    ensures
        vstd::utf8::encode_scalar(c as u32).len() == width(c),
        (vstd::utf8::encode_scalar(c as u32)[0] == 10) == (c == '\n'),
{
    let v = c as u32;
    vstd::utf8::char_is_scalar(c);
    vstd::utf8::char_u32_cast(c, v);
    vstd::utf8::char_u32_cast('\n', '\n' as u32);
    assert('\n' as u32 == 10);
    assert(v < 0x80 ==> (v & 0x7f) as u8 == v) by (bit_vector);
    assert((0xc0u8 | ((v >> 6) & 0x1f) as u8) != 10) by (bit_vector);
    assert((0xe0u8 | ((v >> 12) & 0x0f) as u8) != 10) by (bit_vector);
    assert((0xf0u8 | ((v >> 18) & 0x7) as u8) != 10) by (bit_vector);
}

/// The byte behind a prefix of a text is that of a newline if and only if the
/// character behind the prefix is one.
pub(crate) proof fn lemma_byte_at(s: Seq<char>, i: int)
    requires
        0 <= i < s.len(),
    ensures
        byte_len(s.take(i)) < vstd::utf8::encode_utf8(s).len(),
        (vstd::utf8::encode_utf8(s)[byte_len(s.take(i)) as int] == 10) == (s[i] == '\n'),
    decreases i,
{
    let first = vstd::utf8::encode_scalar(s[0] as u32);
    let rest = s.drop_first();
    lemma_first_byte(s[0]);
    assert(vstd::utf8::encode_utf8(s) == first + vstd::utf8::encode_utf8(rest));
    if i == 0 {
        assert(s.take(0) =~= seq![]);
    } else {
        lemma_byte_at(rest, i - 1);
        assert(s.take(i).drop_first() =~= rest.take(i - 1));
    }
}

/// None of the bytes of a character is that of a newline, unless the character
/// is one.
proof fn lemma_no_newline_byte(c: char, j: int)
    requires
        0 <= j < vstd::utf8::encode_scalar(c as u32).len(),
        vstd::utf8::encode_scalar(c as u32)[j] == 10,
    ensures
        c == '\n',
        j == 0,
{
    let v = c as u32;
    lemma_first_byte(c);
    vstd::utf8::char_is_scalar(c);
    assert((0x80u8 | (v & 0x3f) as u8) != 10) by (bit_vector);
    assert((0x80u8 | ((v >> 6) & 0x3f) as u8) != 10) by (bit_vector);
    assert((0x80u8 | ((v >> 12) & 0x3f) as u8) != 10) by (bit_vector);
}

/// The byte of a newline is that of a newline character.
pub(crate) proof fn lemma_newline_byte(s: Seq<char>, j: int) -> (i: int)
    requires
        0 <= j < vstd::utf8::encode_utf8(s).len(),
        vstd::utf8::encode_utf8(s)[j] == 10,
    ensures
        0 <= i < s.len(),
        s[i] == '\n',
        byte_len(s.take(i)) == j,
    decreases s.len(),
{
    let first = vstd::utf8::encode_scalar(s[0] as u32);
    let rest = s.drop_first();
    assert(vstd::utf8::encode_utf8(s) == first + vstd::utf8::encode_utf8(rest));
    if j < first.len() {
        lemma_no_newline_byte(s[0], j);
        assert(s.take(0) =~= seq![]);
        0
    } else {
        lemma_first_byte(s[0]);
        let i = lemma_newline_byte(rest, j - first.len());
        assert(s.take(i + 1).drop_first() =~= rest.take(i));
        i + 1
    }
}

/// The first byte of a character is no later byte of one, and a byte below 128 is
/// a character of its own.
proof fn lemma_scalar_bytes(c: char)
    ensures
        ({
            let b = vstd::utf8::encode_scalar(c as u32);
            &&& b.len() == width(c)
            &&& b[0] < 0x80 || 0xc0 <= b[0]
            &&& forall|j: int| 0 < j < b.len() ==> #[trigger] b[j] >= 0x80
            &&& b[0] < 0x80 ==> b[0] == c as u32
        }),
{
    let v = c as u32;
    lemma_first_byte(c);
    vstd::utf8::char_is_scalar(c);
    assert(v < 0x80 ==> (v & 0x7f) as u8 == v) by (bit_vector);
    assert((0xc0u8 | ((v >> 6) & 0x1f) as u8) >= 0xc0) by (bit_vector);
    assert((0xe0u8 | ((v >> 12) & 0x0f) as u8) >= 0xc0) by (bit_vector);
    assert((0xf0u8 | ((v >> 18) & 0x7) as u8) >= 0xc0) by (bit_vector);
    assert((0x80u8 | (v & 0x3f) as u8) >= 0x80) by (bit_vector);
    assert((0x80u8 | ((v >> 6) & 0x3f) as u8) >= 0x80) by (bit_vector);
    assert((0x80u8 | ((v >> 12) & 0x3f) as u8) >= 0x80) by (bit_vector);
}

/// A byte below 128 is a character, and what follows it begins another one.
pub(crate) proof fn lemma_ascii_byte(s: Seq<char>, j: int) -> (i: int)
    requires
        0 <= j < vstd::utf8::encode_utf8(s).len(),
        vstd::utf8::encode_utf8(s)[j] < 0x80,
    ensures
        0 <= i < s.len(),
        s[i] as u32 == vstd::utf8::encode_utf8(s)[j],
        j + 1 < vstd::utf8::encode_utf8(s).len() ==> !(0x80 <= vstd::utf8::encode_utf8(s)[j + 1]
            < 0xc0),
    decreases s.len(),
{
    let first = vstd::utf8::encode_scalar(s[0] as u32);
    let rest = s.drop_first();
    let more = vstd::utf8::encode_utf8(rest);
    assert(vstd::utf8::encode_utf8(s) == first + more);
    lemma_scalar_bytes(s[0]);
    if j < first.len() {
        assert(j == 0);
        vstd::utf8::char_is_scalar(s[0]);
        assert(first.len() == 1);
        if more.len() > 0 {
            let second = vstd::utf8::encode_scalar(rest[0] as u32);
            lemma_scalar_bytes(rest[0]);
            assert(more == second + vstd::utf8::encode_utf8(rest.drop_first()));
            assert(more[0] == second[0]);
        }
        0
    } else {
        let i = lemma_ascii_byte(rest, j - first.len());
        i + 1
    }
}

/// A text can be measured if and only if its bytes can be counted in 32 bits.
pub proof fn law_texts_are_measured_in_bytes(s: Seq<char>)
    ensures
        measurable(s) <==> vstd::utf8::encode_utf8(s).len() < 0x1_0000_0000,
{
    lemma_byte_len_is_utf8(s);
}

} // verus!
