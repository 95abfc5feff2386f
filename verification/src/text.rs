//! The mathematical model of buffer text: a sequence of Unicode scalar
//! values, addressed by byte offset (in UTF-8) or by character index.

use vstd::prelude::*;
use vstd::utf8::*;

verus! {

/// The number of bytes in the UTF-8 encoding of `c`.
pub open spec fn char_width(c: char) -> nat {
    let v = c as u32;
    if v <= 0x7F {
        1
    } else if v <= 0x7FF {
        2
    } else if v <= 0xFFFF {
        3
    } else {
        4
    }
}

/// The number of bytes in the UTF-8 encoding of `s`.
pub open spec fn byte_len(s: Seq<char>) -> nat
    decreases s.len(),
{
    if s.len() == 0 {
        0
    } else {
        byte_len(s.drop_last()) + char_width(s.last())
    }
}

/// The byte offset at which the character with index `i` starts; for
/// `i == s.len()` the length of the whole text in bytes.
pub open spec fn byte_of_char(s: Seq<char>, i: int) -> nat {
    byte_len(s.take(i))
}

/// The index of the character that the byte at offset `b` belongs to; the
/// number of characters when `b` is at or past the end of the text.
pub open spec fn char_of_byte(s: Seq<char>, b: int) -> nat
    decreases s.len(),
{
    if s.len() == 0 || b < char_width(s[0]) {
        0
    } else {
        1 + char_of_byte(s.drop_first(), b - char_width(s[0]))
    }
}

/// The index of the character at byte offset `offset`, where an offset past
/// the end of the text counts as the end.
pub open spec fn char_at(s: Seq<char>, offset: int) -> nat {
    char_of_byte(
        s,
        if offset <= byte_len(s) {
            offset
        } else {
            byte_len(s) as int
        },
    )
}

/// `s` without the characters in `[from, to)`.
pub open spec fn remove_chars(s: Seq<char>, from: int, to: int) -> Seq<char> {
    s.subrange(0, from) + s.subrange(to, s.len() as int)
}

/// `s` with `ins` placed before the character with index `at`.
pub open spec fn insert_chars(s: Seq<char>, at: int, ins: Seq<char>) -> Seq<char> {
    s.subrange(0, at) + ins + s.subrange(at, s.len() as int)
}

/// Every character is encoded in one to four bytes.
pub proof fn lemma_char_width_bounds(c: char)
    ensures
        1 <= char_width(c) <= 4,
        char_width(c) == encode_scalar(c as u32).len(),
{
    char_is_scalar(c);
}

/// The byte length of a concatenation is the sum of the byte lengths.
pub proof fn lemma_byte_len_concat(a: Seq<char>, b: Seq<char>)
    ensures
        byte_len(a + b) == byte_len(a) + byte_len(b),
    decreases b.len(),
{
    if b.len() == 0 {
        assert(a + b =~= a);
    } else {
        assert((a + b).drop_last() =~= a + b.drop_last());
        assert((a + b).last() == b.last());
        lemma_byte_len_concat(a, b.drop_last());
    }
}

/// `byte_len` is the length of the UTF-8 encoding.
pub proof fn lemma_byte_len_is_encoding_len(s: Seq<char>)
    ensures
        byte_len(s) == encode_utf8(s).len(),
    decreases s.len(),
{
    if s.len() == 0 {
    } else {
        let first = seq![s[0]];
        let rest = s.drop_first();
        assert(s =~= first + rest);
        lemma_byte_len_concat(first, rest);
        lemma_byte_len_is_encoding_len(rest);
        lemma_char_width_bounds(s[0]);
        assert(first.drop_last() =~= Seq::<char>::empty());
        assert(byte_len(first) == char_width(s[0])) by {
            reveal_with_fuel(byte_len, 2);
        }
    }
}

/// A byte offset never maps beyond the number of characters.
pub proof fn lemma_char_of_byte_bounds(s: Seq<char>, b: int)
    ensures
        char_of_byte(s, b) <= s.len(),
    decreases s.len(),
{
    if s.len() == 0 || b < char_width(s[0]) {
    } else {
        lemma_char_of_byte_bounds(s.drop_first(), b - char_width(s[0]));
    }
}

/// A later byte offset never maps to an earlier character.
pub proof fn lemma_char_of_byte_monotone(s: Seq<char>, a: int, b: int)
    requires
        a <= b,
    ensures
        char_of_byte(s, a) <= char_of_byte(s, b),
    decreases s.len(),
{
    if s.len() == 0 || a < char_width(s[0]) {
    } else {
        lemma_char_of_byte_monotone(s.drop_first(), a - char_width(s[0]), b - char_width(s[0]));
    }
}

/// The same holds of offsets that are first limited to the text.
pub proof fn lemma_char_at_ordered(s: Seq<char>, a: int, b: int)
    requires
        a <= b,
    ensures
        char_at(s, a) <= char_at(s, b) <= s.len(),
{
    let n = byte_len(s) as int;
    let ca = if a <= n { a } else { n };
    let cb = if b <= n { b } else { n };
    lemma_char_of_byte_monotone(s, ca, cb);
    lemma_char_of_byte_bounds(s, cb);
}

/// The byte length of a text is the width of its first character plus the
/// byte length of the rest.
pub proof fn lemma_byte_len_first(s: Seq<char>)
    requires
        s.len() > 0,
    ensures
        byte_len(s) == char_width(s[0]) + byte_len(s.drop_first()),
{
    let first = seq![s[0]];
    assert(s =~= first + s.drop_first());
    lemma_byte_len_concat(first, s.drop_first());
    assert(first.drop_last() =~= Seq::<char>::empty());
    assert(byte_len(first) == char_width(s[0])) by {
        reveal_with_fuel(byte_len, 2);
    }
}

/// The offset 0 belongs to the first character, and the offset at the end
/// of the text maps to the number of characters.
pub proof fn lemma_char_of_byte_ends(s: Seq<char>)
    ensures
        char_of_byte(s, 0) == 0,
        char_of_byte(s, byte_len(s) as int) == s.len(),
    decreases s.len(),
{
    if s.len() > 0 {
        lemma_byte_len_first(s);
        lemma_char_of_byte_ends(s.drop_first());
    }
}

/// A byte offset at or behind the start of the character with index `k`
/// maps to that character or a later one.
pub proof fn lemma_char_of_byte_at_least(s: Seq<char>, k: int, b: int)
    requires
        0 <= k <= s.len(),
        byte_of_char(s, k) <= b,
    ensures
        k <= char_of_byte(s, b),
    decreases k,
{
    if k > 0 {
        let rest = s.drop_first();
        lemma_byte_len_first(s.take(k));
        assert(s.take(k).drop_first() =~= rest.take(k - 1));
        lemma_char_of_byte_at_least(rest, k - 1, b - char_width(s[0]));
    }
}

/// A prefix of a text is no longer in bytes than the text.
pub proof fn lemma_byte_of_char_bounds(s: Seq<char>, k: int)
    requires
        0 <= k <= s.len(),
    ensures
        byte_of_char(s, k) <= byte_len(s),
{
    assert(s.take(k) + s.skip(k) =~= s);
    lemma_byte_len_concat(s.take(k), s.skip(k));
}

/// The character that a byte offset maps to starts at or before that
/// offset.
pub proof fn lemma_char_of_byte_floor(s: Seq<char>, b: int)
    requires
        0 <= b,
    ensures
        byte_of_char(s, char_of_byte(s, b) as int) <= b,
    decreases s.len(),
{
    if s.len() == 0 || b < char_width(s[0]) {
        assert(s.take(0) =~= Seq::<char>::empty());
    } else {
        let rest = s.drop_first();
        let c = char_of_byte(rest, b - char_width(s[0])) as int;
        lemma_char_of_byte_floor(rest, b - char_width(s[0]));
        lemma_char_of_byte_bounds(rest, b - char_width(s[0]));
        lemma_byte_len_first(s.take(c + 1));
        assert(s.take(c + 1).drop_first() =~= rest.take(c));
    }
}

} // verus!
