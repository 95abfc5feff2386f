//! The rope that stores a document's text, and what is taken on trust
//! about it. Nothing in this file is proved: each contract restates the
//! documentation of the `ropey` crate over the text model of this library.

use ropey::Rope;
use vstd::prelude::*;

use crate::text::{byte_len, byte_of_char, char_of_byte, insert_chars, remove_chars};

verus! {

/// `ropey::Rope`, of which verified code sees nothing but `rope_text`.
#[verifier::external_type_specification]
#[verifier::external_body]
pub struct ExRope(Rope);

/// The text that a rope holds, as a sequence of characters.
pub uninterp spec fn rope_text(rope: Rope) -> Seq<char>;

/// The number of lines that `Rope::len_lines` counts in a text: one more
/// than the number of line breaks that the rope recognises.
pub uninterp spec fn line_count_of(text: Seq<char>) -> nat;

/// The line with the given index as `Rope::line` returns it, its line
/// break included.
pub uninterp spec fn line_of(text: Seq<char>, idx: nat) -> Seq<char>;

/// `Rope::new` creates an empty rope.
pub assume_specification[ Rope::new ]() -> (rope: Rope)
    ensures
        rope_text(rope) == Seq::<char>::empty(),
;

/// `Rope::from_str` creates a rope that holds exactly the given text.
pub assume_specification[ Rope::from_str ](text: &str) -> (rope: Rope)
    ensures
        rope_text(rope) == text@,
;

/// `Rope::len_bytes` is the total number of bytes of the text.
pub assume_specification[ Rope::len_bytes ](rope: &Rope) -> (n: usize)
    ensures
        n == byte_len(rope_text(*rope)),
;

/// `Rope::len_chars` is the total number of characters of the text.
pub assume_specification[ Rope::len_chars ](rope: &Rope) -> (n: usize)
    ensures
        n == rope_text(*rope).len(),
;

/// `Rope::byte_to_char` returns the index of the character that the byte
/// belongs to, and the number of characters for the offset one past the
/// end. It panics on an offset beyond that.
pub assume_specification[ Rope::byte_to_char ](rope: &Rope, byte_idx: usize) -> (c: usize)
    requires
        byte_idx <= byte_len(rope_text(*rope)),
    ensures
        c == char_of_byte(rope_text(*rope), byte_idx as int),
;

/// `Rope::char_to_byte` returns the byte offset at which the character
/// starts, and the length in bytes for the index one past the end. It
/// panics on an index beyond that.
pub assume_specification[ Rope::char_to_byte ](rope: &Rope, char_idx: usize) -> (b: usize)
    requires
        char_idx <= rope_text(*rope).len(),
    ensures
        b == byte_of_char(rope_text(*rope), char_idx as int),
;

/// `Rope::insert` places `text` before the character with index
/// `char_idx`. It panics on an index beyond the number of characters.
pub assume_specification[ Rope::insert ](rope: &mut Rope, char_idx: usize, text: &str)
    requires
        char_idx <= rope_text(*old(rope)).len(),
    ensures
        rope_text(*final(rope)) == insert_chars(rope_text(*old(rope)), char_idx as int, text@),
;

/// `Rope::remove` takes out the characters of a range of character
/// indices. It panics when the range is reversed or ends beyond the text.
#[verifier::external_body]
pub(crate) fn rope_remove(rope: &mut Rope, from: usize, to: usize)
    requires
        from <= to <= rope_text(*old(rope)).len(),
    ensures
        rope_text(*final(rope)) == remove_chars(rope_text(*old(rope)), from as int, to as int),
{
    rope.remove(from..to);
}

/// `String::from(&Rope)` collects the whole text.
#[verifier::external_body]
pub(crate) fn rope_to_string(rope: &Rope) -> (s: String)
    ensures
        s@ == rope_text(*rope),
{
    String::from(rope)
}

/// `Rope::slice` views the characters of a range of character indices; the
/// wrapper copies them out. `slice` panics when the range is reversed or
/// ends beyond the text.
#[verifier::external_body]
pub(crate) fn rope_slice_to_string(rope: &Rope, from: usize, to: usize) -> (s: String)
    requires
        from <= to <= rope_text(*rope).len(),
    ensures
        s@ == rope_text(*rope).subrange(from as int, to as int),
{
    String::from(rope.slice(from..to))
}

/// `Rope::len_lines` is the total number of lines of the text.
pub assume_specification[ Rope::len_lines ](rope: &Rope) -> (n: usize)
    ensures
        n == line_count_of(rope_text(*rope)),
;

/// `Rope::line` views the line with the given index; the wrapper copies it
/// out. `line` panics on an index that is not below the number of lines.
#[verifier::external_body]
pub(crate) fn rope_line_to_string(rope: &Rope, idx: usize) -> (s: String)
    requires
        idx < line_count_of(rope_text(*rope)),
    ensures
        s@ == line_of(rope_text(*rope), idx as nat),
{
    String::from(rope.line(idx))
}

} // verus!
