//! What the edits of a document do, stated over the text model: every edit
//! handles the selections from the highest to the lowest, so that an edit
//! never moves text that a selection still to be handled refers to.

use vstd::prelude::*;

use crate::search::next_occurrence;
use crate::selection::Selection;
use crate::selection_set::normalized;
use crate::text::{byte_of_char, char_at, insert_chars, remove_chars};

verus! {

/// `text` without the characters that `sel` covers.
pub open spec fn delete_selection(text: Seq<char>, sel: Selection) -> Seq<char> {
    remove_chars(
        text,
        char_at(text, sel.spec_start()) as int,
        char_at(text, sel.spec_end()) as int,
    )
}

/// `text` with the characters that `sel` covers replaced by `ins`.
pub open spec fn replace_selection(text: Seq<char>, sel: Selection, ins: Seq<char>) -> Seq<
    char,
> {
    let cut = delete_selection(text, sel);
    insert_chars(cut, char_at(cut, sel.spec_start()) as int, ins)
}

/// `text` after each selection of `sels`, from the last to the first, was
/// replaced by `ins`.
pub open spec fn insert_at_each(text: Seq<char>, sels: Seq<Selection>, ins: Seq<char>) -> Seq<
    char,
>
    decreases sels.len(),
{
    if sels.len() == 0 {
        text
    } else {
        insert_at_each(replace_selection(text, sels.last(), ins), sels.drop_last(), ins)
    }
}

/// The cursors that an insertion of `added` bytes leaves: each selection
/// becomes a cursor `added` bytes behind its start, or at `len`, the end
/// of the new text, where that would lie beyond it.
pub open spec fn cursors_after_insert(sels: Seq<Selection>, added: int, len: int) -> Seq<
    Selection,
> {
    Seq::new(
        sels.len(),
        |i: int|
            Selection::spec_cursor(
                (if sels[i].spec_start() + added <= len {
                    sels[i].spec_start() + added
                } else {
                    len
                }) as usize,
            ),
    )
}

/// `text` after a backspace at `sel`: a selection that covers text loses
/// that text; a cursor loses the one character before it, if there is one.
pub open spec fn backspace_text(text: Seq<char>, sel: Selection) -> Seq<char> {
    if sel.spec_is_cursor() {
        let c = char_at(text, sel.head as int) as int;
        if sel.head > 0 && c > 0 {
            remove_chars(text, c - 1, c)
        } else {
            text
        }
    } else {
        delete_selection(text, sel)
    }
}

/// Where a backspace in `text` leaves the cursor of `sel`: at the start of
/// a selection that covered text, and for a cursor where the character
/// that was removed began.
pub open spec fn backspace_cursor(text: Seq<char>, sel: Selection) -> Selection {
    if sel.spec_is_cursor() {
        let c = char_at(text, sel.head as int) as int;
        if sel.head > 0 && c > 0 {
            Selection::spec_cursor(byte_of_char(text, c - 1) as usize)
        } else {
            sel
        }
    } else {
        Selection::spec_cursor(sel.spec_start() as usize)
    }
}

/// The text and the cursors after a backspace at each selection of `sels`,
/// from the last to the first.
pub open spec fn backspace_each(text: Seq<char>, sels: Seq<Selection>) -> (
    Seq<char>,
    Seq<Selection>,
)
    decreases sels.len(),
{
    if sels.len() == 0 {
        (text, sels)
    } else {
        let below = backspace_each(backspace_text(text, sels.last()), sels.drop_last());
        (below.0, below.1.push(backspace_cursor(text, sels.last())))
    }
}

/// `text` after a forward delete at `sel`: a selection that covers text
/// loses that text; a cursor loses the one character behind it, if there is
/// one.
pub open spec fn delete_forward_text(text: Seq<char>, sel: Selection) -> Seq<char> {
    if sel.spec_is_cursor() {
        let c = char_at(text, sel.head as int) as int;
        if c < text.len() {
            remove_chars(text, c, c + 1)
        } else {
            text
        }
    } else {
        delete_selection(text, sel)
    }
}

/// `text` after a forward delete at each selection of `sels`, from the
/// last to the first.
pub open spec fn delete_forward_each(text: Seq<char>, sels: Seq<Selection>) -> Seq<char>
    decreases sels.len(),
{
    if sels.len() == 0 {
        text
    } else {
        delete_forward_each(delete_forward_text(text, sels.last()), sels.drop_last())
    }
}

/// Each selection of `sels` as a cursor at its start.
pub open spec fn collapsed_to_start(sels: Seq<Selection>) -> Seq<Selection> {
    Seq::new(sels.len(), |i: int| Selection::spec_cursor(sels[i].spec_start() as usize))
}

/// Each selection of `sels` moved by `delta`, with `max` as the highest
/// offset.
pub open spec fn moved_all(sels: Seq<Selection>, delta: int, max: int, extend: bool) -> Seq<
    Selection,
> {
    Seq::new(sels.len(), |i: int| sels[i].moved_by(delta, max, extend))
}

/// True when `sels` holds a cursor at offset `pos`.
pub open spec fn has_cursor_at(sels: Seq<Selection>, pos: int) -> bool {
    exists|i: int| 0 <= i < sels.len() && sels[i].spec_is_cursor() && #[trigger] sels[i].head == pos
}

/// The text that the first selection covers; `None` when it is a cursor or
/// there is no selection.
pub open spec fn selected_text_of(text: Seq<char>, sels: Seq<Selection>) -> Option<Seq<char>> {
    if sels.len() == 0 || sels[0].spec_is_cursor() {
        None
    } else {
        Some(
            text.subrange(
                char_at(text, sels[0].spec_start()) as int,
                char_at(text, sels[0].spec_end()) as int,
            ),
        )
    }
}

/// The selections after a search for `needle` in `hay`, the bytes of the
/// text. The search starts behind the last selection and wraps around; a
/// match is added as a selection of its own and the set is brought back to
/// its normal form. An empty `needle` and a search without a match leave
/// `sels` as it is.
pub open spec fn with_next_occurrence(sels: Seq<Selection>, hay: Seq<u8>, needle: Seq<u8>) -> Seq<
    Selection,
> {
    let from = if sels.len() == 0 {
        0
    } else if sels.last().spec_end() <= hay.len() {
        sels.last().spec_end()
    } else {
        hay.len() as int
    };
    match next_occurrence(hay, needle, from) {
        Some(at) if needle.len() > 0 => normalized(
            sels.push(Selection { anchor: at as usize, head: (at + needle.len()) as usize }),
        ),
        _ => sels,
    }
}

} // verus!
