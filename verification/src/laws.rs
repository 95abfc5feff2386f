//! Laws of the editing core: what holds of every document and every
//! editor, whatever the sequence of operations that led to it.

use vstd::prelude::*;

use crate::document::Document;
use crate::editor::{active_after_close, lemma_position_of, position_of, Editor};
use crate::edits::{
    backspace_cursor, backspace_each, backspace_text, collapsed_to_start, delete_forward_each,
    delete_forward_text, delete_selection, replace_selection, selected_text_of,
};
use crate::selection::Selection;
use crate::selection_set::{clamped, lemma_normalized_fixed_point};
use crate::text::{
    byte_len, char_at, lemma_byte_len_first, lemma_byte_of_char_bounds, lemma_char_at_ordered,
    lemma_char_of_byte_at_least, lemma_char_of_byte_ends, lemma_char_of_byte_floor,
};

verus! {

/// The selection set of a well-formed document is never empty, is in
/// ascending order of start, and no two of its selections overlap or
/// touch; every offset lies within the text.
pub proof fn lemma_selection_set_invariant(doc: Document)
    requires
        doc.wf(),
    ensures
        doc.sels().len() > 0,
        forall|i: int, j: int|
            0 <= i < j < doc.sels().len() ==> doc.sels()[i].spec_start()
                <= doc.sels()[j].spec_start(),
        forall|i: int, j: int|
            0 <= i < j < doc.sels().len() ==> doc.sels()[i].spec_end()
                < doc.sels()[j].spec_start(),
        forall|i: int|
            0 <= i < doc.sels().len() ==> (#[trigger] doc.sels()[i]).spec_end() <= byte_len(
                doc.text(),
            ),
{
    let s = doc.sels();
    assert forall|i: int, j: int| 0 <= i < j < s.len() implies s[i].spec_start()
        <= s[j].spec_start() by {
        assert(s[i].spec_end() < s[j].spec_start());
    }
}

/// Backspace on an empty buffer is a no-op: it changes neither the text
/// nor the selections, and it records no unsaved change.
pub proof fn lemma_backspace_on_empty_buffer(doc: Document, after: Document)
    requires
        doc.wf(),
        doc.text().len() == 0,
        doc.after_delete_backward(after),
    ensures
        after.text() == doc.text(),
        after.sels() == doc.sels(),
        after.dirty() == doc.dirty(),
{
    let s = doc.sels();
    lemma_normalized_fixed_point(s);
    assert(byte_len(doc.text()) == 0);
    assert(s.len() == 1) by {
        if s.len() > 1 {
            assert(s[0].spec_end() < s[1].spec_start());
        }
    }
    assert(s[0] == Selection::spec_cursor(0));
    assert(s.drop_last() =~= Seq::<Selection>::empty());
    assert(s.last() == s[0]);
    let empty = Seq::<Selection>::empty();
    assert(empty.push(s[0]) =~= s);
    assert(backspace_text(doc.text(), s[0]) == doc.text());
    assert(backspace_cursor(doc.text(), s[0]) == s[0]);
    assert(backspace_each(doc.text(), empty) == (doc.text(), empty));
    assert(backspace_each(doc.text(), s) == (doc.text(), s));
    assert(clamped(s, 0) =~= s);
}

/// Selecting everything and asking for the selected text gives the whole
/// text of the buffer, unless the buffer is empty: then nothing is
/// selected.
pub proof fn lemma_select_all_selects_whole_text(doc: Document, after: Document)
    requires
        doc.after_select_all(after),
        byte_len(doc.text()) <= usize::MAX,
    ensures
        doc.text().len() > 0 ==> selected_text_of(after.text(), after.sels()) == Some(
            doc.text(),
        ),
        doc.text().len() == 0 ==> selected_text_of(after.text(), after.sels()) is None,
{
    let text = doc.text();
    lemma_char_of_byte_ends(text);
    if text.len() > 0 {
        lemma_byte_len_first(text);
        assert(text.subrange(0, text.len() as int) =~= text);
    }
}

/// An edit never touches the text before the selection that it is made
/// at: replacing what a selection covers leaves every character before
/// the start of the selection as it was.
pub proof fn lemma_replace_keeps_text_before(text: Seq<char>, sel: Selection, ins: Seq<char>)
    ensures
        ({
            let c = char_at(text, sel.spec_start()) as int;
            c <= replace_selection(text, sel, ins).len() && replace_selection(text, sel, ins).take(
                c,
            ) == text.take(c)
        }),
{
    let c = char_at(text, sel.spec_start()) as int;
    let e = char_at(text, sel.spec_end()) as int;
    lemma_char_at_ordered(text, sel.spec_start(), sel.spec_end());
    let cut = delete_selection(text, sel);
    let len = byte_len(text) as int;
    let from = if sel.spec_start() <= len { sel.spec_start() } else { len };
    let cut_len = byte_len(cut) as int;
    let at_byte = if sel.spec_start() <= cut_len { sel.spec_start() } else { cut_len };
    lemma_char_of_byte_floor(text, from);
    assert(cut.take(c) =~= text.take(c));
    lemma_byte_of_char_bounds(cut, c);
    lemma_char_of_byte_at_least(cut, c, at_byte);
    lemma_char_at_ordered(cut, sel.spec_start(), sel.spec_start());
    let at = char_at(cut, sel.spec_start()) as int;
    assert(replace_selection(text, sel, ins).take(c) =~= text.take(c));
}

/// A backspace leaves every character before the one that it removes, or
/// before the start of the selection that it deletes, as it was.
pub proof fn lemma_backspace_keeps_text_before(text: Seq<char>, sel: Selection)
    ensures
        ({
            let c = char_at(text, sel.spec_start()) as int;
            let kept = if sel.spec_is_cursor() && c > 0 {
                c - 1
            } else {
                c
            };
            kept <= backspace_text(text, sel).len() && backspace_text(text, sel).take(kept)
                == text.take(kept)
        }),
{
    let c = char_at(text, sel.spec_start()) as int;
    lemma_char_at_ordered(text, sel.spec_start(), sel.spec_end());
    let kept = if sel.spec_is_cursor() && c > 0 { c - 1 } else { c };
    assert(backspace_text(text, sel).take(kept) =~= text.take(kept));
}

/// A forward delete leaves every character before the cursor, or before
/// the start of the selection that it deletes, as it was.
pub proof fn lemma_delete_forward_keeps_text_before(text: Seq<char>, sel: Selection)
    ensures
        ({
            let c = char_at(text, sel.spec_start()) as int;
            c <= delete_forward_text(text, sel).len() && delete_forward_text(text, sel).take(c)
                == text.take(c)
        }),
{
    let c = char_at(text, sel.spec_start()) as int;
    lemma_char_at_ordered(text, sel.spec_start(), sel.spec_end());
    assert(delete_forward_text(text, sel).take(c) =~= text.take(c));
}

/// A forward delete with the only cursor at the end of the buffer is a
/// no-op: it changes neither the text nor the selections, and it records
/// no unsaved change.
pub proof fn lemma_delete_forward_at_end(doc: Document, after: Document)
    requires
        doc.wf(),
        doc.sels() == seq![Selection::spec_cursor(byte_len(doc.text()) as usize)],
        doc.after_delete_forward(after),
    ensures
        after.text() == doc.text(),
        after.sels() == doc.sels(),
        after.dirty() == doc.dirty(),
{
    let s = doc.sels();
    let text = doc.text();
    lemma_normalized_fixed_point(s);
    lemma_char_of_byte_ends(text);
    let empty = Seq::<Selection>::empty();
    assert(s.drop_last() =~= empty);
    assert(s.last() == s[0]);
    assert(delete_forward_text(text, s[0]) == text);
    assert(delete_forward_each(text, empty) == text);
    assert(delete_forward_each(text, s) == text);
    assert(collapsed_to_start(s) =~= s);
    assert(clamped(s, byte_len(text) as int) =~= s);
}

/// Closing the active tab of an editor with several tabs, whose documents
/// carry different identifiers, removes that tab and makes the one behind
/// it the active one, or the one before it where it was the last.
pub proof fn lemma_close_active_tab(editor: Editor)
    requires
        editor.has_active(),
        editor.fresh_ids(),
        editor.docs().len() > 1,
    ensures
        ({
            let at = editor.active_index();
            let left = editor.docs().remove(at);
            let active = active_after_close(at, at, editor.docs().len() - 1);
            &&& position_of(editor.docs(), editor.active_doc().ident()) == at
            &&& 0 <= active < left.len()
            &&& at + 1 < editor.docs().len() ==> left[active] == editor.docs()[at + 1]
            &&& at + 1 == editor.docs().len() ==> left[active] == editor.docs()[at - 1]
        }),
{
    let docs = editor.docs();
    let at = editor.active_index();
    assert forall|k: int| 0 <= k < at implies docs[k].ident() != docs[at].ident() by {}
    lemma_position_of(docs, docs[at].ident(), at);
}

} // verus!
