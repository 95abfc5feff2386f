//! A document: its text, its set of selections, and the edits that keep
//! the two consistent.

use ropey::Rope;
use vstd::prelude::*;
use vstd::utf8::encode_utf8;

use crate::edits::{
    backspace_cursor, backspace_each, collapsed_to_start, cursors_after_insert,
    delete_forward_each, delete_selection, has_cursor_at, insert_at_each, moved_all,
    selected_text_of, with_next_occurrence,
};
use crate::error::{Error, IoErrorKind};
use crate::paths::{file_name_of, title_from, title_of};
use crate::rope::{
    line_count_of, line_of, rope_line_to_string, rope_remove, rope_slice_to_string, rope_text,
    rope_to_string,
};
use crate::search::{find_bytes, lemma_first_occurrence};
use crate::selection::Selection;
use crate::selection_set::{
    clamp_selections, clamped, is_normalized, normalize, normalized, within,
};
use crate::text::{byte_len, char_at, lemma_byte_len_is_encoding_len, lemma_char_at_ordered};
use crate::DocumentId;

verus! {

/// A single document with its content and metadata.
pub struct Document {
    pub(crate) id: DocumentId,
    content: Rope,
    selections: Vec<Selection>,
    path: Option<String>,
    dirty: bool,
}

impl Document {
    /// The text of the document.
    pub closed spec fn text(&self) -> Seq<char> {
        rope_text(self.content)
    }

    /// The selections of the document, in the order in which they are held.
    pub closed spec fn sels(&self) -> Seq<Selection> {
        self.selections@
    }

    /// The path of the file that the document belongs to, if it has one.
    pub closed spec fn file_path(&self) -> Option<Seq<char>> {
        match self.path {
            Some(p) => Some(p@),
            None => None,
        }
    }

    /// True while the document has changes that were not saved.
    pub closed spec fn dirty(&self) -> bool {
        self.dirty
    }

    /// The identifier of the document.
    pub closed spec fn ident(&self) -> DocumentId {
        self.id
    }

    /// The invariant of a document: its selection set is never empty, is in
    /// ascending order with no two selections overlapping or touching, and
    /// every offset lies within the text.
    pub open spec fn wf(&self) -> bool {
        &&& is_normalized(self.sels())
        &&& within(self.sels(), byte_len(self.text()) as int)
        &&& byte_len(self.text()) <= usize::MAX
    }

    /// True when `other` differs from this document at most in its
    /// selections.
    pub open spec fn same_content(&self, other: &Document) -> bool {
        &&& self.text() == other.text()
        &&& self.file_path() == other.file_path()
        &&& self.dirty() == other.dirty()
        &&& self.ident() == other.ident()
    }

    /// True when `after` is this document with only its selections
    /// replaced, by `sels`.
    pub open spec fn reselected(self, sels: Seq<Selection>, after: Document) -> bool {
        after.sels() == sels && after.same_content(&self)
    }

    /// True when `after` is this document with `text` as its text and
    /// `sels` as its selections, and with unsaved changes.
    pub open spec fn edited(self, text: Seq<char>, sels: Seq<Selection>, after: Document) -> bool {
        &&& after.text() == text
        &&& after.sels() == sels
        &&& after.dirty()
        &&& after.file_path() == self.file_path()
        &&& after.ident() == self.ident()
    }

    /// True when `after` is this document with `text` as its text and
    /// `sels` as its selections, and with unsaved changes if it had them
    /// before or the text is another one now.
    pub open spec fn trimmed(self, text: Seq<char>, sels: Seq<Selection>, after: Document) -> bool {
        &&& after.text() == text
        &&& after.sels() == sels
        &&& after.dirty() == (self.dirty() || after.text() != self.text())
        &&& after.file_path() == self.file_path()
        &&& after.ident() == self.ident()
    }

    /// The offset `pos`, or the end of the text where `pos` lies beyond it.
    pub open spec fn clamp(self, pos: usize) -> usize {
        if pos <= byte_len(self.text()) {
            pos
        } else {
            byte_len(self.text()) as usize
        }
    }

    /// What `set_cursor` does: all selections give way to one cursor at
    /// `pos`, limited to the text.
    pub open spec fn after_set_cursor(self, pos: usize, after: Document) -> bool {
        self.reselected(seq![Selection::spec_cursor(self.clamp(pos))], after)
    }

    /// What `select_all` does: all selections give way to one that spans
    /// the whole text.
    pub open spec fn after_select_all(self, after: Document) -> bool {
        self.reselected(
            seq![Selection { anchor: 0, head: byte_len(self.text()) as usize }],
            after,
        )
    }

    /// What `add_cursor` does: a cursor at `pos`, limited to the text,
    /// joins the set, which is brought to its normal form; nothing changes
    /// when such a cursor is there already.
    pub open spec fn after_add_cursor(self, pos: usize, after: Document) -> bool {
        let at = self.clamp(pos);
        self.reselected(
            if has_cursor_at(self.sels(), at as int) {
                self.sels()
            } else {
                normalized(self.sels().push(Selection::spec_cursor(at)))
            },
            after,
        )
    }

    /// What `move_cursors` does: every selection moves by `delta` within
    /// the text, and the set is brought to its normal form.
    pub open spec fn after_move_cursors(self, delta: isize, extend: bool, after: Document) -> bool {
        self.reselected(
            normalized(
                moved_all(self.sels(), delta as int, byte_len(self.text()) as int, extend),
            ),
            after,
        )
    }

    /// What `select_next_occurrence` does: the next match of `needle`
    /// joins the set.
    pub open spec fn after_select_next(self, needle: Seq<char>, after: Document) -> bool {
        self.reselected(
            with_next_occurrence(self.sels(), encode_utf8(self.text()), encode_utf8(needle)),
            after,
        )
    }

    /// What `insert` does: nothing for an empty `ins`; otherwise each
    /// selection of the normal form of the set is replaced by `ins` and
    /// ends as a cursor behind it, within the new text.
    pub open spec fn after_insert(self, ins: Seq<char>, after: Document) -> bool {
        if ins.len() == 0 {
            self.reselected(self.sels(), after)
        } else {
            let sels = normalized(self.sels());
            self.edited(
                insert_at_each(self.text(), sels, ins),
                normalized(
                    cursors_after_insert(
                        sels,
                        byte_len(ins) as int,
                        byte_len(after.text()) as int,
                    ),
                ),
                after,
            )
        }
    }

    /// What `delete_backward` does: a backspace at each selection of the
    /// normal form of the set; the cursors that are left are limited to
    /// the new text and brought to their normal form. A call that removes
    /// nothing leaves the record of unsaved changes as it was.
    pub open spec fn after_delete_backward(self, after: Document) -> bool {
        let left = backspace_each(self.text(), normalized(self.sels()));
        self.trimmed(
            left.0,
            normalized(clamped(left.1, byte_len(after.text()) as int)),
            after,
        )
    }

    /// What `delete_forward` does: a forward delete at each selection of
    /// the normal form of the set; every selection ends as a cursor at its
    /// start, limited to the new text. A call that removes nothing leaves
    /// the record of unsaved changes as it was.
    pub open spec fn after_delete_forward(self, after: Document) -> bool {
        let sels = normalized(self.sels());
        self.trimmed(
            delete_forward_each(self.text(), sels),
            normalized(clamped(collapsed_to_start(sels), byte_len(after.text()) as int)),
            after,
        )
    }

    /// What `save` answers: the request to write the whole text to the
    /// document's path, or, for a document without a path, the failure to
    /// find one.
    pub open spec fn is_save_request(self, request: Result<FileWrite, Error>) -> bool {
        match request {
            Ok(write) => self.file_path() == Some(write.path@) && write.content@ == self.text(),
            Err(Error::Io(kind, message)) => self.file_path() is None && kind
                == IoErrorKind::NotFound && message@ == "No file path set"@,
            Err(_) => false,
        }
    }

    /// What `mark_saved` and `mark_saved_as` do: the document has no
    /// unsaved changes and belongs to `path`; nothing else changes.
    pub open spec fn saved_at(self, path: Option<Seq<char>>, after: Document) -> bool {
        &&& !after.dirty()
        &&& after.file_path() == path
        &&& after.text() == self.text()
        &&& after.sels() == self.sels()
        &&& after.ident() == self.ident()
    }

    /// A new empty document with a cursor at offset 0.
    pub fn new(id: DocumentId) -> (doc: Document)
        ensures
            doc.text() == Seq::<char>::empty(),
            doc.sels() == seq![Selection { anchor: 0, head: 0 }],
            doc.file_path() is None,
            !doc.dirty(),
            doc.ident() == id,
            doc.wf(),
    {
        let mut selections: Vec<Selection> = Vec::new();
        selections.push(Selection::cursor(0));
        Document { id, content: Rope::new(), selections, path: None, dirty: false }
    }

    /// The document for a file at `path` whose text `content` was read.
    pub fn open(id: DocumentId, path: &str, content: &str) -> (doc: Document)
        ensures
            doc.text() == content@,
            doc.sels() == seq![Selection { anchor: 0, head: 0 }],
            doc.file_path() == Some(path@),
            !doc.dirty(),
            doc.ident() == id,
            doc.wf(),
    {
        let mut selections: Vec<Selection> = Vec::new();
        selections.push(Selection::cursor(0));
        let rope = Rope::from_str(content);
        // The rope reports its length as a `usize`: the text fits.
        let _ = rope.len_bytes();
        Document { id, content: rope, selections, path: Some(path.to_owned()), dirty: false }
    }

    /// The identifier of the document.
    pub fn id(&self) -> (id: DocumentId)
        ensures
            id == self.ident(),
    {
        self.id
    }

    /// The path of the document's file, if it has one.
    pub fn path(&self) -> (p: Option<&String>)
        ensures
            match p {
                Some(s) => self.file_path() == Some(s@),
                None => self.file_path() is None,
            },
    {
        self.path.as_ref()
    }

    /// True while the document has unsaved changes.
    pub fn is_dirty(&self) -> (b: bool)
        ensures
            b == self.dirty(),
    {
        self.dirty
    }

    /// The full text as a string.
    pub fn content(&self) -> (s: String)
        ensures
            s@ == self.text(),
    {
        rope_to_string(&self.content)
    }

    /// The length of the text in bytes.
    pub fn len(&self) -> (n: usize)
        ensures
            n == byte_len(self.text()),
    {
        self.content.len_bytes()
    }

    /// True when the document holds no text.
    pub fn is_empty(&self) -> (b: bool)
        ensures
            b == (self.text().len() == 0),
    {
        self.content.len_chars() == 0
    }

    /// All selections.
    pub fn selections(&self) -> (s: &Vec<Selection>)
        ensures
            s@ == self.sels(),
    {
        &self.selections
    }

    /// The primary selection: the first one.
    pub fn primary_selection(&self) -> (sel: &Selection)
        requires
            self.sels().len() > 0,
        ensures
            *sel == self.sels()[0],
    {
        &self.selections[0]
    }

    /// Replaces all selections by a single cursor at `pos`, or at the end
    /// of the text when `pos` lies beyond it.
    pub fn set_cursor(&mut self, pos: usize)
        ensures
            old(self).after_set_cursor(pos, *final(self)),
            final(self).wf(),
    {
        let n = self.len();
        let pos = if pos <= n {
            pos
        } else {
            n
        };
        let mut selections: Vec<Selection> = Vec::new();
        selections.push(Selection::cursor(pos));
        self.selections = selections;
    }

    /// Replaces all selections by one that spans the whole text.
    pub fn select_all(&mut self)
        ensures
            old(self).after_select_all(*final(self)),
            final(self).wf(),
    {
        let n = self.len();
        let mut selections: Vec<Selection> = Vec::new();
        selections.push(Selection::new(0, n));
        self.selections = selections;
    }

    /// The index of the character at byte offset `offset`, with offsets
    /// beyond the text taken as its end.
    fn char_index(&self, offset: usize) -> (c: usize)
        ensures
            c == char_at(self.text(), offset as int),
            c <= self.text().len(),
    {
        let n = self.content.len_bytes();
        let b = if offset <= n {
            offset
        } else {
            n
        };
        proof {
            lemma_char_at_ordered(self.text(), offset as int, offset as int);
        }
        self.content.byte_to_char(b)
    }

    /// Inserts `text` at every selection, in place of what the selection
    /// covers. Each selection ends as a cursor behind the text that was
    /// inserted for it. Empty `text` changes nothing.
    pub fn insert(&mut self, text: &str)
        ensures
            old(self).after_insert(text@, *final(self)),
            text@.len() > 0 || old(self).wf() ==> final(self).wf(),
    {
        if text.is_empty() {
            return ;
        }
        let added = text.as_bytes().len();
        proof {
            lemma_byte_len_is_encoding_len(text@);
        }
        normalize(&mut self.selections);
        let ghost sels = self.selections@;
        let ghost start_text = self.text();
        let mut i: usize = self.selections.len();
        proof {
            assert(sels.take(i as int) =~= sels);
        }
        while i > 0
            invariant
                i <= self.selections.len(),
                self.selections@ == sels,
                added == byte_len(text@),
                insert_at_each(self.text(), sels.take(i as int), text@) == insert_at_each(
                    start_text,
                    sels,
                    text@,
                ),
                self.file_path() == old(self).file_path(),
                self.ident() == old(self).ident(),
            decreases i,
        {
            i -= 1;
            let sel = self.selections[i];
            let ghost before = self.text();
            proof {
                assert(sels.take(i + 1).drop_last() =~= sels.take(i as int));
                assert(sels.take(i + 1).last() == sel);
                lemma_char_at_ordered(before, sel.spec_start(), sel.spec_end());
            }
            if !sel.is_cursor() {
                let from = self.char_index(sel.start());
                let to = self.char_index(sel.end());
                rope_remove(&mut self.content, from, to);
            } else {
                proof {
                    assert(delete_selection(before, sel) =~= before);
                }
            }
            let at = self.char_index(sel.start());
            self.content.insert(at, text);
        }
        let n = self.content.len_bytes();
        let mut j: usize = 0;
        while j < self.selections.len()
            invariant
                j <= self.selections.len(),
                self.selections.len() == sels.len(),
                n == byte_len(self.text()),
                added == byte_len(text@),
                self.text() == insert_at_each(start_text, sels, text@),
                forall|k: int|
                    0 <= k < j ==> self.selections@[k] == cursors_after_insert(
                        sels,
                        added as int,
                        n as int,
                    )[k],
                forall|k: int| j <= k < sels.len() ==> self.selections@[k] == sels[k],
                self.file_path() == old(self).file_path(),
                self.ident() == old(self).ident(),
            decreases self.selections.len() - j,
        {
            let start = self.selections[j].start();
            let pos = if start >= n || added >= n - start {
                n
            } else {
                start + added
            };
            self.selections.set(j, Selection::cursor(pos));
            j += 1;
        }
        proof {
            assert(self.selections@ =~= cursors_after_insert(sels, added as int, n as int));
            assert(within(self.selections@, n as int));
        }
        normalize(&mut self.selections);
        proof {
            assert(within(self.selections@, n as int));
        }
        self.dirty = true;
    }

    /// Backspace: removes the text that each selection covers, or, at a
    /// cursor, the one character before it. A cursor at the start of the
    /// text stays as it is.
    pub fn delete_backward(&mut self)
        ensures
            old(self).after_delete_backward(*final(self)),
            final(self).wf(),
    {
        normalize(&mut self.selections);
        let ghost sels = self.selections@;
        let ghost start_text = self.text();
        let mut removed = false;
        let mut i: usize = self.selections.len();
        proof {
            assert(sels.take(i as int) =~= sels);
            assert(backspace_each(self.text(), sels.take(i as int)).1 + self.selections@.subrange(
                i as int,
                sels.len() as int,
            ) =~= backspace_each(start_text, sels).1);
        }
        while i > 0
            invariant
                i <= self.selections.len(),
                self.selections.len() == sels.len(),
                removed == (self.text().len() < start_text.len()),
                !removed ==> self.text() == start_text,
                self.dirty() == old(self).dirty(),
                forall|k: int| 0 <= k < i ==> self.selections@[k] == sels[k],
                backspace_each(self.text(), sels.take(i as int)).0 == backspace_each(
                    start_text,
                    sels,
                ).0,
                backspace_each(self.text(), sels.take(i as int)).1 + self.selections@.subrange(
                    i as int,
                    sels.len() as int,
                ) == backspace_each(start_text, sels).1,
                self.file_path() == old(self).file_path(),
                self.ident() == old(self).ident(),
            decreases i,
        {
            i -= 1;
            let sel = self.selections[i];
            let ghost before = self.text();
            let ghost held = self.selections@;
            proof {
                assert(sels.take(i + 1).drop_last() =~= sels.take(i as int));
                assert(sels.take(i + 1).last() == sel);
                lemma_char_at_ordered(before, sel.spec_start(), sel.spec_end());
            }
            if sel.is_cursor() {
                if sel.head > 0 {
                    let c = self.char_index(sel.head);
                    if c > 0 {
                        rope_remove(&mut self.content, c - 1, c);
                        removed = true;
                        proof {
                            assert(self.text().take(c - 1) =~= before.take(c - 1));
                        }
                        let head = self.content.char_to_byte(c - 1);
                        self.selections.set(i, Selection::cursor(head));
                    }
                }
            } else {
                let from = self.char_index(sel.start());
                let to = self.char_index(sel.end());
                rope_remove(&mut self.content, from, to);
                if from < to {
                    removed = true;
                } else {
                    proof {
                        assert(self.text() =~= before);
                    }
                }
                self.selections.set(i, Selection::cursor(sel.start()));
            }
            proof {
                let below = backspace_each(self.text(), sels.take(i as int));
                let cursor = backspace_cursor(before, sel);
                assert(self.selections@[i as int] == cursor);
                assert(self.selections@.subrange(i as int, sels.len() as int) =~= seq![cursor]
                    + held.subrange(i + 1, sels.len() as int));
                assert(below.1.push(cursor) + held.subrange(i + 1, sels.len() as int)
                    =~= below.1 + self.selections@.subrange(i as int, sels.len() as int));
            }
        }
        proof {
            assert(sels.take(0) =~= Seq::<Selection>::empty());
            assert(self.selections@.subrange(0, sels.len() as int) =~= self.selections@);
            assert(Seq::<Selection>::empty() + self.selections@ =~= self.selections@);
        }
        let n = self.content.len_bytes();
        clamp_selections(&mut self.selections, n);
        normalize(&mut self.selections);
        proof {
            assert(within(self.selections@, n as int));
        }
        if removed {
            self.dirty = true;
        }
    }

    /// Forward delete: removes the text that each selection covers, or, at
    /// a cursor, the one character behind it. A cursor at the end of the
    /// text removes nothing.
    pub fn delete_forward(&mut self)
        ensures
            old(self).after_delete_forward(*final(self)),
            final(self).wf(),
    {
        normalize(&mut self.selections);
        let ghost sels = self.selections@;
        let ghost start_text = self.text();
        let mut removed = false;
        let mut i: usize = self.selections.len();
        proof {
            assert(sels.take(i as int) =~= sels);
        }
        while i > 0
            invariant
                i <= self.selections.len(),
                self.selections.len() == sels.len(),
                removed == (self.text().len() < start_text.len()),
                !removed ==> self.text() == start_text,
                self.dirty() == old(self).dirty(),
                forall|k: int| 0 <= k < i ==> self.selections@[k] == sels[k],
                forall|k: int|
                    i <= k < sels.len() ==> self.selections@[k] == collapsed_to_start(sels)[k],
                delete_forward_each(self.text(), sels.take(i as int)) == delete_forward_each(
                    start_text,
                    sels,
                ),
                self.file_path() == old(self).file_path(),
                self.ident() == old(self).ident(),
            decreases i,
        {
            i -= 1;
            let sel = self.selections[i];
            proof {
                assert(sels.take(i + 1).drop_last() =~= sels.take(i as int));
                assert(sels.take(i + 1).last() == sel);
                lemma_char_at_ordered(self.text(), sel.spec_start(), sel.spec_end());
            }
            let ghost before = self.text();
            if sel.is_cursor() {
                let c = self.char_index(sel.head);
                if c < self.content.len_chars() {
                    rope_remove(&mut self.content, c, c + 1);
                    removed = true;
                }
            } else {
                let from = self.char_index(sel.start());
                let to = self.char_index(sel.end());
                rope_remove(&mut self.content, from, to);
                if from < to {
                    removed = true;
                } else {
                    proof {
                        assert(self.text() =~= before);
                    }
                }
                self.selections.set(i, Selection::cursor(sel.start()));
            }
        }
        proof {
            assert(self.selections@ =~= collapsed_to_start(sels));
        }
        let n = self.content.len_bytes();
        clamp_selections(&mut self.selections, n);
        normalize(&mut self.selections);
        proof {
            assert(within(self.selections@, n as int));
        }
        if removed {
            self.dirty = true;
        }
    }

    /// The title of the document: the file name of its path, or "Untitled"
    /// when it has no path or the path has no file name.
    pub fn title(&self) -> (title: String)
        ensures
            title@ == title_of(self.file_path()),
    {
        match &self.path {
            Some(path) => title_from(file_name_of(path.as_str())),
            None => title_from(None),
        }
    }

    /// The number of lines.
    pub fn line_count(&self) -> (n: usize)
        ensures
            n == line_count_of(self.text()),
    {
        self.content.len_lines()
    }

    /// The line with the given index, counted from 0; `None` when there is
    /// no such line.
    pub fn line(&self, idx: usize) -> (line: Option<String>)
        ensures
            match line {
                Some(s) => idx < line_count_of(self.text()) && s@ == line_of(
                    self.text(),
                    idx as nat,
                ),
                None => idx >= line_count_of(self.text()),
            },
    {
        if idx < self.content.len_lines() {
            Some(rope_line_to_string(&self.content, idx))
        } else {
            None
        }
    }

    /// Direct access to the selections. Whoever changes them through this
    /// reference decides what the set holds; the next edit brings it back
    /// to its normal form.
    pub fn selections_mut(&mut self) -> (s: &mut Vec<Selection>)
        ensures
            s@ == old(self).sels(),
            final(self).sels() == final(s)@,
            final(self).same_content(old(self)),
    {
        &mut self.selections
    }

    /// Adds a cursor at `pos`, or at the end of the text when `pos` lies
    /// beyond it. Nothing changes when there is a cursor at that offset
    /// already.
    pub fn add_cursor(&mut self, pos: usize)
        ensures
            old(self).after_add_cursor(pos, *final(self)),
            old(self).wf() ==> final(self).wf(),
    {
        let n = self.len();
        let at = if pos <= n {
            pos
        } else {
            n
        };
        let mut i: usize = 0;
        while i < self.selections.len()
            invariant
                i <= self.selections.len(),
                self.selections@ == old(self).sels(),
                self.same_content(old(self)),
                n == byte_len(old(self).text()),
                at == (if pos <= n {
                    pos
                } else {
                    n
                }),
                forall|k: int|
                    0 <= k < i ==> !(self.selections@[k].spec_is_cursor()
                        && self.selections@[k].head == at),
            decreases self.selections.len() - i,
        {
            let sel = self.selections[i];
            if sel.head == at && sel.is_cursor() {
                proof {
                    let found = self.selections@[i as int];
                    assert(found.spec_is_cursor() && found.head == at);
                    assert(has_cursor_at(old(self).sels(), at as int));
                }
                return ;
            }
            i += 1;
        }
        self.selections.push(Selection::cursor(at));
        proof {
            if old(self).wf() {
                assert(within(self.selections@, n as int));
            }
        }
        normalize(&mut self.selections);
        proof {
            if old(self).wf() {
                assert(within(self.selections@, n as int));
            }
        }
    }

    /// Moves every selection by `delta` bytes, within the text, and brings
    /// the set back to its normal form. With `extend` the anchors stay
    /// where they are.
    pub fn move_cursors(&mut self, delta: isize, extend: bool)
        ensures
            old(self).after_move_cursors(delta, extend, *final(self)),
            is_normalized(final(self).sels()),
            !extend || old(self).wf() ==> final(self).wf(),
    {
        let max = self.len();
        let ghost before = self.selections@;
        let mut i: usize = 0;
        while i < self.selections.len()
            invariant
                i <= self.selections.len(),
                self.selections.len() == before.len(),
                self.same_content(old(self)),
                max == byte_len(self.text()),
                forall|k: int|
                    0 <= k < i ==> self.selections@[k] == before[k].moved_by(
                        delta as int,
                        max as int,
                        extend,
                    ),
                forall|k: int| i <= k < before.len() ==> self.selections@[k] == before[k],
            decreases self.selections.len() - i,
        {
            let mut sel = self.selections[i];
            sel.move_by(delta, max, extend);
            self.selections.set(i, sel);
            i += 1;
        }
        proof {
            assert(self.selections@ =~= moved_all(before, delta as int, max as int, extend));
            if !extend || old(self).wf() {
                assert(within(self.selections@, max as int));
            }
        }
        normalize(&mut self.selections);
        proof {
            if !extend || old(self).wf() {
                assert(within(self.selections@, max as int));
            }
        }
    }

    /// Brings the selection set back to its normal form.
    fn normalize_selections(&mut self)
        ensures
            final(self).sels() == normalized(old(self).sels()),
            final(self).same_content(old(self)),
            is_normalized(final(self).sels()),
            forall|max: int|
                0 <= max && within(old(self).sels(), max) ==> #[trigger] within(
                    final(self).sels(),
                    max,
                ),
    {
        normalize(&mut self.selections);
    }

    /// Searches the text for `text`, literally, from the end of the last
    /// selection on and then from the beginning, and adds the first match
    /// as a selection. Empty `text` and a search without a match change
    /// nothing.
    pub fn select_next_occurrence(&mut self, text: &str)
        ensures
            old(self).after_select_next(text@, *final(self)),
            old(self).wf() ==> final(self).wf(),
    {
        let needle = text.as_bytes();
        let m = needle.len();
        if m == 0 {
            return ;
        }
        let content = self.content();
        let hay = content.as_str().as_bytes();
        let n = hay.len();
        proof {
            lemma_byte_len_is_encoding_len(self.text());
        }
        let count = self.selections.len();
        let from = if count == 0 {
            0
        } else {
            let end = self.selections[count - 1].end();
            if end <= n {
                end
            } else {
                n
            }
        };
        let found = match find_bytes(hay, needle, from, n) {
            Some(at) => Some(at),
            None => if from > 0 {
                find_bytes(hay, needle, 0, from)
            } else {
                None
            },
        };
        match found {
            Some(at) => {
                proof {
                    lemma_first_occurrence(hay@, needle@, from as int, n as int);
                    lemma_first_occurrence(hay@, needle@, 0, from as int);
                }
                self.selections.push(Selection::new(at, at + m));
                proof {
                    if old(self).wf() {
                        assert(within(self.selections@, n as int));
                    }
                }
                self.normalize_selections();
                proof {
                    if old(self).wf() {
                        assert(within(self.selections@, n as int));
                    }
                }
            },
            None => {},
        }
    }

    /// The text that the primary selection covers; `None` when it is a
    /// cursor.
    pub fn selected_text(&self) -> (selected: Option<String>)
        ensures
            match selected {
                Some(s) => selected_text_of(self.text(), self.sels()) == Some(s@),
                None => selected_text_of(self.text(), self.sels()) is None,
            },
    {
        if self.selections.len() == 0 {
            return None;
        }
        let sel = self.selections[0];
        if sel.is_cursor() {
            None
        } else {
            let from = self.char_index(sel.start());
            let to = self.char_index(sel.end());
            proof {
                lemma_char_at_ordered(self.text(), sel.spec_start(), sel.spec_end());
            }
            Some(rope_slice_to_string(&self.content, from, to))
        }
    }

    /// What saving the document has to write, and where: the whole text,
    /// to the document's own path. Fails when the document has no path.
    pub fn save(&self) -> (request: Result<FileWrite, Error>)
        ensures
            self.is_save_request(request),
    {
        match &self.path {
            Some(path) => Ok(FileWrite { path: path.clone(), content: self.content() }),
            None => Err(Error::Io(IoErrorKind::NotFound, "No file path set".to_owned())),
        }
    }

    /// Records that the text was written to the document's own path: the
    /// document has no unsaved changes any more.
    pub fn mark_saved(&mut self)
        ensures
            old(self).saved_at(old(self).file_path(), *final(self)),
    {
        self.dirty = false;
    }

    /// What saving the document under `path` has to write: the whole text.
    pub fn save_as(&self, path: &str) -> (write: FileWrite)
        ensures
            write.path@ == path@,
            write.content@ == self.text(),
    {
        FileWrite { path: path.to_owned(), content: self.content() }
    }

    /// Records that the text was written to `path`: the document belongs
    /// to that path from now on and has no unsaved changes.
    pub fn mark_saved_as(&mut self, path: &str)
        ensures
            old(self).saved_at(Some(path@), *final(self)),
    {
        self.path = Some(path.to_owned());
        self.dirty = false;
    }
}

/// A request to write `content` to the file at `path`.
#[derive(Debug)]
pub struct FileWrite {
    pub path: String,
    pub content: String,
}

} // verus!
