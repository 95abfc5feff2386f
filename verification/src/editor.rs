//! The editor: an ordered list of open documents, one per tab, of which
//! one is active. Editing calls go to the active document.

use vstd::prelude::*;

use crate::document::{Document, FileWrite};
use crate::error::Error;
use crate::paths::{is_path, paths_equal, title_of};
use crate::selection::Selection;
use crate::{DocumentId, IdGenerator, TabInfo};

verus! {

/// The main editor state, managing multiple documents as tabs.
pub struct Editor {
    documents: Vec<Document>,
    active_idx: usize,
    ids: IdGenerator,
}

/// The index of the first document of `docs` with the identifier `id`, or
/// the length of `docs` when no document has it.
pub open spec fn position_of(docs: Seq<Document>, id: DocumentId) -> int
    decreases docs.len(),
{
    if docs.len() == 0 {
        0
    } else if docs[0].ident() == id {
        0
    } else {
        1 + position_of(docs.drop_first(), id)
    }
}

/// The index of the first document of `docs` whose path is equal to
/// `path` as a path, or the length of `docs` when no document has such a
/// path.
pub open spec fn position_of_path(docs: Seq<Document>, path: Seq<char>) -> int
    decreases docs.len(),
{
    if docs.len() == 0 {
        0
    } else if is_path(docs[0].file_path(), path) {
        0
    } else {
        1 + position_of_path(docs.drop_first(), path)
    }
}

/// True when `doc` is an empty document without path or unsaved changes,
/// with a single cursor at offset 0.
pub open spec fn is_blank(doc: Document) -> bool {
    &&& doc.text() == Seq::<char>::empty()
    &&& doc.sels() == seq![Selection { anchor: 0, head: 0 }]
    &&& doc.file_path() is None
    &&& !doc.dirty()
}

/// True when `tab` shows the identifier, the title and the state of `doc`.
pub open spec fn describes(tab: TabInfo, doc: Document) -> bool {
    &&& tab.id == doc.ident().value()
    &&& tab.title@ == title_of(doc.file_path())
    &&& tab.dirty == doc.dirty()
}

/// The index of the active tab after the tab at `removed` left a list
/// that holds `remaining` tabs afterwards.
pub open spec fn active_after_close(active: int, removed: int, remaining: int) -> int {
    if active >= remaining {
        remaining - 1
    } else if active > removed {
        active - 1
    } else {
        active
    }
}

/// The first document with the identifier `id` is the one at `i` when
/// that one has it and none before it does.
pub proof fn lemma_position_of(docs: Seq<Document>, id: DocumentId, i: int)
    requires
        0 <= i <= docs.len(),
        forall|k: int| 0 <= k < i ==> docs[k].ident() != id,
        i < docs.len() ==> docs[i].ident() == id,
    ensures
        position_of(docs, id) == i,
    decreases docs.len(),
{
    if docs.len() > 0 && i > 0 {
        let rest = docs.drop_first();
        assert forall|k: int| 0 <= k < i - 1 implies rest[k].ident() != id by {
            assert(rest[k] == docs[k + 1]);
        }
        lemma_position_of(rest, id, i - 1);
    }
}

/// An editor whose active document changed, but kept its identifier, has
/// fresh identifiers if it had them before.
pub proof fn lemma_same_ids(before: Editor, after: Editor)
    requires
        before.same_tabs(after),
        before.has_active() ==> after.active_doc().ident() == before.active_doc().ident(),
    ensures
        before.fresh_ids() ==> after.fresh_ids(),
{
    if before.fresh_ids() {
        let a = before.active_index();
        assert forall|k: int| 0 <= k < after.docs().len() implies after.docs()[k].ident()
            == before.docs()[k].ident() by {
            if k != a {
                assert(after.docs()[k] == before.docs()[k]);
            }
        }
        assert forall|i: int, j: int| 0 <= i < j < after.docs().len() implies after.docs()[i].ident()
            != after.docs()[j].ident() by {
            assert(before.docs()[i].ident() != before.docs()[j].ident());
        }
        assert forall|k: int| 0 <= k < after.docs().len() implies (#[trigger] after.docs()[k]).ident().value()
            < after.next_id() by {
            assert(before.docs()[k].ident().value() < before.next_id());
        }
    }
}

proof fn lemma_position_of_path(docs: Seq<Document>, path: Seq<char>, i: int)
    requires
        0 <= i <= docs.len(),
        forall|k: int| 0 <= k < i ==> !is_path(docs[k].file_path(), path),
        i < docs.len() ==> is_path(docs[i].file_path(), path),
    ensures
        position_of_path(docs, path) == i,
    decreases docs.len(),
{
    if docs.len() > 0 && i > 0 {
        let rest = docs.drop_first();
        assert forall|k: int| 0 <= k < i - 1 implies !is_path(rest[k].file_path(), path) by {
            assert(rest[k] == docs[k + 1]);
        }
        lemma_position_of_path(rest, path, i - 1);
    }
}

impl Editor {
    /// The open documents, in tab order.
    pub closed spec fn docs(&self) -> Seq<Document> {
        self.documents@
    }

    /// The index of the active tab.
    pub closed spec fn active_index(&self) -> int {
        self.active_idx as int
    }

    /// The number that the next new document gets as its identifier.
    pub closed spec fn next_id(&self) -> u64 {
        self.ids.upcoming()
    }

    /// The invariant of the editor: there is always at least one tab, the
    /// active index points at one, and every document is well-formed.
    pub open spec fn wf(&self) -> bool {
        &&& 0 <= self.active_index() < self.docs().len()
        &&& forall|k: int| 0 <= k < self.docs().len() ==> (#[trigger] self.docs()[k]).wf()
    }

    /// True when the documents carry identifiers that differ from one
    /// another and that all lie below the next one to be handed out.
    pub open spec fn fresh_ids(&self) -> bool {
        &&& forall|i: int, j: int|
            0 <= i < j < self.docs().len() ==> self.docs()[i].ident() != self.docs()[j].ident()
        &&& forall|k: int|
            0 <= k < self.docs().len() ==> (#[trigger] self.docs()[k]).ident().value()
                < self.next_id()
    }

    /// True when the editor has an active document.
    pub open spec fn has_active(&self) -> bool {
        0 <= self.active_index() < self.docs().len()
    }

    /// The active document.
    pub open spec fn active_doc(&self) -> Document
        recommends
            self.has_active(),
    {
        self.docs()[self.active_index()]
    }

    /// True when `after` is this editor with at most its active document
    /// changed.
    pub open spec fn same_tabs(self, after: Editor) -> bool {
        &&& after.docs().len() == self.docs().len()
        &&& after.active_index() == self.active_index()
        &&& after.next_id() == self.next_id()
        &&& forall|k: int|
            0 <= k < self.docs().len() && k != self.active_index() ==> after.docs()[k]
                == self.docs()[k]
    }

    /// The number that follows `n` as an identifier.
    pub open spec fn id_after(n: u64) -> u64 {
        if n == u64::MAX {
            0
        } else {
            (n + 1) as u64
        }
    }

    /// An editor with one empty document, whose identifier is 1.
    pub fn new() -> (editor: Editor)
        ensures
            editor.docs().len() == 1,
            is_blank(editor.docs()[0]),
            editor.docs()[0].ident().value() == 1,
            editor.docs()[0].wf(),
            editor.active_index() == 0,
            editor.next_id() == 2,
            editor.wf(),
            editor.fresh_ids(),
    {
        let mut ids = IdGenerator::new();
        let doc = Document::new(DocumentId::new(&mut ids));
        let mut documents: Vec<Document> = Vec::new();
        documents.push(doc);
        Editor { documents, active_idx: 0, ids }
    }

    /// Opens a new empty tab, makes it the active one and returns the
    /// identifier of its document.
    pub fn new_tab(&mut self) -> (id: DocumentId)
        ensures
            id.value() == old(self).next_id(),
            final(self).next_id() == Self::id_after(old(self).next_id()),
            final(self).docs().len() == old(self).docs().len() + 1,
            final(self).docs().drop_last() == old(self).docs(),
            is_blank(final(self).docs().last()),
            final(self).docs().last().ident() == id,
            final(self).docs().last().wf(),
            final(self).active_index() == old(self).docs().len(),
            final(self).has_active(),
            old(self).wf() ==> final(self).wf(),
            old(self).fresh_ids() && old(self).next_id() < u64::MAX ==> final(self).fresh_ids(),
    {
        let doc = Document::new(DocumentId::new(&mut self.ids));
        let id = doc.id();
        self.documents.push(doc);
        self.active_idx = self.documents.len() - 1;
        proof {
            assert(self.documents@.drop_last() =~= old(self).docs());
        }
        id
    }

    /// Looks for an open document whose path is equal to `path` as a path,
    /// however the two are spelled. The first one found becomes the active
    /// tab and its identifier is returned. With `None` nothing has changed
    /// and the file is still to be read.
    pub fn open_file(&mut self, path: &str) -> (found: Option<DocumentId>)
        ensures
            final(self).docs() == old(self).docs(),
            final(self).next_id() == old(self).next_id(),
            ({
                let at = position_of_path(old(self).docs(), path@);
                match found {
                    Some(id) => at < old(self).docs().len() && final(self).active_index() == at
                        && id == old(self).docs()[at].ident(),
                    None => at == old(self).docs().len() && final(self).active_index() == old(
                        self,
                    ).active_index(),
                }
            }),
            old(self).wf() ==> final(self).wf(),
    {
        let mut i: usize = 0;
        while i < self.documents.len()
            invariant
                i <= self.documents.len(),
                self.documents@ == old(self).docs(),
                self.active_idx == old(self).active_idx,
                self.ids == old(self).ids,
                forall|k: int| 0 <= k < i ==> !is_path(self.documents@[k].file_path(), path@),
            decreases self.documents.len() - i,
        {
            let same = match self.documents[i].path() {
                Some(held) => paths_equal(held.as_str(), path),
                None => false,
            };
            if same {
                proof {
                    lemma_position_of_path(self.documents@, path@, i as int);
                }
                self.active_idx = i;
                return Some(self.documents[i].id());
            }
            i += 1;
        }
        proof {
            lemma_position_of_path(self.documents@, path@, i as int);
        }
        None
    }

    /// Opens the file at `path`, whose text `content` was read, in a new
    /// tab, makes that tab the active one and returns the identifier of
    /// its document.
    pub fn open_file_with(&mut self, path: &str, content: &str) -> (id: DocumentId)
        ensures
            id.value() == old(self).next_id(),
            final(self).next_id() == Self::id_after(old(self).next_id()),
            final(self).docs().len() == old(self).docs().len() + 1,
            final(self).docs().drop_last() == old(self).docs(),
            final(self).docs().last().text() == content@,
            final(self).docs().last().file_path() == Some(path@),
            !final(self).docs().last().dirty(),
            final(self).docs().last().sels() == seq![Selection { anchor: 0, head: 0 }],
            final(self).docs().last().ident() == id,
            final(self).docs().last().wf(),
            final(self).active_index() == old(self).docs().len(),
            final(self).has_active(),
            old(self).wf() ==> final(self).wf(),
            old(self).fresh_ids() && old(self).next_id() < u64::MAX ==> final(self).fresh_ids(),
    {
        let doc = Document::open(DocumentId::new(&mut self.ids), path, content);
        let id = doc.id();
        self.documents.push(doc);
        self.active_idx = self.documents.len() - 1;
        proof {
            assert(self.documents@.drop_last() =~= old(self).docs());
        }
        id
    }

    /// The index of the first document with the identifier `id`.
    fn find_doc_index(&self, id: DocumentId) -> (found: Option<usize>)
        ensures
            match found {
                Some(i) => i < self.docs().len() && position_of(self.docs(), id) == i,
                None => position_of(self.docs(), id) == self.docs().len(),
            },
    {
        let mut i: usize = 0;
        while i < self.documents.len()
            invariant
                i <= self.documents.len(),
                forall|k: int| 0 <= k < i ==> self.documents@[k].ident() != id,
            decreases self.documents.len() - i,
        {
            if self.documents[i].id() == id {
                proof {
                    lemma_position_of(self.documents@, id, i as int);
                }
                return Some(i);
            }
            i += 1;
        }
        proof {
            lemma_position_of(self.documents@, id, i as int);
        }
        None
    }

    /// Closes the tab of the document with the identifier `id` and tells
    /// whether there was one. The only open tab is not removed: a new
    /// empty document takes its place. Otherwise the tab leaves the list
    /// and the active index follows the tabs that moved.
    pub fn close_tab(&mut self, id: DocumentId) -> (closed: bool)
        ensures
            closed == (position_of(old(self).docs(), id) < old(self).docs().len()),
            !closed ==> final(self).docs() == old(self).docs() && final(self).active_index()
                == old(self).active_index() && final(self).next_id() == old(self).next_id(),
            closed && old(self).docs().len() == 1 ==> {
                &&& final(self).docs().len() == 1
                &&& is_blank(final(self).docs()[0])
                &&& final(self).docs()[0].wf()
                &&& final(self).docs()[0].ident().value() == old(self).next_id()
                &&& final(self).next_id() == Self::id_after(old(self).next_id())
                &&& final(self).active_index() == old(self).active_index()
            },
            closed && old(self).docs().len() != 1 ==> {
                let at = position_of(old(self).docs(), id);
                &&& final(self).docs() == old(self).docs().remove(at)
                &&& final(self).active_index() == active_after_close(
                    old(self).active_index(),
                    at,
                    old(self).docs().len() - 1,
                )
                &&& final(self).next_id() == old(self).next_id()
            },
            old(self).wf() ==> final(self).wf(),
            old(self).fresh_ids() && (old(self).docs().len() != 1 || old(self).next_id()
                < u64::MAX) ==> final(self).fresh_ids(),
    {
        match self.find_doc_index(id) {
            Some(idx) => {
                if self.documents.len() == 1 {
                    let doc = Document::new(DocumentId::new(&mut self.ids));
                    self.documents.set(0, doc);
                    return true;
                }
                let _ = self.documents.remove(idx);
                if self.active_idx >= self.documents.len() {
                    self.active_idx = self.documents.len() - 1;
                } else if self.active_idx > idx {
                    self.active_idx -= 1;
                }
                true
            },
            None => false,
        }
    }

    /// Makes the tab of the document with the identifier `id` the active
    /// one and tells whether there is such a tab.
    pub fn switch_tab(&mut self, id: DocumentId) -> (switched: bool)
        ensures
            switched == (position_of(old(self).docs(), id) < old(self).docs().len()),
            final(self).docs() == old(self).docs(),
            final(self).next_id() == old(self).next_id(),
            final(self).active_index() == (if switched {
                position_of(old(self).docs(), id)
            } else {
                old(self).active_index()
            }),
            old(self).wf() ==> final(self).wf(),
    {
        match self.find_doc_index(id) {
            Some(idx) => {
                self.active_idx = idx;
                true
            },
            None => false,
        }
    }

    /// Makes the next tab the active one; after the last tab comes the
    /// first.
    pub fn next_tab(&mut self)
        ensures
            final(self).docs() == old(self).docs(),
            final(self).next_id() == old(self).next_id(),
            final(self).active_index() == (if old(self).docs().len() == 0 {
                old(self).active_index()
            } else if old(self).active_index() + 1 >= old(self).docs().len() {
                0
            } else {
                old(self).active_index() + 1
            }),
            old(self).wf() ==> final(self).wf(),
    {
        let n = self.documents.len();
        if n > 0 {
            self.active_idx = if self.active_idx >= n - 1 {
                0
            } else {
                self.active_idx + 1
            };
        }
    }

    /// Makes the previous tab the active one; before the first tab comes
    /// the last.
    pub fn prev_tab(&mut self)
        ensures
            final(self).docs() == old(self).docs(),
            final(self).next_id() == old(self).next_id(),
            final(self).active_index() == (if old(self).docs().len() == 0 {
                old(self).active_index()
            } else if old(self).active_index() == 0 {
                old(self).docs().len() - 1
            } else {
                old(self).active_index() - 1
            }),
            old(self).wf() ==> final(self).wf(),
    {
        let n = self.documents.len();
        if n > 0 {
            self.active_idx = if self.active_idx == 0 {
                n - 1
            } else {
                self.active_idx - 1
            };
        }
    }

    /// The number of open tabs.
    pub fn tab_count(&self) -> (n: usize)
        ensures
            n == self.docs().len(),
    {
        self.documents.len()
    }

    /// The identifier of the active document.
    pub fn active_id(&self) -> (id: Option<DocumentId>)
        ensures
            id == (if self.has_active() {
                Some(self.active_doc().ident())
            } else {
                None
            }),
    {
        if self.active_idx < self.documents.len() {
            Some(self.documents[self.active_idx].id())
        } else {
            None
        }
    }

    /// The active document.
    pub fn active(&self) -> (doc: Option<&Document>)
        ensures
            match doc {
                Some(d) => self.has_active() && *d == self.active_doc(),
                None => !self.has_active(),
            },
    {
        if self.active_idx < self.documents.len() {
            Some(&self.documents[self.active_idx])
        } else {
            None
        }
    }

    /// The active document, for changes.
    pub fn active_mut(&mut self) -> (doc: Option<&mut Document>)
        ensures
            old(self).same_tabs(*final(self)),
            match doc {
                Some(d) => {
                    &&& old(self).has_active()
                    &&& *d == old(self).active_doc()
                    &&& *final(d) == final(self).active_doc()
                },
                None => !old(self).has_active() && final(self).docs() == old(self).docs(),
            },
    {
        if self.active_idx < self.documents.len() {
            Some(&mut self.documents[self.active_idx])
        } else {
            None
        }
    }

    /// Inserts `text` at every selection of the active document.
    pub fn insert(&mut self, text: &str) -> (done: Result<(), Error>)
        ensures
            old(self).same_tabs(*final(self)),
            old(self).wf() ==> final(self).wf(),
            old(self).fresh_ids() ==> final(self).fresh_ids(),
            match done {
                Ok(_) => old(self).has_active() && old(self).active_doc().after_insert(
                    text@,
                    final(self).active_doc(),
                ),
                Err(e) => e is NoActiveDocument && !old(self).has_active(),
            },
    {
        if self.active_idx < self.documents.len() {
            self.documents[self.active_idx].insert(text);
            proof {
                lemma_same_ids(*old(self), *self);
            }
            Ok(())
        } else {
            Err(Error::NoActiveDocument)
        }
    }

    /// Backspace at every selection of the active document.
    pub fn delete_backward(&mut self) -> (done: Result<(), Error>)
        ensures
            old(self).same_tabs(*final(self)),
            old(self).wf() ==> final(self).wf(),
            old(self).fresh_ids() ==> final(self).fresh_ids(),
            match done {
                Ok(_) => old(self).has_active() && old(self).active_doc().after_delete_backward(
                    final(self).active_doc(),
                ),
                Err(e) => e is NoActiveDocument && !old(self).has_active(),
            },
    {
        if self.active_idx < self.documents.len() {
            self.documents[self.active_idx].delete_backward();
            proof {
                lemma_same_ids(*old(self), *self);
            }
            Ok(())
        } else {
            Err(Error::NoActiveDocument)
        }
    }

    /// Forward delete at every selection of the active document.
    pub fn delete_forward(&mut self) -> (done: Result<(), Error>)
        ensures
            old(self).same_tabs(*final(self)),
            old(self).wf() ==> final(self).wf(),
            old(self).fresh_ids() ==> final(self).fresh_ids(),
            match done {
                Ok(_) => old(self).has_active() && old(self).active_doc().after_delete_forward(
                    final(self).active_doc(),
                ),
                Err(e) => e is NoActiveDocument && !old(self).has_active(),
            },
    {
        if self.active_idx < self.documents.len() {
            self.documents[self.active_idx].delete_forward();
            proof {
                lemma_same_ids(*old(self), *self);
            }
            Ok(())
        } else {
            Err(Error::NoActiveDocument)
        }
    }

    /// Adds a cursor at `pos` to the active document.
    pub fn add_cursor(&mut self, pos: usize) -> (done: Result<(), Error>)
        ensures
            old(self).same_tabs(*final(self)),
            old(self).wf() ==> final(self).wf(),
            old(self).fresh_ids() ==> final(self).fresh_ids(),
            match done {
                Ok(_) => old(self).has_active() && old(self).active_doc().after_add_cursor(
                    pos,
                    final(self).active_doc(),
                ),
                Err(e) => e is NoActiveDocument && !old(self).has_active(),
            },
    {
        if self.active_idx < self.documents.len() {
            self.documents[self.active_idx].add_cursor(pos);
            proof {
                lemma_same_ids(*old(self), *self);
            }
            Ok(())
        } else {
            Err(Error::NoActiveDocument)
        }
    }

    /// Puts a single cursor at `pos` in the active document.
    pub fn set_cursor(&mut self, pos: usize) -> (done: Result<(), Error>)
        ensures
            old(self).same_tabs(*final(self)),
            old(self).wf() ==> final(self).wf(),
            old(self).fresh_ids() ==> final(self).fresh_ids(),
            match done {
                Ok(_) => old(self).has_active() && old(self).active_doc().after_set_cursor(
                    pos,
                    final(self).active_doc(),
                ),
                Err(e) => e is NoActiveDocument && !old(self).has_active(),
            },
    {
        if self.active_idx < self.documents.len() {
            self.documents[self.active_idx].set_cursor(pos);
            proof {
                lemma_same_ids(*old(self), *self);
            }
            Ok(())
        } else {
            Err(Error::NoActiveDocument)
        }
    }

    /// Moves every selection of the active document by `delta` bytes.
    pub fn move_cursors(&mut self, delta: isize, extend: bool) -> (done: Result<(), Error>)
        ensures
            old(self).same_tabs(*final(self)),
            old(self).wf() ==> final(self).wf(),
            old(self).fresh_ids() ==> final(self).fresh_ids(),
            match done {
                Ok(_) => old(self).has_active() && old(self).active_doc().after_move_cursors(
                    delta,
                    extend,
                    final(self).active_doc(),
                ),
                Err(e) => e is NoActiveDocument && !old(self).has_active(),
            },
    {
        if self.active_idx < self.documents.len() {
            self.documents[self.active_idx].move_cursors(delta, extend);
            proof {
                lemma_same_ids(*old(self), *self);
            }
            Ok(())
        } else {
            Err(Error::NoActiveDocument)
        }
    }

    /// Selects the whole text of the active document.
    pub fn select_all(&mut self) -> (done: Result<(), Error>)
        ensures
            old(self).same_tabs(*final(self)),
            old(self).wf() ==> final(self).wf(),
            old(self).fresh_ids() ==> final(self).fresh_ids(),
            match done {
                Ok(_) => old(self).has_active() && old(self).active_doc().after_select_all(
                    final(self).active_doc(),
                ),
                Err(e) => e is NoActiveDocument && !old(self).has_active(),
            },
    {
        if self.active_idx < self.documents.len() {
            self.documents[self.active_idx].select_all();
            proof {
                lemma_same_ids(*old(self), *self);
            }
            Ok(())
        } else {
            Err(Error::NoActiveDocument)
        }
    }

    /// Adds the next occurrence of `text` to the selections of the active
    /// document.
    pub fn select_next_occurrence(&mut self, text: &str) -> (done: Result<(), Error>)
        ensures
            old(self).same_tabs(*final(self)),
            old(self).wf() ==> final(self).wf(),
            old(self).fresh_ids() ==> final(self).fresh_ids(),
            match done {
                Ok(_) => old(self).has_active() && old(self).active_doc().after_select_next(
                    text@,
                    final(self).active_doc(),
                ),
                Err(e) => e is NoActiveDocument && !old(self).has_active(),
            },
    {
        if self.active_idx < self.documents.len() {
            self.documents[self.active_idx].select_next_occurrence(text);
            proof {
                lemma_same_ids(*old(self), *self);
            }
            Ok(())
        } else {
            Err(Error::NoActiveDocument)
        }
    }

    /// The text of the active document.
    pub fn content(&self) -> (text: Result<String, Error>)
        ensures
            match text {
                Ok(s) => self.has_active() && s@ == self.active_doc().text(),
                Err(e) => e is NoActiveDocument && !self.has_active(),
            },
    {
        if self.active_idx < self.documents.len() {
            Ok(self.documents[self.active_idx].content())
        } else {
            Err(Error::NoActiveDocument)
        }
    }

    /// A copy of the selections of the active document.
    pub fn selections(&self) -> (sels: Result<Vec<Selection>, Error>)
        ensures
            match sels {
                Ok(v) => self.has_active() && v@ == self.active_doc().sels(),
                Err(e) => e is NoActiveDocument && !self.has_active(),
            },
    {
        if self.active_idx < self.documents.len() {
            let held = self.documents[self.active_idx].selections();
            let mut copy: Vec<Selection> = Vec::new();
            let mut i: usize = 0;
            while i < held.len()
                invariant
                    i <= held.len(),
                    copy@ == held@.take(i as int),
                decreases held.len() - i,
            {
                copy.push(held[i]);
                proof {
                    assert(copy@ =~= held@.take(i + 1));
                }
                i += 1;
            }
            proof {
                assert(held@.take(held.len() as int) =~= held@);
            }
            Ok(copy)
        } else {
            Err(Error::NoActiveDocument)
        }
    }

    /// What saving the active document has to write, and where. Fails
    /// when there is no active document or it has no path.
    pub fn save(&self) -> (request: Result<FileWrite, Error>)
        ensures
            match request {
                Err(Error::NoActiveDocument) => !self.has_active(),
                _ => self.has_active() && self.active_doc().is_save_request(request),
            },
    {
        if self.active_idx < self.documents.len() {
            self.documents[self.active_idx].save()
        } else {
            Err(Error::NoActiveDocument)
        }
    }

    /// Records that the active document was written to its own path.
    pub fn mark_saved(&mut self) -> (done: Result<(), Error>)
        ensures
            old(self).same_tabs(*final(self)),
            old(self).wf() ==> final(self).wf(),
            old(self).fresh_ids() ==> final(self).fresh_ids(),
            match done {
                Ok(_) => old(self).has_active() && old(self).active_doc().saved_at(
                    old(self).active_doc().file_path(),
                    final(self).active_doc(),
                ),
                Err(e) => e is NoActiveDocument && !old(self).has_active(),
            },
    {
        if self.active_idx < self.documents.len() {
            self.documents[self.active_idx].mark_saved();
            proof {
                lemma_same_ids(*old(self), *self);
            }
            Ok(())
        } else {
            Err(Error::NoActiveDocument)
        }
    }

    /// What saving the active document under `path` has to write.
    pub fn save_as(&self, path: &str) -> (request: Result<FileWrite, Error>)
        ensures
            match request {
                Ok(write) => self.has_active() && write.path@ == path@ && write.content@
                    == self.active_doc().text(),
                Err(e) => e is NoActiveDocument && !self.has_active(),
            },
    {
        if self.active_idx < self.documents.len() {
            Ok(self.documents[self.active_idx].save_as(path))
        } else {
            Err(Error::NoActiveDocument)
        }
    }

    /// Records that the active document was written to `path`.
    pub fn mark_saved_as(&mut self, path: &str) -> (done: Result<(), Error>)
        ensures
            old(self).same_tabs(*final(self)),
            old(self).wf() ==> final(self).wf(),
            old(self).fresh_ids() ==> final(self).fresh_ids(),
            match done {
                Ok(_) => old(self).has_active() && old(self).active_doc().saved_at(
                    Some(path@),
                    final(self).active_doc(),
                ),
                Err(e) => e is NoActiveDocument && !old(self).has_active(),
            },
    {
        if self.active_idx < self.documents.len() {
            self.documents[self.active_idx].mark_saved_as(path);
            proof {
                lemma_same_ids(*old(self), *self);
            }
            Ok(())
        } else {
            Err(Error::NoActiveDocument)
        }
    }

    /// What a user interface shows of the tabs, in tab order.
    pub fn tabs(&self) -> (tabs: Vec<TabInfo>)
        ensures
            tabs@.len() == self.docs().len(),
            forall|k: int| 0 <= k < tabs@.len() ==> describes(tabs@[k], self.docs()[k]),
    {
        let mut tabs: Vec<TabInfo> = Vec::new();
        let mut i: usize = 0;
        while i < self.documents.len()
            invariant
                i <= self.documents.len(),
                tabs@.len() == i,
                forall|k: int| 0 <= k < i ==> describes(tabs@[k], self.documents@[k]),
            decreases self.documents.len() - i,
        {
            let doc = &self.documents[i];
            tabs.push(TabInfo { id: doc.id().as_u64(), title: doc.title(), dirty: doc.is_dirty() });
            i += 1;
        }
        tabs
    }
}

impl Default for Editor {
    /// An editor with one empty document.
    fn default() -> (editor: Editor)
        ensures
            editor.docs().len() == 1,
            is_blank(editor.docs()[0]),
            editor.active_index() == 0,
            editor.wf(),
    {
        Editor::new()
    }
}

} // verus!
