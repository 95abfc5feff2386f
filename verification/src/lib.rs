//! Editing core of a text editor: a text buffer with multiple simultaneous
//! selections that stay consistent across every edit, and a tab container
//! that holds several such buffers.

use vstd::prelude::*;

pub mod cover;
pub mod document;
pub mod editor;
pub mod edits;
pub mod error;
pub mod laws;
pub mod paths;
pub mod rope;
pub mod search;
pub mod selection;
pub mod selection_set;
pub mod text;

pub use document::Document;
pub use document::FileWrite;
pub use editor::Editor;
pub use error::Error;
pub use error::IoErrorKind;
pub use selection::Selection;

verus! {

/// Identifier of a document, used to track tabs.
#[derive(Debug, Clone, Copy, PartialEq, Eq, Hash, Structural)]
pub struct DocumentId(u64);

/// Hands out document identifiers in ascending order, starting at 1.
#[derive(Debug)]
pub struct IdGenerator {
    next: u64,
}

impl IdGenerator {
    /// The number that the next identifier will carry.
    pub closed spec fn upcoming(&self) -> u64 {
        self.next
    }

    /// A generator whose first identifier is 1.
    pub fn new() -> (ids: IdGenerator)
        ensures
            ids.upcoming() == 1,
    {
        IdGenerator { next: 1 }
    }
}

impl DocumentId {
    /// The number behind the identifier.
    pub closed spec fn value(self) -> u64 {
        self.0
    }

    /// Draws the next identifier from `ids`. Identifiers drawn one after
    /// another count upwards by one; after `u64::MAX` the count starts
    /// again at 0.
    pub fn new(ids: &mut IdGenerator) -> (id: DocumentId)
        ensures
            id.value() == old(ids).upcoming(),
            final(ids).upcoming() == (if old(ids).upcoming() == u64::MAX {
                0
            } else {
                old(ids).upcoming() + 1
            }),
    {
        let id = DocumentId(ids.next);
        ids.next = if ids.next == u64::MAX {
            0
        } else {
            ids.next + 1
        };
        id
    }

    /// The identifier as a plain number.
    pub fn as_u64(self) -> (val: u64)
        ensures
            val == self.value(),
    {
        self.0
    }

    /// The identifier that carries the number `val`.
    pub fn from_u64(val: u64) -> (id: DocumentId)
        ensures
            id.value() == val,
    {
        DocumentId(val)
    }
}

/// What a user interface shows of one tab.
#[derive(Debug, Clone)]
pub struct TabInfo {
    pub id: u64,
    pub title: String,
    pub dirty: bool,
}

/// A span of text that is highlighted as one syntactic element.
#[derive(Debug, Clone, Copy)]
pub struct HighlightSpan {
    pub start: usize,
    pub end: usize,
    pub kind: HighlightKind,
}

/// The syntactic elements that can be highlighted.
#[derive(Debug, Clone, Copy, PartialEq, Eq, Structural)]
pub enum HighlightKind {
    Heading1,
    Heading2,
    Heading3,
    Heading4,
    Heading5,
    Heading6,
    Bold,
    Italic,
    Code,
    CodeBlock,
    Link,
    LinkUrl,
    ListMarker,
    BlockQuote,
}

impl HighlightKind {
    /// The number by which a host application knows the kind.
    pub open spec fn spec_code(self) -> u8 {
        match self {
            HighlightKind::Heading1 => 1,
            HighlightKind::Heading2 => 2,
            HighlightKind::Heading3 => 3,
            HighlightKind::Heading4 => 4,
            HighlightKind::Heading5 => 5,
            HighlightKind::Heading6 => 6,
            HighlightKind::Bold => 10,
            HighlightKind::Italic => 11,
            HighlightKind::Code => 20,
            HighlightKind::CodeBlock => 21,
            HighlightKind::Link => 30,
            HighlightKind::LinkUrl => 31,
            HighlightKind::ListMarker => 40,
            HighlightKind::BlockQuote => 50,
        }
    }

    /// The number by which a host application knows the kind.
    pub fn code(self) -> (c: u8)
        ensures
            c == self.spec_code(),
    {
        match self {
            HighlightKind::Heading1 => 1,
            HighlightKind::Heading2 => 2,
            HighlightKind::Heading3 => 3,
            HighlightKind::Heading4 => 4,
            HighlightKind::Heading5 => 5,
            HighlightKind::Heading6 => 6,
            HighlightKind::Bold => 10,
            HighlightKind::Italic => 11,
            HighlightKind::Code => 20,
            HighlightKind::CodeBlock => 21,
            HighlightKind::Link => 30,
            HighlightKind::LinkUrl => 31,
            HighlightKind::ListMarker => 40,
            HighlightKind::BlockQuote => 50,
        }
    }
}

} // verus!
