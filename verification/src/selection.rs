//! A single selection: an anchor/head pair of byte offsets.

use vstd::prelude::*;

verus! {

/// A selection in a document. `anchor` is where the selection started and
/// `head` is where the cursor is. When both are equal the selection is a
/// plain cursor.
#[derive(Debug, Clone, Copy, PartialEq, Eq, Structural)]
pub struct Selection {
    pub anchor: usize,
    pub head: usize,
}

/// `value` limited to the range `[0, max]`.
pub open spec fn clamp_offset(value: int, max: int) -> int {
    if value < 0 {
        0
    } else if value > max {
        max
    } else {
        value
    }
}

impl Selection {
    /// A cursor (empty selection) at `pos`.
    pub open spec fn spec_cursor(pos: usize) -> Selection {
        Selection { anchor: pos, head: pos }
    }

    /// The lower of the two offsets.
    pub open spec fn spec_start(self) -> int {
        if self.anchor <= self.head {
            self.anchor as int
        } else {
            self.head as int
        }
    }

    /// The higher of the two offsets.
    pub open spec fn spec_end(self) -> int {
        if self.anchor <= self.head {
            self.head as int
        } else {
            self.anchor as int
        }
    }

    /// True when the selection covers no text.
    pub open spec fn spec_is_cursor(self) -> bool {
        self.anchor == self.head
    }

    /// True when `pos` lies in the half-open range `[start, end)`.
    pub open spec fn spec_contains(self, pos: int) -> bool {
        self.spec_start() <= pos < self.spec_end()
    }

    /// The selection that `move_by` leaves behind.
    pub open spec fn moved_by(self, delta: int, max: int, extend: bool) -> Selection {
        let new_head = clamp_offset(self.head + delta, max) as usize;
        Selection { anchor: if extend { self.anchor } else { new_head }, head: new_head }
    }

    /// A cursor (empty selection) at `pos`.
    pub fn cursor(pos: usize) -> (sel: Selection)
        ensures
            sel == Selection::spec_cursor(pos),
    {
        Selection { anchor: pos, head: pos }
    }

    /// A selection from `anchor` to `head`.
    pub fn new(anchor: usize, head: usize) -> (sel: Selection)
        ensures
            sel == (Selection { anchor, head }),
    {
        Selection { anchor, head }
    }

    /// True when this is just a cursor.
    pub fn is_cursor(&self) -> (b: bool)
        ensures
            b == self.spec_is_cursor(),
    {
        self.anchor == self.head
    }

    /// The start of the selection: the minimum of anchor and head.
    pub fn start(&self) -> (s: usize)
        ensures
            s == self.spec_start(),
            s <= self.anchor,
            s <= self.head,
    {
        if self.anchor <= self.head {
            self.anchor
        } else {
            self.head
        }
    }

    /// The end of the selection: the maximum of anchor and head.
    pub fn end(&self) -> (e: usize)
        ensures
            e == self.spec_end(),
            e >= self.anchor,
            e >= self.head,
    {
        if self.anchor <= self.head {
            self.head
        } else {
            self.anchor
        }
    }

    /// The number of bytes covered.
    pub fn len(&self) -> (n: usize)
        ensures
            n == self.spec_end() - self.spec_start(),
    {
        self.end() - self.start()
    }

    /// True when the selection covers nothing.
    pub fn is_empty(&self) -> (b: bool)
        ensures
            b == self.spec_is_cursor(),
    {
        self.anchor == self.head
    }

    /// True when `pos` lies within the selection; the end is excluded.
    pub fn contains(&self, pos: usize) -> (b: bool)
        ensures
            b == self.spec_contains(pos as int),
    {
        pos >= self.start() && pos < self.end()
    }

    /// Moves the head by `delta`, keeping it within `[0, max]`. Without
    /// `extend` the anchor follows the head; with it the anchor stays.
    pub fn move_by(&mut self, delta: isize, max: usize, extend: bool)
        ensures
            *final(self) == old(self).moved_by(delta as int, max as int, extend),
    {
        let new_head: usize = if delta < 0 {
            // |delta| without negating isize::MIN
            let back: usize = ((-(delta + 1)) as usize) + 1;
            let lowered: usize = if self.head >= back {
                self.head - back
            } else {
                0
            };
            if lowered > max {
                max
            } else {
                lowered
            }
        } else {
            let forward: usize = delta as usize;
            if self.head >= max || forward >= max - self.head {
                max
            } else {
                self.head + forward
            }
        };
        self.head = new_head;
        if !extend {
            self.anchor = new_head;
        }
    }

    /// Collapses to a cursor at the head.
    pub fn collapse(&mut self)
        ensures
            *final(self) == (Selection { anchor: old(self).head, head: old(self).head }),
    {
        self.anchor = self.head;
    }

    /// Collapses to a cursor at the start.
    pub fn collapse_to_start(&mut self)
        ensures
            final(self).anchor == old(self).spec_start(),
            final(self).head == old(self).spec_start(),
    {
        let start = self.start();
        self.anchor = start;
        self.head = start;
    }

    /// Collapses to a cursor at the end.
    pub fn collapse_to_end(&mut self)
        ensures
            final(self).anchor == old(self).spec_end(),
            final(self).head == old(self).spec_end(),
    {
        let end = self.end();
        self.anchor = end;
        self.head = end;
    }
}

impl Default for Selection {
    /// A cursor at offset 0.
    fn default() -> (sel: Selection)
        ensures
            sel == (Selection { anchor: 0, head: 0 }),
    {
        Selection { anchor: 0, head: 0 }
    }
}

} // verus!
