//! What a drag of the mouse has selected.

use std::ops::Range;

use vstd::prelude::*;

verus! {

/// One of the two panes.
#[derive(Clone, Copy, Debug, PartialEq, Eq, Structural)]
pub enum Pane {
    Left,
    Right,
}

/// A glyph of the diff: the row it stands in, and its bytes there.
#[derive(Clone, Copy, Debug, PartialEq, Eq, PartialOrd, Ord, Structural)]
pub struct Hit {
    pub row: usize,
    pub start: usize,
    pub end: usize,
}

impl Hit {
    /// Whether a glyph comes before another one, or is the same.
    pub open spec fn up_to(self, other: Hit) -> bool {
        self.row < other.row || (self.row == other.row && (self.start < other.start || (self.start
            == other.start && self.end <= other.end)))
    }

    /// Whether a glyph comes before another one, or is the same.
    fn is_up_to(self, other: Hit) -> (b: bool)
        ensures
            b == self.up_to(other),
    {
        self.row < other.row || (self.row == other.row && (self.start < other.start || (self.start
            == other.start && self.end <= other.end)))
    }
}

/// A selection: the pane it belongs to, the glyph where it began, the glyph it
/// reaches to, and whether it has been drawn out from the one to the other.
#[derive(Clone, Copy, Debug, PartialEq, Eq, Structural)]
pub struct Selection {
    pub pane: Pane,
    pub anchor: Hit,
    pub head: Hit,
    pub dragged: bool,
}

impl Selection {
    /// The earlier of the two ends.
    pub open spec fn first(self) -> Hit {
        if self.anchor.up_to(self.head) {
            self.anchor
        } else {
            self.head
        }
    }

    /// The later of the two ends.
    pub open spec fn last(self) -> Hit {
        if self.anchor.up_to(self.head) {
            self.head
        } else {
            self.anchor
        }
    }

    /// The bytes of a line of `len` bytes that are selected: from the beginning of
    /// the first glyph up to the end of the last one, and whole lines between.
    pub open spec fn bytes(self, pane: Pane, row: nat, len: nat) -> Option<Range<usize>> {
        let from = if row == self.first().row {
            self.first().start as nat
        } else {
            0
        };
        let to = if row == self.last().row {
            self.last().end as nat
        } else {
            len
        };
        if pane == self.pane && self.first().row <= row <= self.last().row && from <= to {
            Some(Range { start: from as usize, end: to as usize })
        } else {
            None
        }
    }

    /// The selection from its other end.
    pub open spec fn turned(self) -> Selection {
        Selection { anchor: self.head, head: self.anchor, ..self }
    }

    /// The bytes of a line that are selected.
    pub fn range_for(self, pane: Pane, row: usize, len: usize) -> (range: Option<Range<usize>>)
        ensures
            range == self.bytes(pane, row as nat, len as nat),
    {
        if pane != self.pane {
            return None;
        }
        let (start, end) = if self.anchor.is_up_to(self.head) {
            (self.anchor, self.head)
        } else {
            (self.head, self.anchor)
        };
        if row < start.row || row > end.row {
            return None;
        }
        let from: usize = if row == start.row {
            start.start
        } else {
            0
        };
        let to: usize = if row == end.row {
            end.end
        } else {
            len
        };
        if from <= to {
            Some(from..to)
        } else {
            None
        }
    }
}

/// Dragging backwards selects what dragging forwards does.
pub proof fn law_reverse_drag(selection: Selection, pane: Pane, row: nat, len: nat)
    ensures
        selection.turned().bytes(pane, row, len) == selection.bytes(pane, row, len),
{
}

/// A selection stays in the pane it began in.
pub proof fn law_selection_keeps_to_its_pane(selection: Selection, pane: Pane, row: nat, len: nat)
    requires
        pane != selection.pane,
    ensures
        selection.bytes(pane, row, len) is None,
{
}

/// A line between the two ends is selected whole.
pub proof fn law_lines_between_are_whole(selection: Selection, row: nat, len: nat)
    requires
        selection.first().row < row < selection.last().row,
        len <= usize::MAX,
    ensures
        selection.bytes(selection.pane, row, len) == Some(Range { start: 0, end: len as usize }),
{
}

/// Within one line, both the glyph where a selection begins and the one where it
/// ends are selected, and what is between.
pub proof fn law_both_ends_are_selected(selection: Selection, len: nat)
    requires
        selection.anchor.row == selection.head.row,
        selection.first().start <= selection.last().end,
    ensures
        selection.bytes(selection.pane, selection.anchor.row as nat, len) == Some(
            Range { start: selection.first().start, end: selection.last().end },
        ),
{
}

} // verus!
