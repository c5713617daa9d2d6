//! The state of the viewer as a value: what is visible, where things stand on
//! the screen, and what every operation makes of it.

use std::ops::Range;

use vstd::prelude::*;

use crate::bytes::{boundary, byte_len, byte_slice};
use crate::diff::{CellView, RowView};
use crate::sections::{counts_of, is_headed, largest_no, sections_of, sections_wf, FileSection};
use crate::segments::{row_lines, side_segments, VisualGlyph};
use crate::selection::{Hit, Pane, Selection};
use crate::style::{failure, success, Style};
use crate::text::{decimal, joined};

verus! {

/// A line of the screen: a row of the diff, and which of its lines.
#[derive(Clone, Copy, Debug, PartialEq, Eq, Structural)]
pub struct ScreenRow {
    pub source: usize,
    pub segment: usize,
}

/// The state of the viewer.
#[verifier::ext_equal]
pub struct AppView {
    pub rows: Seq<RowView>,
    pub scroll: usize,
    pub gutter_w: usize,
    pub stats: Map<usize, (u32, u32)>,
    pub sections: Seq<FileSection>,
    pub pane_ratio: Option<(usize, usize)>,
    pub resizing_divider: bool,
    pub preserve_scroll: Option<usize>,
    pub selection: Option<Selection>,
    pub status: Option<(Seq<char>, Style)>,
}

/// A number, at least 0.
pub open spec fn nonneg(n: int) -> nat {
    if n < 0 {
        0
    } else {
        n as nat
    }
}

/// The smaller of two numbers.
pub open spec fn smaller(a: nat, b: nat) -> nat {
    if a < b {
        a
    } else {
        b
    }
}

/// A number, at least `low` and at most `high`.
pub open spec fn between(n: nat, low: nat, high: nat) -> nat {
    if n < low {
        low
    } else if n > high {
        high
    } else {
        n
    }
}

/// How wide the gutters are: as wide as the largest line number, at least four
/// digits, and a space.
pub open spec fn gutter_for(largest: u32) -> nat {
    let digits = decimal(largest as nat).len();
    if digits < 4 {
        5
    } else {
        digits + 1
    }
}

/// The first glyph over a column.
pub open spec fn first_over(glyphs: Seq<VisualGlyph>, x: nat) -> Option<VisualGlyph>
    decreases glyphs.len(),
{
    if glyphs.len() == 0 {
        None
    } else if glyphs[0].columns.start <= x < glyphs[0].columns.end {
        Some(glyphs[0])
    } else {
        first_over(glyphs.drop_first(), x)
    }
}

/// The glyph that a column belongs to: the one over it, or the first one where
/// the column lies before it, or else the last one.
pub open spec fn glyph_at(glyphs: Seq<VisualGlyph>, x: nat) -> Option<VisualGlyph> {
    if first_over(glyphs, x) is Some {
        first_over(glyphs, x)
    } else if glyphs.len() == 0 {
        None
    } else if x < glyphs[0].columns.start {
        Some(glyphs[0])
    } else {
        Some(glyphs.last())
    }
}

impl AppView {
    /// The state in which a diff is first shown.
    pub open spec fn initial(rows: Seq<RowView>) -> AppView {
        AppView {
            rows,
            scroll: 0,
            gutter_w: gutter_for(largest_no(rows, rows.len() as int)) as usize,
            stats: counts_of(rows),
            sections: sections_of(rows),
            pane_ratio: None,
            resizing_divider: false,
            preserve_scroll: None,
            selection: None,
            status: None,
        }
    }

    /// Whether the state is sound: the sections lie in order within the rows, the
    /// gutter holds a line number, and a selection begins and ends at text.
    pub open spec fn wf(self) -> bool {
        &&& self.rows.len() <= usize::MAX
        &&& sections_wf(self.sections, self.rows)
        &&& 5 <= self.gutter_w <= 11
        &&& self.selection matches Some(s) ==> self.is_text(s.pane, s.anchor) && self.is_text(
            s.pane,
            s.head,
        )
    }

    // -----------------------------------------------------------------------
    // Sections and visibility
    // -----------------------------------------------------------------------

    /// The section that a row belongs to.
    pub open spec fn section_of(self, row: int) -> Option<int> {
        if exists|i: int| 0 <= i < self.sections.len() && (#[trigger] self.sections[i]).holds(row) {
            Some(
                choose|i: int|
                    0 <= i < self.sections.len() && (#[trigger] self.sections[i]).holds(row),
            )
        } else {
            None
        }
    }

    /// Whether a row is visible: no collapsed section hides it.
    pub open spec fn visible(self, row: int) -> bool {
        forall|i: int| 0 <= i < self.sections.len() ==> !(#[trigger] self.sections[i]).hides(row)
    }

    /// Whether a row is the header of a collapsed section.
    pub open spec fn header_is_collapsed(self, row: int) -> bool {
        exists|i: int|
            0 <= i < self.sections.len() && (#[trigger] self.sections[i]).header == row
                && self.sections[i].collapsed
    }

    /// Whether a row is the header of a section.
    pub open spec fn is_header(self, row: int) -> bool {
        is_headed(self.sections, row)
    }

    /// The visible ones of the rows from `from` up to `to`.
    pub open spec fn visible_between(self, from: int, to: int) -> Seq<usize>
        decreases to - from,
    {
        if from >= to {
            seq![]
        } else if self.visible(to - 1) {
            self.visible_between(from, to - 1).push((to - 1) as usize)
        } else {
            self.visible_between(from, to - 1)
        }
    }

    /// The first visible row from `from` on.
    pub open spec fn next_visible(self, from: int) -> Option<usize>
        decreases self.rows.len() - from,
    {
        if from >= self.rows.len() {
            None
        } else if self.visible(from) {
            Some(from as usize)
        } else {
            self.next_visible(from + 1)
        }
    }

    /// The last visible row before `to`.
    pub open spec fn last_visible(self, to: int) -> Option<usize>
        decreases to,
    {
        if to <= 0 {
            None
        } else if self.visible(to - 1) {
            Some((to - 1) as usize)
        } else {
            self.last_visible(to - 1)
        }
    }

    /// The header that stays at the top while the body below it scrolls: that of the
    /// open section whose body `row` belongs to.
    pub open spec fn sticky(self, row: int) -> Option<usize> {
        match self.section_of(row) {
            Some(i) => if !self.sections[i].collapsed && row > self.sections[i].header {
                Some(self.sections[i].header)
            } else {
                None
            },
            None => None,
        }
    }

    /// The header of the first section, from the `i`-th on, behind the scroll
    /// position.
    pub open spec fn header_after(self, i: int) -> Option<usize>
        decreases self.sections.len() - i,
    {
        if i >= self.sections.len() {
            None
        } else if self.sections[i].header > self.scroll {
            Some(self.sections[i].header)
        } else {
            self.header_after(i + 1)
        }
    }

    /// The header of the last of the first `n` sections before the scroll position.
    pub open spec fn header_before(self, n: int) -> Option<usize>
        decreases n,
    {
        if n <= 0 {
            None
        } else if self.sections[n - 1].header < self.scroll {
            Some(self.sections[n - 1].header)
        } else {
            self.header_before(n - 1)
        }
    }

    /// The next or the previous file header.
    pub open spec fn file_from_here(self, forward: bool) -> Option<usize> {
        if forward {
            self.header_after(0)
        } else {
            self.header_before(self.sections.len() as int)
        }
    }

    // -----------------------------------------------------------------------
    // Layout
    // -----------------------------------------------------------------------

    /// How many columns each pane keeps at least.
    pub open spec fn min_pane(self, width: nat) -> nat {
        smaller((self.gutter_w + 1) as nat, nonneg(width - 1) / 2)
    }

    /// How wide the left pane would be by the ratio of the panes.
    pub open spec fn preferred_left(self, width: nat) -> nat {
        let available = nonneg(width - 1);
        match self.pane_ratio {
            Some((left, total)) => if total > 0 {
                smaller((available * left) as nat, usize::MAX as nat) / total as nat
            } else {
                available / 2
            },
            None => available / 2,
        }
    }

    /// The widths of the two panes; a column between them is the divider's.
    pub open spec fn widths(self, width: nat) -> (nat, nat) {
        let available = nonneg(width - 1);
        let min = self.min_pane(width);
        let left = between(self.preferred_left(width), min, nonneg(available - min));
        (left, nonneg(available - left))
    }

    /// How many lines a row takes.
    pub open spec fn height(self, row: int, width: nat) -> nat {
        let (left_w, right_w) = self.widths(width);
        row_lines(self.rows[row], left_w, right_w, self.gutter_w as nat)
    }

    /// How many lines the visible rows from `row` on take.
    pub open spec fn tail_lines(self, row: int, width: nat) -> nat
        decreases self.rows.len() - row,
    {
        if row >= self.rows.len() {
            0
        } else {
            self.tail_lines(row + 1, width) + if self.visible(row) {
                self.height(row, width)
            } else {
                0
            }
        }
    }

    /// How many lines are left below the sticky header, if there is one, when `row`
    /// is at the top; the last line of the screen is the footer.
    pub open spec fn capacity(self, row: int, height: nat) -> nat {
        nonneg(
            height - 1 - if self.sticky(row) is Some {
                1int
            } else {
                0
            },
        )
    }

    /// Whether everything from `row` on fits the screen.
    pub open spec fn tail_fits(self, row: int, width: nat, height: nat) -> bool {
        self.tail_lines(row, width) <= self.capacity(row, height)
    }

    /// The first visible row, from `from` on, from which everything fits.
    pub open spec fn first_fitting(self, from: int, width: nat, height: nat) -> Option<usize>
        decreases self.rows.len() - from,
    {
        if from >= self.rows.len() {
            None
        } else if self.visible(from) && self.tail_fits(from, width, height) {
            Some(from as usize)
        } else {
            self.first_fitting(from + 1, width, height)
        }
    }

    /// How far the view scrolls: to the first row from which everything fits, or to
    /// the last row where that alone is too tall.
    pub open spec fn scroll_limit(self, width: nat, height: nat) -> usize {
        match self.first_fitting(0, width, height) {
            Some(row) => row,
            None => match self.last_visible(self.rows.len() as int) {
                Some(row) => row,
                None => 0,
            },
        }
    }

    /// The line `y` lines below the top of `row`.
    pub open spec fn line_below(self, row: int, y: nat, width: nat) -> Option<ScreenRow>
        decreases self.rows.len() - row,
    {
        if row >= self.rows.len() {
            None
        } else if !self.visible(row) {
            self.line_below(row + 1, y, width)
        } else if y < self.height(row, width) {
            Some(ScreenRow { source: row as usize, segment: y as usize })
        } else {
            self.line_below(row + 1, (y - self.height(row, width)) as nat, width)
        }
    }

    /// What stands on a line of the screen: the sticky header at the top, below it
    /// the rows from the scroll position on; nothing on the footer.
    pub open spec fn on_screen(self, y: nat, width: nat, height: nat) -> Option<ScreenRow> {
        if y >= nonneg(height - 1) {
            None
        } else {
            match self.sticky(self.scroll as int) {
                Some(header) => if y == 0 {
                    Some(ScreenRow { source: header, segment: 0 })
                } else {
                    self.line_below(self.scroll as int, (y - 1) as nat, width)
                },
                None => self.line_below(self.scroll as int, y, width),
            }
        }
    }

    // -----------------------------------------------------------------------
    // Text under the mouse
    // -----------------------------------------------------------------------

    /// The cell of a row in a pane.
    pub open spec fn cell_at(self, pane: Pane, row: int) -> Option<CellView> {
        match self.rows[row] {
            RowView::Line { left, right } => match pane {
                Pane::Left => left,
                Pane::Right => right,
            },
            _ => None,
        }
    }

    /// Whether a glyph stands for whole characters of a cell in a pane.
    pub open spec fn is_text(self, pane: Pane, hit: Hit) -> bool {
        &&& hit.row < self.rows.len()
        &&& hit.start < hit.end
        &&& self.cell_at(pane, hit.row as int) matches Some(cell) && boundary(
            cell.text,
            hit.start as int,
        ) && boundary(cell.text, hit.end as int)
    }

    /// The width of a pane, and the column of it that is nearest to a column of the
    /// screen; nothing where the pane has no columns.
    pub open spec fn pane_column(self, pane: Pane, x: nat, width: nat) -> Option<(nat, nat)> {
        let (left_w, right_w) = self.widths(width);
        match pane {
            Pane::Left => if left_w > 0 {
                Some((left_w, smaller(x, (left_w - 1) as nat)))
            } else {
                None
            },
            Pane::Right => if right_w > 0 {
                Some((right_w, smaller(nonneg(x - left_w - 1), (right_w - 1) as nat)))
            } else {
                None
            },
        }
    }

    /// The glyph of a pane at a place on the screen.
    pub open spec fn hit_at(self, pane: Pane, x: nat, y: nat, width: nat, height: nat) -> Option<
        Hit,
    > {
        match (self.pane_column(pane, x, width), self.on_screen(y, width, height)) {
            (Some((pane_w, col)), Some(at)) => match self.cell_at(pane, at.source as int) {
                Some(cell) => {
                    let segments = side_segments(Some(cell), pane_w, self.gutter_w as nat, None);
                    if at.segment < segments.len() {
                        match glyph_at(segments[at.segment as int].glyphs, col) {
                            Some(glyph) => Some(
                                Hit {
                                    row: at.source,
                                    start: glyph.bytes.start,
                                    end: glyph.bytes.end,
                                },
                            ),
                            None => None,
                        }
                    } else {
                        None
                    }
                },
                None => None,
            },
            _ => None,
        }
    }

    /// The selected bytes of a row.
    pub open spec fn selected_bytes(self, selection: Selection, row: int) -> Option<Range<usize>> {
        match self.cell_at(selection.pane, row) {
            Some(cell) => if self.visible(row) {
                selection.bytes(selection.pane, row as nat, byte_len(cell.text))
            } else {
                None
            },
            None => None,
        }
    }

    /// Whether the selected bytes of a row, whose length a `usize` holds, are whole
    /// characters.
    pub open spec fn cuts_no_character(self, selection: Selection, row: int) -> bool {
        match (self.selected_bytes(selection, row), self.cell_at(selection.pane, row)) {
            (Some(bytes), Some(cell)) => byte_len(cell.text) <= usize::MAX ==> boundary(
                cell.text,
                bytes.start as int,
            ) && boundary(cell.text, bytes.end as int),
            _ => true,
        }
    }

    /// Whether a selection lies within the rows and cuts no character.
    pub open spec fn selectable(self, selection: Selection) -> bool {
        &&& selection.last().row < self.rows.len()
        &&& forall|row: int|
            0 <= row < self.rows.len() ==> #[trigger] self.cuts_no_character(selection, row)
    }

    /// The selected text of the rows from `from` up to `to`, row by row.
    pub open spec fn selected_parts(self, selection: Selection, from: int, to: int) -> Seq<
        Seq<char>,
    >
        decreases to - from,
    {
        if from >= to {
            seq![]
        } else {
            let before = self.selected_parts(selection, from, to - 1);
            match self.selected_bytes(selection, to - 1) {
                Some(bytes) => before.push(
                    byte_slice(
                        self.cell_at(selection.pane, to - 1)->0.text,
                        bytes.start as int,
                        bytes.end as int,
                    ),
                ),
                None => before,
            }
        }
    }

    /// The selected text.
    pub open spec fn selected_text(self, selection: Selection) -> Seq<char> {
        joined(
            self.selected_parts(
                selection,
                selection.first().row as int,
                selection.last().row + 1,
            ),
            "\n"@,
        )
    }

    // -----------------------------------------------------------------------
    // Operations
    // -----------------------------------------------------------------------

    /// With a message of success in the footer.
    pub open spec fn with_status(self, text: Seq<char>) -> AppView {
        AppView { status: Some((text, success())), ..self }
    }

    /// With a message of failure in the footer.
    pub open spec fn with_error(self, text: Seq<char>) -> AppView {
        AppView { status: Some((text, failure())), ..self }
    }

    /// Without a message.
    pub open spec fn without_status(self) -> AppView {
        AppView { status: None, ..self }
    }

    /// With neither a selection nor a divider being moved.
    pub open spec fn cancelled(self) -> AppView {
        AppView { selection: None, resizing_divider: false, ..self }
    }

    /// At another scroll position.
    pub open spec fn scrolled_to(self, row: usize) -> AppView {
        AppView { scroll: row, ..self }
    }

    /// Without a scroll position to be kept.
    pub open spec fn unpreserved(self) -> AppView {
        AppView { preserve_scroll: None, ..self }
    }

    /// With a section collapsed, or opened again.
    pub open spec fn toggled(self, i: int) -> AppView {
        let s = self.sections[i];
        AppView {
            sections: self.sections.update(i, FileSection { collapsed: !s.collapsed, ..s }),
            ..self
        }
    }

    /// With the section at the scroll position toggled, and its header at the top.
    pub open spec fn current_toggled(self) -> AppView {
        match self.section_of(self.scroll as int) {
            Some(i) => self.cancelled().unpreserved().toggled(i).scrolled_to(
                self.sections[i].header,
            ),
            None => self,
        }
    }

    /// The section whose header stands on a line of the screen.
    pub open spec fn section_on_screen(self, y: nat, width: nat, height: nat) -> Option<int> {
        match self.on_screen(y, width, height) {
            Some(at) => match self.section_of(at.source as int) {
                Some(i) => if self.sections[i].header == at.source {
                    Some(i)
                } else {
                    None
                },
                None => None,
            },
            None => None,
        }
    }

    /// With the section toggled whose header stands on a line of the screen. One at
    /// the top stays there; otherwise what is above stays.
    pub open spec fn toggled_at(self, y: nat, width: nat, height: nat) -> AppView {
        match self.section_on_screen(y, width, height) {
            Some(i) => if y == 0 {
                self.cancelled().unpreserved().toggled(i).scrolled_to(self.sections[i].header)
            } else {
                AppView { preserve_scroll: Some(self.scroll), ..self.cancelled().toggled(i) }
            },
            None => self,
        }
    }

    /// Where `count` steps down lead from a row: from one visible row to the next,
    /// and no further than `max`.
    pub open spec fn steps_down(self, row: usize, count: nat, max: usize) -> usize
        decreases count,
    {
        if count == 0 {
            row
        } else {
            match self.next_visible(row + 1) {
                Some(next) => if next > max {
                    max
                } else {
                    self.steps_down(next, (count - 1) as nat, max)
                },
                None => row,
            }
        }
    }

    /// Where `count` steps up lead from a row.
    pub open spec fn steps_up(self, row: usize, count: nat) -> usize
        decreases count,
    {
        if count == 0 {
            row
        } else {
            match self.last_visible(row as int) {
                Some(previous) => self.steps_up(previous, (count - 1) as nat),
                None => row,
            }
        }
    }

    /// Scrolled down.
    pub open spec fn scrolled_down(self, count: nat, max: usize) -> AppView {
        self.unpreserved().scrolled_to(self.steps_down(self.scroll, count, max))
    }

    /// Scrolled up.
    pub open spec fn scrolled_up(self, count: nat) -> AppView {
        self.unpreserved().scrolled_to(self.steps_up(self.scroll, count))
    }

    /// Scrolled back to `max` where the position is past it, unless it is to be kept
    /// or is a file header.
    pub open spec fn normalized(self, max: usize) -> AppView {
        if self.preserve_scroll == Some(self.scroll) {
            self
        } else if self.scroll > max && !self.is_header(self.scroll as int) {
            self.unpreserved().scrolled_to(max)
        } else {
            self.unpreserved()
        }
    }

    /// Whether a place on the screen is on the divider.
    pub open spec fn on_divider(self, x: nat, y: nat, width: nat, height: nat) -> bool {
        width > 1 && y < nonneg(height - 1) && x == self.widths(width).0
    }

    /// With the divider grabbed, where the mouse is on it.
    pub open spec fn resize_begun(self, x: nat, y: nat, width: nat, height: nat) -> AppView {
        if self.on_divider(x, y, width, height) {
            AppView {
                resizing_divider: true,
                preserve_scroll: None,
                selection: None,
                ..self
            }
        } else {
            AppView { resizing_divider: false, ..self }
        }
    }

    /// With the divider, where it is grabbed, moved to a column of the screen.
    pub open spec fn resize_dragged(self, x: nat, width: nat) -> AppView {
        let available = nonneg(width - 1);
        let min = self.min_pane(width);
        if self.resizing_divider && available > 0 {
            let left = between(smaller(x, available), min, nonneg(available - min));
            AppView { pane_ratio: Some((left as usize, available as usize)), ..self }
        } else {
            self
        }
    }

    /// With the divider released.
    pub open spec fn resize_finished(self) -> AppView {
        AppView { resizing_divider: false, ..self }
    }

    /// With panes of equal width.
    pub open spec fn panes_reset(self) -> AppView {
        AppView { pane_ratio: None, resizing_divider: false, preserve_scroll: None, ..self }
    }

    /// The pane at a column of the screen; none at the divider.
    pub open spec fn pane_at(self, x: nat, width: nat) -> Option<Pane> {
        if x < self.widths(width).0 {
            Some(Pane::Left)
        } else if x > self.widths(width).0 {
            Some(Pane::Right)
        } else {
            None
        }
    }

    /// With a selection begun at a place on the screen, where there is text.
    pub open spec fn selection_begun(self, x: nat, y: nat, width: nat, height: nat) -> AppView {
        let hit = match self.pane_at(x, width) {
            Some(pane) => self.hit_at(pane, x, y, width, height),
            None => None,
        };
        AppView {
            resizing_divider: false,
            selection: match (self.pane_at(x, width), hit) {
                (Some(pane), Some(hit)) => Some(
                    Selection { pane, anchor: hit, head: hit, dragged: false },
                ),
                _ => None,
            },
            ..self
        }
    }

    /// With the selection drawn out to a place on the screen, where its pane has
    /// text there.
    pub open spec fn selection_dragged(self, x: nat, y: nat, width: nat, height: nat) -> AppView {
        match self.selection {
            Some(selection) => match self.hit_at(selection.pane, x, y, width, height) {
                Some(hit) => AppView {
                    selection: Some(
                        Selection { head: hit, dragged: hit != selection.anchor, ..selection },
                    ),
                    ..self
                },
                None => self,
            },
            None => self,
        }
    }

    /// The text of a selection that has been drawn out.
    pub open spec fn text_to_copy(self) -> Option<Seq<char>> {
        match self.selection {
            Some(selection) => if selection.dragged && self.selected_text(selection).len() > 0 {
                Some(self.selected_text(selection))
            } else {
                None
            },
            None => None,
        }
    }

    /// Without a selection.
    pub open spec fn selection_finished(self) -> AppView {
        AppView { selection: None, ..self }
    }
}

} // verus!
