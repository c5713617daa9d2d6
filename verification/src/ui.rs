//! The viewer: the rows of a diff, what of them is shown, and what the user has
//! grabbed or selected.

use std::collections::HashMap;

use vstd::prelude::*;

use crate::bytes::{boundary, byte_len, lemma_boundary, len_of, slice_of};
use crate::diff::{row_views, Cell, Row, RowView};
use crate::sections::{
    counts_fit, file_counts, file_sections, largest_number, lemma_toggled_sections, FileSection,
};
use crate::segments::{
    cell_segments, glyphs_in_text, law_selection_keeps_height, row_height, segment_views,
    VisualGlyph,
};
use crate::selection::{Hit, Pane, Selection};
use crate::state::{between, first_over, glyph_at, smaller, AppView, ScreenRow};
use crate::style::{failure, success, Style};
use crate::text::{decimal_len, join, strings};

verus! {

/// The viewer.
pub struct App {
    pub rows: Vec<Row>,
    /// the row at the top
    pub scroll: usize,
    pub gutter_w: usize,
    /// file header row → how many lines its section adds and deletes
    pub stats: HashMap<usize, (u32, u32)>,
    pub sections: Vec<FileSection>,
    /// the width of the left pane, out of the width of both
    pub pane_ratio: Option<(usize, usize)>,
    pub resizing_divider: bool,
    /// a scroll position that stays though it is past the limit
    pub preserve_scroll: Option<usize>,
    pub selection: Option<Selection>,
    /// a message in place of the footer
    pub status: Option<(String, Style)>,
}

impl View for App {
    type V = AppView;

    open spec fn view(&self) -> AppView {
        AppView {
            rows: row_views(self.rows@),
            scroll: self.scroll,
            gutter_w: self.gutter_w,
            stats: self.stats@,
            sections: self.sections@,
            pane_ratio: self.pane_ratio,
            resizing_divider: self.resizing_divider,
            preserve_scroll: self.preserve_scroll,
            selection: self.selection,
            status: match self.status {
                Some((text, style)) => Some((text@, style)),
                None => None,
            },
        }
    }
}

// ---------------------------------------------------------------------------
// Sections and visibility
// ---------------------------------------------------------------------------

/// A row belongs to one section at most.
pub proof fn lemma_section_of(app: AppView, i: int, row: int)
    requires
        app.wf(),
        0 <= i < app.sections.len(),
        app.sections[i].holds(row),
    ensures
        app.section_of(row) == Some(i),
{
    let j = app.section_of(row)->0;
    assert(0 <= j < app.sections.len() && app.sections[j].holds(row));
    if i < j {
        assert(app.sections[i].body.end <= app.sections[j].header);
    } else if j < i {
        assert(app.sections[j].body.end <= app.sections[i].header);
    }
}

/// A row is hidden by the section it belongs to, or not at all.
pub proof fn lemma_visible(app: AppView, row: int)
    requires
        app.wf(),
    ensures
        app.visible(row) == match app.section_of(row) {
            Some(i) => !app.sections[i].hides(row),
            None => true,
        },
{
    if app.visible(row) {
    } else {
        let i = choose|i: int|
            0 <= i < app.sections.len() && (#[trigger] app.sections[i]).hides(row);
        assert(app.sections[i].holds(row));
        lemma_section_of(app, i, row);
    }
}

impl App {
    /// Whether the state of the viewer is sound.
    pub open spec fn wf(&self) -> bool {
        self@.wf()
    }

    /// The viewer on a diff, at its top, with every file open.
    pub fn new(rows: Vec<Row>) -> (app: App)
        requires
            counts_fit(row_views(rows@)),
        ensures
            app@ == AppView::initial(row_views(rows@)),
            app.wf(),
    {
        let largest: u32 = largest_number(&rows);
        let digits: usize = decimal_len(largest);
        let gutter_w: usize = if digits < 4 {
            5
        } else {
            digits + 1
        };
        let sections = file_sections(&rows);
        let stats = file_counts(&rows);
        assert(rows.len() == rows@.len());
        App {
            rows,
            scroll: 0,
            gutter_w,
            stats,
            sections,
            pane_ratio: None,
            resizing_divider: false,
            preserve_scroll: None,
            selection: None,
            status: None,
        }
    }

    /// The section that a row belongs to.
    pub fn section_index_for_row(&self, row: usize) -> (found: Option<usize>)
        requires
            self.wf(),
        ensures
            match found {
                Some(i) => i < self@.sections.len() && self@.section_of(row as int) == Some(
                    i as int,
                ),
                None => self@.section_of(row as int) is None,
            },
            found matches Some(i) ==> self@.sections[i as int].holds(row as int),
    {
        let mut low: usize = 0;
        let mut high: usize = self.sections.len();
        while low < high
            invariant
                self.wf(),
                low <= high <= self.sections@.len(),
                forall|i: int| 0 <= i < low ==> (#[trigger] self.sections@[i]).header <= row,
                forall|i: int|
                    high <= i < self.sections@.len() ==> (#[trigger] self.sections@[i]).header
                        > row,
            decreases high - low,
        {
            let mid: usize = low + (high - low) / 2;
            if self.sections[mid].header <= row {
                low = mid + 1;
            } else {
                high = mid;
            }
        }
        if low > 0 && row < self.sections[low - 1].body.end {
            proof {
                lemma_section_of(self@, low - 1, row as int);
            }
            Some(low - 1)
        } else {
            proof {
                assert forall|i: int| 0 <= i < self@.sections.len() implies !(
                #[trigger] self@.sections[i]).holds(row as int) by {
                    if i < low - 1 {
                        assert(self@.sections[i].body.end <= self@.sections[low - 1].header);
                    }
                }
            }
            None
        }
    }

    /// Whether a row is visible.
    pub fn row_visible(&self, row: usize) -> (b: bool)
        requires
            self.wf(),
        ensures
            b == self@.visible(row as int),
    {
        proof {
            lemma_visible(self@, row as int);
        }
        match self.section_index_for_row(row) {
            Some(i) => row == self.sections[i].header || !self.sections[i].collapsed,
            None => true,
        }
    }

    /// Whether a row is the header of a collapsed section.
    pub fn header_collapsed(&self, row: usize) -> (b: bool)
        requires
            self.wf(),
        ensures
            b == self@.header_is_collapsed(row as int),
    {
        match self.section_index_for_row(row) {
            Some(i) => {
                let b = self.sections[i].header == row && self.sections[i].collapsed;
                proof {
                    if self@.header_is_collapsed(row as int) {
                        let j = choose|j: int|
                            0 <= j < self@.sections.len() && (#[trigger] self@.sections[j]).header
                                == row && self@.sections[j].collapsed;
                        lemma_section_of(self@, j, row as int);
                    } else {
                        assert(!(self@.sections[i as int].header == row
                            && self@.sections[i as int].collapsed));
                    }
                }
                b
            },
            None => {
                proof {
                    if self@.header_is_collapsed(row as int) {
                        let j = choose|j: int|
                            0 <= j < self@.sections.len() && (#[trigger] self@.sections[j]).header
                                == row && self@.sections[j].collapsed;
                        lemma_section_of(self@, j, row as int);
                    }
                }
                false
            },
        }
    }

    /// The visible rows.
    pub fn visible_rows(&self) -> (r: Vec<usize>)
        requires
            self.wf(),
        ensures
            r@ == self@.visible_between(0, self@.rows.len() as int),
    {
        self.visible_rows_from(0)
    }

    /// The visible rows from a row on.
    pub fn visible_rows_from(&self, start: usize) -> (r: Vec<usize>)
        requires
            self.wf(),
        ensures
            r@ == self@.visible_between(start as int, self@.rows.len() as int),
    {
        let mut r: Vec<usize> = Vec::new();
        let mut row: usize = start;
        while row < self.rows.len()
            invariant
                self.wf(),
                start <= row,
                row <= self@.rows.len() || row == start,
                r@ == self@.visible_between(start as int, row as int),
            decreases self.rows@.len() - row,
        {
            if self.row_visible(row) {
                r.push(row);
            }
            row += 1;
        }
        r
    }

    /// The header that stays at the top.
    pub fn sticky_header(&self) -> (header: Option<usize>)
        requires
            self.wf(),
        ensures
            header == self@.sticky(self@.scroll as int),
    {
        self.sticky_header_for(self.scroll)
    }

    /// The header that stays at the top when `row` is the first one below it.
    pub fn sticky_header_for(&self, row: usize) -> (header: Option<usize>)
        requires
            self.wf(),
        ensures
            header == self@.sticky(row as int),
    {
        match self.section_index_for_row(row) {
            Some(i) => if !self.sections[i].collapsed && row > self.sections[i].header {
                Some(self.sections[i].header)
            } else {
                None
            },
            None => None,
        }
    }

    /// The next or the previous file header.
    pub fn file_jump(&self, forward: bool) -> (header: Option<usize>)
        ensures
            header == self@.file_from_here(forward),
    {
        if forward {
            let mut i: usize = 0;
            while i < self.sections.len()
                invariant
                    forward,
                    i <= self.sections@.len(),
                    self@.header_after(0) == self@.header_after(i as int),
                decreases self.sections@.len() - i,
            {
                if self.sections[i].header > self.scroll {
                    return Some(self.sections[i].header);
                }
                i += 1;
            }
            None
        } else {
            let mut n: usize = self.sections.len();
            while n > 0
                invariant
                    !forward,
                    n <= self.sections@.len(),
                    self@.header_before(self.sections@.len() as int) == self@.header_before(
                        n as int,
                    ),
                decreases n,
            {
                if self.sections[n - 1].header < self.scroll {
                    return Some(self.sections[n - 1].header);
                }
                n -= 1;
            }
            None
        }
    }
}

// ---------------------------------------------------------------------------
// Layout
// ---------------------------------------------------------------------------

/// A number, at least `low` and at most `high`.
fn clamped(n: usize, low: usize, high: usize) -> (r: usize)
    ensures
        r == between(n as nat, low as nat, high as nat),
{
    if n < low {
        low
    } else if n > high {
        high
    } else {
        n
    }
}

/// Two numbers multiplied, at most the largest there is.
fn product(a: usize, b: usize) -> (r: usize)
    ensures
        r == smaller((a * b) as nat, usize::MAX as nat),
{
    match a.checked_mul(b) {
        Some(r) => r,
        None => usize::MAX,
    }
}

impl App {
    /// How many columns each pane keeps at least.
    fn min_width(&self, width: usize) -> (min: usize)
        requires
            self.wf(),
        ensures
            min == self@.min_pane(width as nat),
    {
        let half: usize = width.saturating_sub(1) / 2;
        if self.gutter_w + 1 < half {
            self.gutter_w + 1
        } else {
            half
        }
    }

    /// The widths of the two panes.
    pub fn pane_widths(&self, width: usize) -> (widths: (usize, usize))
        requires
            self.wf(),
        ensures
            widths.0 == self@.widths(width as nat).0,
            widths.1 == self@.widths(width as nat).1,
            widths.0 + widths.1 == (if width == 0 {
                0int
            } else {
                width - 1
            }),
    {
        let available: usize = width.saturating_sub(1);
        let min: usize = self.min_width(width);
        let preferred: usize = match self.pane_ratio {
            Some((left, total)) => if total > 0 {
                product(available, left) / total
            } else {
                available / 2
            },
            None => available / 2,
        };
        let left: usize = clamped(preferred, min, available - min);
        (left, available - left)
    }

    /// How far the view scrolls in a window of the given size: to the first row
    /// from which everything fits, or to the last row where that alone is too tall.
    pub fn max_scroll(&self, w: usize, viewport_h: usize) -> (max: usize)
        requires
            self.wf(),
        ensures
            max == self@.scroll_limit(w as nat, viewport_h as nat),
    {
        let ghost app = self@;
        let body_h: usize = viewport_h.saturating_sub(1);
        let (left_w, right_w) = self.pane_widths(w);
        let mut height: usize = 0;
        let mut next: Option<usize> = None;
        let mut row: usize = self.rows.len();
        while row > 0
            invariant
                self.wf(),
                app == self@,
                body_h == viewport_h.saturating_sub(1),
                left_w == app.widths(w as nat).0,
                right_w == app.widths(w as nat).1,
                row <= app.rows.len(),
                height == app.tail_lines(row as int, w as nat),
                next == app.first_fitting(row as int, w as nat, viewport_h as nat),
                forall|k: int|
                    row <= k < app.rows.len() && #[trigger] app.visible(k) ==> next is Some
                        && app.tail_fits(k, w as nat, viewport_h as nat),
                next is None ==> app.last_visible(app.rows.len() as int) == app.last_visible(
                    row as int,
                ),
            decreases row,
        {
            row -= 1;
            if self.row_visible(row) {
                let lines: usize = row_height(&self.rows[row], left_w, right_w, self.gutter_w);
                let sticky: usize = if self.sticky_header_for(row).is_some() {
                    1
                } else {
                    0
                };
                let capacity: usize = body_h.saturating_sub(sticky);
                assert(app.rows[row as int] == self.rows@[row as int]@);
                assert(lines == app.height(row as int, w as nat));
                assert(capacity == app.capacity(row as int, viewport_h as nat));
                if height > capacity || lines > capacity - height {
                    proof {
                        lemma_limit(app, row as int, w as nat, viewport_h as nat);
                    }
                    return match next {
                        Some(found) => found,
                        None => row,
                    };
                }
                height += lines;
                next = Some(row);
            }
        }
        proof {
            if app.rows.len() > 0 {
                lemma_top_visible(app);
            }
        }
        0
    }
}

/// The first row is always visible.
proof fn lemma_top_visible(app: AppView)
    ensures
        app.visible(0),
{
}

/// Where a visible row does not fit at the top, none above it does.
proof fn lemma_none_fits_above(app: AppView, row: int, k: int, width: nat, height: nat)
    requires
        0 <= k < row < app.rows.len(),
        app.visible(row),
        app.visible(k),
        !app.tail_fits(row, width, height),
    ensures
        !app.tail_fits(k, width, height),
{
    lemma_tail_grows(app, k + 1, row, width);
    lemma_height_positive(app, k, width);
}

/// A row takes a line at least.
proof fn lemma_height_positive(app: AppView, row: int, width: nat)
    ensures
        app.height(row, width) > 0,
{
    let (left_w, right_w) = app.widths(width);
    if let RowView::Line { left, right } = app.rows[row] {
        law_selection_keeps_height(left, left_w, app.gutter_w as nat, None);
    }
}

/// More rows take more lines.
proof fn lemma_tail_grows(app: AppView, k: int, row: int, width: nat)
    requires
        k <= row,
    ensures
        app.tail_lines(row, width) <= app.tail_lines(k, width),
    decreases row - k,
{
    if k < row {
        lemma_tail_grows(app, k + 1, row, width);
    }
}

/// Where a visible row does not fit at the top, the search goes on below it.
proof fn lemma_search_passes(app: AppView, from: int, row: int, width: nat, height: nat)
    requires
        0 <= from <= row < app.rows.len(),
        app.visible(row),
        !app.tail_fits(row, width, height),
    ensures
        app.first_fitting(from, width, height) == app.first_fitting(row + 1, width, height),
    decreases row - from,
{
    if from < row {
        if app.visible(from) {
            lemma_none_fits_above(app, row, from, width, height);
        }
        lemma_search_passes(app, from + 1, row, width, height);
    }
}

/// The limit, once a visible row has been found that does not fit at the top.
proof fn lemma_limit(app: AppView, row: int, width: nat, height: nat)
    requires
        0 <= row < app.rows.len() <= usize::MAX,
        app.visible(row),
        !app.tail_fits(row, width, height),
        app.first_fitting(row + 1, width, height) is None ==> app.last_visible(
            app.rows.len() as int,
        ) == app.last_visible(row + 1),
    ensures
        app.scroll_limit(width, height) == match app.first_fitting(row + 1, width, height) {
            Some(found) => found,
            None => row as usize,
        },
{
    lemma_search_passes(app, 0, row, width, height);
}

impl App {
    /// What stands on a line of the screen.
    pub fn screen_row(&self, y: usize, width: usize, height: usize) -> (at: Option<ScreenRow>)
        requires
            self.wf(),
        ensures
            at == self@.on_screen(y as nat, width as nat, height as nat),
            at matches Some(found) ==> found.source < self@.rows.len(),
    {
        let body_h: usize = height.saturating_sub(1);
        if y >= body_h {
            return None;
        }
        let ghost app = self@;
        let mut remaining: usize = y;
        if let Some(source) = self.sticky_header() {
            if y == 0 {
                return Some(ScreenRow { source, segment: 0 });
            }
            remaining = y - 1;
        }
        let (left_w, right_w) = self.pane_widths(width);
        let mut source: usize = self.scroll;
        while source < self.rows.len()
            invariant
                self.wf(),
                app == self@,
                left_w == app.widths(width as nat).0,
                right_w == app.widths(width as nat).1,
                app.on_screen(y as nat, width as nat, height as nat) == app.line_below(
                    source as int,
                    remaining as nat,
                    width as nat,
                ),
            decreases self.rows@.len() - source,
        {
            if self.row_visible(source) {
                let lines: usize = row_height(&self.rows[source], left_w, right_w, self.gutter_w);
                assert(app.rows[source as int] == self.rows@[source as int]@);
                assert(lines == app.height(source as int, width as nat));
                if remaining < lines {
                    return Some(ScreenRow { source, segment: remaining });
                }
                remaining -= lines;
            }
            source += 1;
        }
        None
    }
}

// ---------------------------------------------------------------------------
// Scrolling and collapsing
// ---------------------------------------------------------------------------

impl App {
    /// Collapses a section, or opens it again.
    fn toggle(&mut self, i: usize)
        requires
            old(self).wf(),
            i < old(self)@.sections.len(),
        ensures
            final(self)@ == old(self)@.toggled(i as int),
            final(self).wf(),
    {
        proof {
            lemma_toggled_sections(
                self@.sections,
                self@.rows,
                i as int,
                !self@.sections[i as int].collapsed,
            );
        }
        let header: usize = self.sections[i].header;
        let end: usize = self.sections[i].body.end;
        let collapsed = !self.sections[i].collapsed;
        self.sections.set(i, FileSection { header, body: header + 1..end, collapsed });
        assert(self@ =~= old(self)@.toggled(i as int));
    }

    /// Collapses the section at the scroll position, or opens it again; whether
    /// there is one.
    pub fn toggle_current_file(&mut self) -> (done: bool)
        requires
            old(self).wf(),
        ensures
            done == (old(self)@.section_of(old(self)@.scroll as int) is Some),
            final(self)@ == old(self)@.current_toggled(),
            final(self).wf(),
    {
        match self.section_index_for_row(self.scroll) {
            Some(i) => {
                self.cancel_interaction();
                self.preserve_scroll = None;
                self.toggle(i);
                self.scroll = self.sections[i].header;
                assert(self@ =~= old(self)@.current_toggled());
                true
            },
            None => false,
        }
    }

    /// Scrolls down by `count` visible rows, no further than `max`.
    pub fn scroll_down(&mut self, count: usize, max: usize)
        requires
            old(self).wf(),
        ensures
            final(self)@ == old(self)@.scrolled_down(count as nat, max),
            final(self).wf(),
    {
        let ghost before = self@;
        let mut row: usize = self.scroll;
        let mut left: usize = count;
        while left > 0
            invariant_except_break
                before.steps_down(before.scroll, count as nat, max) == before.steps_down(
                    row,
                    left as nat,
                    max,
                ),
            invariant
                before == self@,
                self.wf(),
            ensures
                row == before.steps_down(before.scroll, count as nat, max),
            decreases left,
        {
            match self.find_visible(row) {
                Some(next) => {
                    if next > max {
                        row = max;
                        break ;
                    }
                    row = next;
                },
                None => {
                    break ;
                },
            }
            left -= 1;
        }
        self.preserve_scroll = None;
        self.scroll = row;
    }

    /// The first visible row below a row.
    fn find_visible(&self, row: usize) -> (next: Option<usize>)
        requires
            self.wf(),
        ensures
            next == self@.next_visible(row + 1),
    {
        if row >= self.rows.len() {
            return None;
        }
        let mut next: usize = row + 1;
        while next < self.rows.len()
            invariant
                self.wf(),
                next <= self@.rows.len(),
                self@.next_visible(row + 1) == self@.next_visible(next as int),
            decreases self.rows@.len() - next,
        {
            if self.row_visible(next) {
                return Some(next);
            }
            next += 1;
        }
        None
    }

    /// Scrolls up by `count` visible rows.
    pub fn scroll_up(&mut self, count: usize)
        requires
            old(self).wf(),
        ensures
            final(self)@ == old(self)@.scrolled_up(count as nat),
            final(self).wf(),
    {
        let ghost before = self@;
        let mut row: usize = self.scroll;
        let mut left: usize = count;
        while left > 0
            invariant
                before == self@,
                self.wf(),
                before.steps_up(before.scroll, count as nat) == before.steps_up(row, left as nat),
            ensures
                row == before.steps_up(before.scroll, count as nat),
            decreases left,
        {
            match self.find_visible_before(row) {
                Some(previous) => {
                    row = previous;
                },
                None => {
                    break ;
                },
            }
            left -= 1;
        }
        self.preserve_scroll = None;
        self.scroll = row;
    }

    /// The last visible row above a row.
    fn find_visible_before(&self, row: usize) -> (previous: Option<usize>)
        requires
            self.wf(),
        ensures
            previous == self@.last_visible(row as int),
    {
        let mut to: usize = row;
        while to > 0
            invariant
                self.wf(),
                self@.last_visible(row as int) == self@.last_visible(to as int),
            decreases to,
        {
            if self.row_visible(to - 1) {
                return Some(to - 1);
            }
            to -= 1;
        }
        None
    }

    /// Scrolls back to `max` where the position is past it, unless it is to be kept
    /// or is a file header.
    pub fn normalize_scroll(&mut self, max: usize)
        requires
            old(self).wf(),
        ensures
            final(self)@ == old(self)@.normalized(max),
            final(self).wf(),
    {
        if let Some(kept) = self.preserve_scroll {
            if kept == self.scroll {
                return ;
            }
        }
        self.preserve_scroll = None;
        if self.scroll > max && !self.at_header() {
            self.scroll = max;
        }
    }

    /// Whether the row at the top is a file header.
    fn at_header(&self) -> (b: bool)
        ensures
            b == self@.is_header(self@.scroll as int),
    {
        let mut i: usize = 0;
        while i < self.sections.len()
            invariant
                i <= self.sections@.len(),
                forall|j: int| 0 <= j < i ==> (#[trigger] self@.sections[j]).header != self.scroll,
            decreases self.sections@.len() - i,
        {
            if self.sections[i].header == self.scroll {
                assert(self@.sections[i as int].header == self@.scroll);
                return true;
            }
            i += 1;
        }
        false
    }

    /// Collapses the section whose header stands on a line of the screen, or opens it
    /// again; whether there is one.
    pub fn toggle_file_at(&mut self, y: usize, width: usize, height: usize) -> (done: bool)
        requires
            old(self).wf(),
        ensures
            done == (old(self)@.section_on_screen(y as nat, width as nat, height as nat) is Some),
            final(self)@ == old(self)@.toggled_at(y as nat, width as nat, height as nat),
            final(self).wf(),
    {
        let source: usize = match self.screen_row(y, width, height) {
            Some(at) => at.source,
            None => {
                return false;
            },
        };
        let i: usize = match self.section_index_for_row(source) {
            Some(i) => i,
            None => {
                return false;
            },
        };
        if self.sections[i].header != source {
            return false;
        }
        self.cancel_interaction();
        self.toggle(i);
        if y == 0 {
            self.scroll = self.sections[i].header;
            self.preserve_scroll = None;
        } else {
            self.preserve_scroll = Some(self.scroll);
        }
        assert(self@ =~= old(self)@.toggled_at(y as nat, width as nat, height as nat));
        true
    }
}

// ---------------------------------------------------------------------------
// The divider and the footer
// ---------------------------------------------------------------------------

impl App {
    /// Shows a message of success.
    pub fn set_status(&mut self, status: String)
        ensures
            final(self)@ == old(self)@.with_status(status@),
    {
        self.status = Some((status, success()));
    }

    /// Shows a message of failure.
    pub fn set_error(&mut self, status: String)
        ensures
            final(self)@ == old(self)@.with_error(status@),
    {
        self.status = Some((status, failure()));
    }

    /// Shows the keys again.
    pub fn clear_status(&mut self)
        ensures
            final(self)@ == old(self)@.without_status(),
    {
        self.status = None;
    }

    /// Grabs the divider, where the mouse is on it; whether it is.
    pub fn begin_resize(&mut self, x: usize, y: usize, width: usize, height: usize) -> (hit: bool)
        requires
            old(self).wf(),
        ensures
            hit == old(self)@.on_divider(x as nat, y as nat, width as nat, height as nat),
            final(self)@ == old(self)@.resize_begun(
                x as nat,
                y as nat,
                width as nat,
                height as nat,
            ),
            final(self).wf(),
    {
        let hit = width > 1 && y < height.saturating_sub(1) && x == self.pane_widths(width).0;
        self.resizing_divider = hit;
        if hit {
            self.preserve_scroll = None;
            self.selection = None;
        }
        hit
    }

    /// Moves the divider, where it is grabbed; whether it is.
    pub fn drag_resize(&mut self, x: usize, width: usize) -> (resizing: bool)
        requires
            old(self).wf(),
        ensures
            resizing == old(self)@.resizing_divider,
            final(self)@ == old(self)@.resize_dragged(x as nat, width as nat),
            final(self).wf(),
    {
        if !self.resizing_divider {
            return false;
        }
        let available: usize = width.saturating_sub(1);
        if available > 0 {
            let min: usize = self.min_width(width);
            let nearest: usize = if x < available {
                x
            } else {
                available
            };
            let left: usize = clamped(nearest, min, available - min);
            self.pane_ratio = Some((left, available));
        }
        true
    }

    /// Releases the divider; whether it was grabbed.
    pub fn finish_resize(&mut self) -> (was_resizing: bool)
        ensures
            was_resizing == old(self)@.resizing_divider,
            final(self)@ == old(self)@.resize_finished(),
    {
        let was_resizing = self.resizing_divider;
        self.resizing_divider = false;
        was_resizing
    }

    /// Makes the panes equally wide.
    pub fn reset_panes(&mut self)
        ensures
            final(self)@ == old(self)@.panes_reset(),
    {
        self.pane_ratio = None;
        self.resizing_divider = false;
        self.preserve_scroll = None;
    }

    /// Lets go of a scroll position that was to be kept.
    pub fn clear_scroll_preservation(&mut self)
        ensures
            final(self)@ == old(self)@.unpreserved(),
    {
        self.preserve_scroll = None;
    }

    /// Drops the selection and releases the divider.
    pub fn cancel_interaction(&mut self)
        ensures
            final(self)@ == old(self)@.cancelled(),
    {
        self.selection = None;
        self.resizing_divider = false;
    }
}

// ---------------------------------------------------------------------------
// Selecting text
// ---------------------------------------------------------------------------

/// The glyph that a column belongs to.
fn find_glyph(glyphs: &Vec<VisualGlyph>, x: usize) -> (found: Option<usize>)
    ensures
        found matches Some(i) ==> i < glyphs@.len(),
        glyph_at(glyphs@, x as nat) == match found {
            Some(i) => Some(glyphs@[i as int]),
            None => None,
        },
{
    let mut i: usize = 0;
    assert(glyphs@.skip(0) =~= glyphs@);
    while i < glyphs.len()
        invariant
            i <= glyphs@.len(),
            first_over(glyphs@, x as nat) == first_over(glyphs@.skip(i as int), x as nat),
        decreases glyphs@.len() - i,
    {
        assert(glyphs@.skip(i as int)[0] == glyphs@[i as int]);
        assert(glyphs@.skip(i as int).drop_first() =~= glyphs@.skip(i + 1));
        if glyphs[i].columns.start <= x && x < glyphs[i].columns.end {
            return Some(i);
        }
        i += 1;
    }
    if glyphs.len() == 0 {
        None
    } else if x < glyphs[0].columns.start {
        Some(0)
    } else {
        Some(glyphs.len() - 1)
    }
}

/// A selection from text to text cuts no character.
proof fn lemma_selectable(app: AppView, selection: Selection)
    requires
        app.is_text(selection.pane, selection.anchor),
        app.is_text(selection.pane, selection.head),
    ensures
        app.selectable(selection),
{
    assert forall|row: int| 0 <= row < app.rows.len() implies #[trigger] app.cuts_no_character(
        selection,
        row,
    ) by {
        if let Some(cell) = app.cell_at(selection.pane, row) {
            lemma_ends_are_boundaries(cell.text);
        }
    }
}

/// A text begins and ends at a boundary.
proof fn lemma_ends_are_boundaries(text: Seq<char>)
    ensures
        boundary(text, 0),
        boundary(text, byte_len(text) as int),
{
    let none = Seq::<char>::empty();
    lemma_boundary(none, text);
    lemma_boundary(text, none);
    assert(none + text =~= text);
    assert(text + none =~= text);
}

impl App {
    /// The cell of a row in a pane.
    fn cell(&self, pane: Pane, row: usize) -> (cell: Option<&Cell>)
        requires
            row < self.rows@.len(),
        ensures
            self@.cell_at(pane, row as int) == match cell {
                Some(c) => Some(c@),
                None => None,
            },
    {
        assert(self@.rows[row as int] == self.rows@[row as int]@);
        match &self.rows[row] {
            Row::Line { left, right } => match pane {
                Pane::Left => left.as_ref(),
                Pane::Right => right.as_ref(),
            },
            _ => None,
        }
    }

    /// The width of a pane, and the column of it that is nearest to a column of the
    /// screen.
    fn local_column(&self, pane: Pane, x: usize, width: usize) -> (col: Option<(usize, usize)>)
        requires
            self.wf(),
        ensures
            self@.pane_column(pane, x as nat, width as nat) == match col {
                Some((w, at)) => Some((w as nat, at as nat)),
                None => None,
            },
    {
        let (left_w, right_w) = self.pane_widths(width);
        let (w, at): (usize, usize) = match pane {
            Pane::Left => (left_w, x),
            Pane::Right => (right_w, x.saturating_sub(left_w).saturating_sub(1)),
        };
        if w == 0 {
            None
        } else if at < w - 1 {
            Some((w, at))
        } else {
            Some((w, w - 1))
        }
    }

    /// The glyph of a pane at a place on the screen.
    pub fn hit_test(
        &self,
        pane: Pane,
        x: usize,
        y: usize,
        width: usize,
        height: usize,
    ) -> (hit: Option<Hit>)
        requires
            self.wf(),
        ensures
            hit == self@.hit_at(pane, x as nat, y as nat, width as nat, height as nat),
            hit matches Some(found) ==> self@.is_text(pane, found),
    {
        let (pane_w, col) = match self.local_column(pane, x, width) {
            Some(found) => found,
            None => {
                return None;
            },
        };
        let at = match self.screen_row(y, width, height) {
            Some(at) => at,
            None => {
                return None;
            },
        };
        let cell = match self.cell(pane, at.source) {
            Some(cell) => cell,
            None => {
                return None;
            },
        };
        let segments = cell_segments(Some(cell), pane_w, self.gutter_w, None);
        assert(segment_views(segments@).len() == segments@.len());
        if at.segment >= segments.len() {
            return None;
        }
        let segment = &segments[at.segment];
        assert(segment_views(segments@)[at.segment as int] == segment@);
        match find_glyph(&segment.glyphs, col) {
            Some(i) => {
                let bytes = &segment.glyphs[i].bytes;
                assert(glyphs_in_text(cell.text@, segments@[at.segment as int].glyphs@));
                Some(Hit { row: at.source, start: bytes.start, end: bytes.end })
            },
            None => None,
        }
    }

    /// The selected text: the visible lines of the pane, one below the other.
    pub fn selection_text(&self, selection: Selection) -> (text: String)
        requires
            self.wf(),
            self@.selectable(selection),
        ensures
            text@ == self@.selected_text(selection),
    {
        let ghost app = self@;
        let (first, last): (usize, usize) = if selection.anchor.row <= selection.head.row {
            (selection.anchor.row, selection.head.row)
        } else {
            (selection.head.row, selection.anchor.row)
        };
        let mut parts: Vec<String> = Vec::new();
        let mut row: usize = first;
        assert(strings(parts@) =~= Seq::<Seq<char>>::empty());
        while row <= last
            invariant
                self.wf(),
                app == self@,
                app.selectable(selection),
                first == selection.first().row,
                last == selection.last().row,
                last < app.rows.len() <= usize::MAX,
                first <= row <= last + 1,
                strings(parts@) == app.selected_parts(selection, first as int, row as int),
            decreases last + 1 - row,
        {
            assert(app.cuts_no_character(selection, row as int));
            if self.row_visible(row) {
                if let Some(cell) = self.cell(selection.pane, row) {
                    let len: usize = len_of(cell.text.as_str());
                    if let Some(bytes) = selection.range_for(selection.pane, row, len) {
                        let part = slice_of(cell.text.as_str(), bytes.start, bytes.end).to_owned();
                        let ghost before = parts@;
                        parts.push(part);
                        assert(strings(parts@) =~= strings(before).push(part@));
                    }
                }
            }
            row += 1;
        }
        join(&parts, "\n")
    }

    /// Begins a selection at a place on the screen, where there is text.
    pub fn begin_selection(&mut self, x: usize, y: usize, width: usize, height: usize)
        requires
            old(self).wf(),
        ensures
            final(self)@ == old(self)@.selection_begun(
                x as nat,
                y as nat,
                width as nat,
                height as nat,
            ),
            final(self).wf(),
    {
        let left_w: usize = self.pane_widths(width).0;
        let selection = if x == left_w {
            None
        } else {
            let pane = if x < left_w {
                Pane::Left
            } else {
                Pane::Right
            };
            match self.hit_test(pane, x, y, width, height) {
                Some(hit) => Some(Selection { pane, anchor: hit, head: hit, dragged: false }),
                None => None,
            }
        };
        self.resizing_divider = false;
        self.selection = selection;
    }

    /// Draws the selection out to a place on the screen, where its pane has text
    /// there.
    pub fn drag_selection(&mut self, x: usize, y: usize, width: usize, height: usize)
        requires
            old(self).wf(),
        ensures
            final(self)@ == old(self)@.selection_dragged(
                x as nat,
                y as nat,
                width as nat,
                height as nat,
            ),
            final(self).wf(),
    {
        if let Some(selection) = self.selection {
            if let Some(hit) = self.hit_test(selection.pane, x, y, width, height) {
                self.selection = Some(
                    Selection {
                        pane: selection.pane,
                        anchor: selection.anchor,
                        head: hit,
                        dragged: hit != selection.anchor,
                    },
                );
            }
        }
    }

    /// Ends the selection; its text, where it has been drawn out.
    pub fn finish_selection(&mut self) -> (text: Option<String>)
        requires
            old(self).wf(),
        ensures
            old(self)@.text_to_copy() == match text {
                Some(t) => Some(t@),
                None => None,
            },
            final(self)@ == old(self)@.selection_finished(),
            final(self).wf(),
    {
        let selection = self.selection;
        match selection {
            Some(selection) => {
                if !selection.dragged {
                    self.selection = None;
                    return None;
                }
                proof {
                    lemma_selectable(self@, selection);
                }
                let text = self.selection_text(selection);
                self.selection = None;
                if text.as_str().is_empty() {
                    None
                } else {
                    Some(text)
                }
            },
            None => None,
        }
    }
}

} // verus!
