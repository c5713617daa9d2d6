//! What holds of the viewer, whatever it shows.

use vstd::prelude::*;

use crate::diff::RowView;
use crate::render::selected_in;
use crate::sections::{lemma_next_file, lemma_sections_from, next_file, section_at, sections_from};
use crate::segments::law_selection_keeps_height;
use crate::selection::Pane;
use crate::state::{nonneg, smaller, AppView};
use crate::style::LineView;
use crate::ui::{lemma_section_of, lemma_visible};

verus! {

// ---------------------------------------------------------------------------
// Collapsing
// ---------------------------------------------------------------------------

/// Collapsing a section and opening it again leaves everything as it was.
pub proof fn law_toggling_twice(app: AppView, i: int)
    requires
        0 <= i < app.sections.len(),
    ensures
        app.toggled(i).toggled(i) == app,
{
    assert(app.toggled(i).toggled(i) =~= app);
}

/// Collapsing an open section hides the rows below its header, and no others.
pub proof fn law_collapsing_hides_the_body(app: AppView, i: int, row: int)
    requires
        0 <= i < app.sections.len(),
        !app.sections[i].collapsed,
    ensures
        app.toggled(i).visible(row) <==> app.visible(row) && !(app.sections[i].header < row
            < app.sections[i].body.end),
{
    let after = app.toggled(i);
    assert(after.sections[i].hides(row) <==> app.sections[i].header < row
        < app.sections[i].body.end);
    if after.visible(row) {
        assert forall|j: int| 0 <= j < app.sections.len() implies !(
        #[trigger] app.sections[j]).hides(row) by {
            assert(!after.sections[j].hides(row));
        }
        assert(!after.sections[i].hides(row));
    }
    if app.visible(row) && !after.sections[i].hides(row) {
        assert forall|j: int| 0 <= j < after.sections.len() implies !(
        #[trigger] after.sections[j]).hides(row) by {
            assert(!app.sections[j].hides(row));
        }
    }
}

/// File headers are always visible, and so is whatever belongs to no file.
pub proof fn law_headers_stay_visible(app: AppView, row: int)
    requires
        app.wf(),
        app.is_header(row) || app.section_of(row) is None,
    ensures
        app.visible(row),
{
    lemma_visible(app, row);
    if app.is_header(row) {
        let i = choose|i: int|
            0 <= i < app.sections.len() && (#[trigger] app.sections[i]).header == row;
        assert(app.sections[i].holds(row));
        lemma_section_of(app, i, row);
    }
}

/// The headers of the sections are the file rows.
pub proof fn law_file_rows_are_headers(app: AppView, row: int)
    requires
        app.wf(),
        0 <= row < app.rows.len(),
    ensures
        app.is_header(row) <==> app.rows[row] is File,
{
    if app.is_header(row) {
        let i = choose|i: int|
            0 <= i < app.sections.len() && (#[trigger] app.sections[i]).header == row;
        assert(app.rows[app.sections[i].header as int] is File);
    }
}

/// Toggling the file at the scroll position twice leaves every section as it was,
/// with the file's header at the top.
pub proof fn law_toggling_the_current_file_twice(app: AppView)
    requires
        app.wf(),
        app.section_of(app.scroll as int) is Some,
    ensures
        app.current_toggled().current_toggled().sections == app.sections,
        app.current_toggled().current_toggled().scroll == app.sections[app.section_of(
            app.scroll as int,
        )->0].header,
{
    let i = app.section_of(app.scroll as int)->0;
    let once = app.current_toggled();
    assert(0 <= i < app.sections.len() && app.sections[i].holds(app.scroll as int));
    assert(once.sections[i].holds(once.scroll as int));
    let j = once.section_of(once.scroll as int)->0;
    assert(0 <= j < once.sections.len() && once.sections[j].holds(once.scroll as int));
    if i < j {
        assert(app.sections[i].body.end <= app.sections[j].header);
    } else if j < i {
        assert(app.sections[j].body.end <= app.sections[i].header);
    }
    assert(once.current_toggled().sections =~= app.sections);
}

/// When a diff is first shown, every row is visible; the rows from the first file
/// header on each belong to a file, and those above it to none.
pub proof fn law_sections_cover_the_files(rows: Seq<RowView>, row: int)
    requires
        rows.len() <= usize::MAX,
        0 <= row < rows.len(),
    ensures
        AppView::initial(rows).visible(row),
        AppView::initial(rows).section_of(row) is Some <==> next_file(rows, 0) <= row,
{
    let app = AppView::initial(rows);
    lemma_all_open(rows, 0);
    lemma_next_file(rows, 0);
    if next_file(rows, 0) <= row {
        lemma_covered(rows, 0, row);
        let i = choose|i: int|
            0 <= i < sections_from(rows, 0).len() && (#[trigger] sections_from(rows, 0)[i]).holds(
                row,
            );
        assert(app.sections[i].holds(row));
    } else {
        assert forall|i: int| 0 <= i < app.sections.len() implies !(
        #[trigger] app.sections[i]).holds(row) by {
            lemma_sections_from(rows, 0);
            lemma_behind_first_file(rows, 0, i);
        }
    }
}

/// At first every section is open.
proof fn lemma_all_open(rows: Seq<RowView>, from: int)
    ensures
        forall|i: int|
            0 <= i < sections_from(rows, from).len() ==> !(#[trigger] sections_from(
                rows,
                from,
            )[i]).collapsed,
    decreases rows.len() - from,
{
    if from < rows.len() {
        let all = sections_from(rows, from);
        let rest = sections_from(rows, from + 1);
        lemma_all_open(rows, from + 1);
        assert forall|i: int| 0 <= i < all.len() implies !(#[trigger] all[i]).collapsed by {
            if rows[from] is File && i > 0 {
                assert(all[i] == rest[i - 1]);
            }
        }
    }
}

/// A row behind a file header belongs to a section.
proof fn lemma_covered(rows: Seq<RowView>, from: int, row: int)
    requires
        0 <= from,
        next_file(rows, from) <= row < rows.len() <= usize::MAX,
    ensures
        exists|i: int|
            0 <= i < sections_from(rows, from).len() && (#[trigger] sections_from(
                rows,
                from,
            )[i]).holds(row),
    decreases rows.len() - from,
{
    if from >= rows.len() {
    } else if rows[from] is File {
        let all = sections_from(rows, from);
        let rest = sections_from(rows, from + 1);
        lemma_next_file(rows, from + 1);
        assert(all[0] == section_at(rows, from));
        if row < next_file(rows, from + 1) {
            assert(all[0].holds(row));
        } else {
            lemma_covered(rows, from + 1, row);
            let i = choose|i: int| 0 <= i < rest.len() && (#[trigger] rest[i]).holds(row);
            assert(all[i + 1] == rest[i]);
            assert(all[i + 1].holds(row));
        }
    } else {
        let rest = sections_from(rows, from + 1);
        lemma_covered(rows, from + 1, row);
        let i = choose|i: int| 0 <= i < rest.len() && (#[trigger] rest[i]).holds(row);
        assert(sections_from(rows, from)[i].holds(row));
    }
}

/// No section begins before the first file header.
proof fn lemma_behind_first_file(rows: Seq<RowView>, from: int, i: int)
    requires
        0 <= from <= rows.len() <= usize::MAX,
        0 <= i < sections_from(rows, from).len(),
    ensures
        next_file(rows, from) <= sections_from(rows, from)[i].header,
    decreases rows.len() - from,
{
    if rows[from] is File {
        lemma_sections_from(rows, from);
    } else {
        lemma_behind_first_file(rows, from + 1, i);
    }
}

// ---------------------------------------------------------------------------
// Scrolling
// ---------------------------------------------------------------------------

/// The next visible row is visible, and nothing between is.
proof fn lemma_next_visible(app: AppView, from: int)
    requires
        0 <= from,
        app.rows.len() <= usize::MAX,
    ensures
        app.next_visible(from) matches Some(row) ==> from <= row < app.rows.len() && app.visible(
            row as int,
        ),
        app.next_visible(from) is None ==> forall|k: int|
            from <= k < app.rows.len() ==> !#[trigger] app.visible(k),
    decreases app.rows.len() - from,
{
    if from < app.rows.len() && !app.visible(from) {
        lemma_next_visible(app, from + 1);
    }
}

/// The last visible row is visible.
proof fn lemma_last_visible(app: AppView, to: int)
    requires
        to <= usize::MAX,
    ensures
        app.last_visible(to) matches Some(row) ==> row < to && app.visible(row as int),
        app.last_visible(to) is None ==> forall|k: int| 0 <= k < to ==> !#[trigger] app.visible(k),
    decreases to,
{
    if to > 0 && !app.visible(to - 1) {
        lemma_last_visible(app, to - 1);
    }
}

/// The scroll limit is a visible row, except that it is 0 where there are no rows.
/// From there on everything fits the screen, unless it is the last visible row; and
/// from no visible row above it does everything fit.
pub proof fn law_scroll_limit(app: AppView, width: nat, height: nat)
    requires
        app.wf(),
    ensures
        ({
            let limit = app.scroll_limit(width, height);
            &&& app.rows.len() == 0 ==> limit == 0
            &&& app.rows.len() > 0 ==> limit < app.rows.len() && app.visible(limit as int)
            &&& app.rows.len() > 0 ==> app.tail_fits(limit as int, width, height) || (
            forall|k: int| limit < k < app.rows.len() ==> !#[trigger] app.visible(k))
            &&& forall|k: int|
                0 <= k < limit && #[trigger] app.visible(k) ==> !app.tail_fits(k, width, height)
        }),
{
    let limit = app.scroll_limit(width, height);
    lemma_first_fitting(app, 0, width, height);
    lemma_last_visible(app, app.rows.len() as int);
    if app.rows.len() > 0 {
        assert(app.visible(0));
    }
    if app.first_fitting(0, width, height) is None && app.rows.len() > 0 {
        lemma_none_behind_last(app, app.rows.len() as int);
    }
}

/// Nothing behind the last visible row is visible.
proof fn lemma_none_behind_last(app: AppView, to: int)
    requires
        to <= usize::MAX,
    ensures
        app.last_visible(to) matches Some(row) ==> forall|k: int|
            row < k < to ==> !#[trigger] app.visible(k),
    decreases to,
{
    if to > 0 && !app.visible(to - 1) {
        lemma_none_behind_last(app, to - 1);
    }
}

/// The first fitting row fits, and no visible row before it does.
proof fn lemma_first_fitting(app: AppView, from: int, width: nat, height: nat)
    requires
        0 <= from,
        app.rows.len() <= usize::MAX,
    ensures
        app.first_fitting(from, width, height) matches Some(row) ==> from <= row < app.rows.len()
            && app.visible(row as int) && app.tail_fits(row as int, width, height) && (forall|
            k: int,
        |
            from <= k < row && #[trigger] app.visible(k) ==> !app.tail_fits(k, width, height)),
        app.first_fitting(from, width, height) is None ==> forall|k: int|
            from <= k < app.rows.len() && #[trigger] app.visible(k) ==> !app.tail_fits(
                k,
                width,
                height,
            ),
    decreases app.rows.len() - from,
{
    if from < app.rows.len() && !(app.visible(from) && app.tail_fits(from, width, height)) {
        lemma_first_fitting(app, from + 1, width, height);
    }
}

/// Steps down end where they begin, at `max`, or at a visible row.
pub proof fn lemma_steps_down(app: AppView, row: usize, count: nat, max: usize)
    requires
        app.wf(),
    ensures
        ({
            let end = app.steps_down(row, count, max);
            end == row || end == max || (end < app.rows.len() && app.visible(end as int))
        }),
    decreases count,
{
    if count > 0 {
        lemma_next_visible(app, row + 1);
        if let Some(next) = app.next_visible(row + 1) {
            if next <= max {
                lemma_steps_down(app, next, (count - 1) as nat, max);
            }
        }
    }
}

/// Scrolling down goes from visible row to visible row and stops at `max`; it never
/// goes back.
pub proof fn law_scrolling_down(app: AppView, row: usize, count: nat, max: usize)
    requires
        app.wf(),
        row <= max,
    ensures
        ({
            let end = app.steps_down(row, count, max);
            row <= end <= max && (end == row || end == max || app.visible(end as int))
        }),
    decreases count,
{
    if count > 0 {
        lemma_next_visible(app, row + 1);
        if let Some(next) = app.next_visible(row + 1) {
            if next <= max {
                law_scrolling_down(app, next, (count - 1) as nat, max);
            }
        }
    }
}

/// Scrolling up goes from visible row to visible row, and never goes down.
pub proof fn law_scrolling_up(app: AppView, row: usize, count: nat)
    ensures
        ({
            let end = app.steps_up(row, count);
            end <= row && (end == row || app.visible(end as int))
        }),
    decreases count,
{
    if count > 0 {
        lemma_last_visible(app, row as int);
        if let Some(previous) = app.last_visible(row as int) {
            law_scrolling_up(app, previous, (count - 1) as nat);
        }
    }
}

/// The visible rows from a row on begin with the next one.
proof fn lemma_visible_front(app: AppView, from: int, to: int)
    requires
        0 <= from,
        from <= to <= app.rows.len() <= usize::MAX,
    ensures
        match app.next_visible(from) {
            Some(next) => if next < to {
                app.visible_between(from, to) == seq![next] + app.visible_between(next + 1, to)
            } else {
                app.visible_between(from, to).len() == 0
            },
            None => app.visible_between(from, to).len() == 0,
        },
    decreases to - from,
{
    lemma_next_visible(app, from);
    if from < to {
        lemma_visible_front(app, from, to - 1);
        if let Some(next) = app.next_visible(from) {
            if next < to - 1 {
                assert(app.visible_between(from, to) =~= seq![next] + app.visible_between(
                    next + 1,
                    to,
                ));
            } else if next == to - 1 {
                assert(app.visible_between(next + 1, to).len() == 0);
                assert(app.visible_between(from, to) =~= seq![next] + app.visible_between(
                    next + 1,
                    to,
                ));
            } else {
                lemma_none_before_next(app, from, to - 1);
            }
        }
    }
}

/// Before the next visible row there is none.
proof fn lemma_none_before_next(app: AppView, from: int, row: int)
    requires
        0 <= from <= row < app.rows.len() <= usize::MAX,
        app.next_visible(from) matches Some(next) && row < next,
    ensures
        !app.visible(row),
    decreases row - from,
{
    if from < row {
        lemma_none_before_next(app, from + 1, row);
    }
}

/// Visible rows are listed in ascending order.
proof fn lemma_visible_ascending(app: AppView, from: int, to: int)
    requires
        0 <= from,
        to <= usize::MAX,
    ensures
        forall|i: int|
            0 <= i < app.visible_between(from, to).len() ==> from <= (
            #[trigger] app.visible_between(from, to)[i]) < to,
        forall|i: int, j: int|
            0 <= i < j < app.visible_between(from, to).len() ==> (#[trigger] app.visible_between(
                from,
                to,
            )[i]) < (#[trigger] app.visible_between(from, to)[j]),
    decreases to - from,
{
    if from < to {
        let before = app.visible_between(from, to - 1);
        let rows = app.visible_between(from, to);
        lemma_visible_ascending(app, from, to - 1);
        assert forall|i: int| 0 <= i < rows.len() implies from <= (#[trigger] rows[i]) < to by {
            if i < before.len() {
                assert(rows[i] == before[i]);
            }
        }
        assert forall|i: int, j: int| 0 <= i < j < rows.len() implies (#[trigger] rows[i]) < (
        #[trigger] rows[j]) by {
            assert(rows[i] == before[i]);
            if j < before.len() {
                assert(rows[j] == before[j]);
            }
        }
    }
}

/// The visible rows below a row.
pub open spec fn rows_below(app: AppView, row: usize) -> Seq<usize> {
    app.visible_between(row + 1, app.rows.len() as int)
}

/// Scrolling down by `count` rows leads to the `count`-th visible row below, or the
/// last one, or to `max` where that comes first; it leads nowhere where nothing is
/// visible below.
pub proof fn law_scrolling_down_counts_visible_rows(
    app: AppView,
    row: usize,
    count: nat,
    max: usize,
)
    requires
        app.wf(),
    ensures
        ({
            let below = rows_below(app, row);
            let end = app.steps_down(row, count, max);
            if count == 0 || below.len() == 0 {
                end == row
            } else {
                end == smaller(below[smaller(count, below.len()) - 1] as nat, max as nat)
            }
        }),
    decreases count,
{
    let below = rows_below(app, row);
    let len = app.rows.len() as int;
    if count > 0 {
        lemma_next_visible(app, row + 1);
        if row + 1 <= len {
            lemma_visible_front(app, row + 1, len);
        }
        lemma_visible_ascending(app, row + 1, len);
        if let Some(next) = app.next_visible(row + 1) {
            assert(below == seq![next] + rows_below(app, next));
            assert(below[0] == next);
            let m = smaller(count, below.len()) - 1;
            if next > max {
                assert(below[m] >= next);
            } else {
                law_scrolling_down_counts_visible_rows(app, next, (count - 1) as nat, max);
                if m > 0 {
                    assert(below[m] == rows_below(app, next)[m - 1]);
                }
            }
        }
    }
}

/// One more step up is a step up from where the others lead.
proof fn lemma_one_more_up(app: AppView, row: usize, count: nat)
    ensures
        app.steps_up(row, count + 1) == app.steps_up(app.steps_up(row, count), 1),
    decreases count,
{
    reveal_with_fuel(AppView::steps_up, 2);
    if count > 0 {
        if let Some(previous) = app.last_visible(row as int) {
            lemma_one_more_up(app, previous, (count - 1) as nat);
        }
    }
}

/// As many steps down as there are visible rows up to `max`, and as many steps up,
/// lead back to a visible row.
pub proof fn law_down_and_up(app: AppView, row: usize, count: nat, max: usize)
    requires
        app.wf(),
        row < app.rows.len(),
        app.visible(row as int),
        count <= rows_below(app, row).len(),
        count > 0 ==> rows_below(app, row)[count - 1] <= max,
    ensures
        app.steps_up(app.steps_down(row, count, max), count) == row,
    decreases count,
{
    if count > 0 {
        let below = rows_below(app, row);
        let len = app.rows.len() as int;
        lemma_next_visible(app, row + 1);
        lemma_visible_front(app, row + 1, len);
        lemma_visible_ascending(app, row + 1, len);
        let next = app.next_visible(row + 1)->0;
        let rest = rows_below(app, next);
        assert(below == seq![next] + rest);
        assert(below[0] == next);
        if count > 1 {
            assert(below[0] < below[count - 1]);
            assert(rest[count - 2] == below[count - 1]);
        }
        law_down_and_up(app, next, (count - 1) as nat, max);
        lemma_gap(app, row as int, row + 1);
        lemma_one_more_up(app, app.steps_down(row, count, max), (count - 1) as nat);
        reveal_with_fuel(AppView::steps_up, 2);
    }
}

/// Between a visible row and the next one lies none.
proof fn lemma_gap(app: AppView, row: int, from: int)
    requires
        0 <= row < from,
        app.rows.len() <= usize::MAX,
        app.visible(row),
        forall|k: int| row < k < from ==> !#[trigger] app.visible(k),
        app.next_visible(from) is Some,
    ensures
        app.last_visible(app.next_visible(from)->0 as int) == Some(row as usize),
    decreases app.rows.len() - from,
{
    if app.visible(from) {
        lemma_back_to(app, row, from);
    } else {
        lemma_gap(app, row, from + 1);
    }
}

/// The last visible row before an invisible stretch is the one in front of it.
proof fn lemma_back_to(app: AppView, row: int, to: int)
    requires
        0 <= row < to,
        app.visible(row),
        forall|k: int| row < k < to ==> !#[trigger] app.visible(k),
    ensures
        app.last_visible(to) == Some(row as usize),
    decreases to - row,
{
    if to - 1 > row {
        lemma_back_to(app, row, to - 1);
    }
}

/// Jumping forward leads to the nearest file header below, and backward to the
/// nearest one above, where there is one.
pub proof fn law_file_jump(app: AppView, forward: bool)
    requires
        app.wf(),
    ensures
        match app.file_from_here(forward) {
            Some(header) => app.is_header(header as int) && (if forward {
                header > app.scroll
            } else {
                header < app.scroll
            }) && (forall|k: int| #[trigger]
                app.is_header(k) ==> (if forward {
                    k <= app.scroll || k >= header
                } else {
                    k >= app.scroll || k <= header
                })),
            None => forall|k: int| #[trigger]
                app.is_header(k) ==> if forward {
                    k <= app.scroll
                } else {
                    k >= app.scroll
                },
        },
{
    if forward {
        lemma_header_after(app, 0);
    } else {
        lemma_header_before(app, app.sections.len() as int);
    }
}

proof fn lemma_header_after(app: AppView, i: int)
    requires
        app.wf(),
        0 <= i <= app.sections.len(),
        forall|j: int| 0 <= j < i ==> (#[trigger] app.sections[j]).header <= app.scroll,
    ensures
        match app.header_after(i) {
            Some(header) => app.is_header(header as int) && header > app.scroll && (forall|k: int|
             #[trigger]
                app.is_header(k) ==> k <= app.scroll || k >= header),
            None => forall|k: int| #[trigger] app.is_header(k) ==> k <= app.scroll,
        },
    decreases app.sections.len() - i,
{
    if i < app.sections.len() {
        if app.sections[i].header > app.scroll {
            let header = app.sections[i].header;
            assert(app.is_header(header as int));
            assert forall|k: int| #[trigger] app.is_header(k) implies k <= app.scroll || k
                >= header by {
                let j = choose|j: int|
                    0 <= j < app.sections.len() && (#[trigger] app.sections[j]).header == k;
                if j > i {
                    assert(app.sections[i].body.end <= app.sections[j].header);
                }
            }
        } else {
            lemma_header_after(app, i + 1);
        }
    }
}

proof fn lemma_header_before(app: AppView, n: int)
    requires
        app.wf(),
        0 <= n <= app.sections.len(),
        forall|j: int|
            n <= j < app.sections.len() ==> (#[trigger] app.sections[j]).header >= app.scroll,
    ensures
        match app.header_before(n) {
            Some(header) => app.is_header(header as int) && header < app.scroll && (forall|k: int|
             #[trigger]
                app.is_header(k) ==> k >= app.scroll || k <= header),
            None => forall|k: int| #[trigger] app.is_header(k) ==> k >= app.scroll,
        },
    decreases n,
{
    if n > 0 {
        if app.sections[n - 1].header < app.scroll {
            let header = app.sections[n - 1].header;
            assert(app.is_header(header as int));
            assert forall|k: int| #[trigger] app.is_header(k) implies k >= app.scroll || k
                <= header by {
                let j = choose|j: int|
                    0 <= j < app.sections.len() && (#[trigger] app.sections[j]).header == k;
                if j < n - 1 {
                    assert(app.sections[j].body.end <= app.sections[n - 1].header);
                }
            }
        } else {
            lemma_header_before(app, n - 1);
        }
    }
}

// ---------------------------------------------------------------------------
// The screen
// ---------------------------------------------------------------------------

/// A row is shown on as many lines as it is counted for.
pub proof fn lemma_row_lines(app: AppView, row: int, width: nat)
    ensures
        app.lines_of_row(row, width).len() == app.height(row, width),
{
    let (left_w, right_w) = app.widths(width);
    let gutter_w = app.gutter_w as nat;
    if let RowView::Line { left, right } = app.rows[row] {
        law_selection_keeps_height(
            left,
            left_w,
            gutter_w,
            selected_in(app.selection, Pane::Left, row as nat, left),
        );
        law_selection_keeps_height(
            right,
            right_w,
            gutter_w,
            selected_in(app.selection, Pane::Right, row as nat, right),
        );
    }
}

/// The lines below a row are those that are found there.
proof fn lemma_line_below(app: AppView, row: int, y: nat, width: nat)
    requires
        app.rows.len() <= usize::MAX,
        0 <= row,
        y <= usize::MAX,
    ensures
        match app.line_below(row, y, width) {
            Some(at) => y < app.lines_from(row, width).len() && at.segment < app.lines_of_row(
                at.source as int,
                width,
            ).len() && app.lines_from(row, width)[y as int] == app.lines_of_row(
                at.source as int,
                width,
            )[at.segment as int],
            None => y >= app.lines_from(row, width).len(),
        },
    decreases app.rows.len() - row,
{
    if row < app.rows.len() {
        let rest = app.lines_from(row + 1, width);
        if !app.visible(row) {
            lemma_line_below(app, row + 1, y, width);
        } else {
            let here = app.lines_of_row(row, width);
            lemma_row_lines(app, row, width);
            if y < here.len() {
                assert((here + rest)[y as int] == here[y as int]);
            } else {
                let below = (y - here.len()) as nat;
                lemma_line_below(app, row + 1, below, width);
                if app.line_below(row + 1, below, width) is Some {
                    assert((here + rest)[y as int] == rest[below as int]);
                }
            }
        }
    }
}

/// The sticky header is a row of its own, of one line.
pub proof fn lemma_sticky(app: AppView, row: int, width: nat)
    requires
        app.wf(),
        app.sticky(row) is Some,
    ensures
        app.lines_of_row(app.sticky(row)->0 as int, width).len() == 1,
{
    let i = app.section_of(row)->0;
    assert(0 <= i < app.sections.len() && app.sections[i].holds(row));
}

/// What the mouse is found to point at is what is drawn there, on every line of the
/// screen; and where it points at nothing, nothing is drawn.
pub proof fn law_the_mouse_hits_what_is_drawn(app: AppView, y: nat, width: nat, height: nat)
    requires
        app.wf(),
        y <= usize::MAX,
        y < nonneg(height - 1),
    ensures
        match app.on_screen(y, width, height) {
            Some(at) => y < app.body(width, height).len() && at.segment < app.lines_of_row(
                at.source as int,
                width,
            ).len() && app.body(width, height)[y as int] == app.lines_of_row(
                at.source as int,
                width,
            )[at.segment as int],
            None => y >= app.body(width, height).len(),
        },
{
    let rest = app.lines_from(app.scroll as int, width);
    match app.sticky(app.scroll as int) {
        Some(header) => {
            let top = app.lines_of_row(header as int, width);
            lemma_sticky(app, app.scroll as int, width);
            if y > 0 {
                lemma_line_below(app, app.scroll as int, (y - 1) as nat, width);
                if y - 1 < rest.len() {
                    assert((top + rest)[y as int] == rest[y - 1]);
                }
            } else {
                assert((top + rest)[0] == top[0]);
            }
        },
        None => {
            lemma_line_below(app, app.scroll as int, y, width);
            assert(Seq::<LineView>::empty() + rest =~= rest);
        },
    }
}

/// A screen is never drawn past its last line, which is the footer's.
pub proof fn law_body_leaves_the_footer(app: AppView, width: nat, height: nat)
    ensures
        app.body(width, height).len() <= nonneg(height - 1),
{
}

/// Two states in which the same lines stand below the same rows.
pub open spec fn same_layout(a: AppView, b: AppView) -> bool {
    a.rows == b.rows && a.gutter_w == b.gutter_w && a.sections == b.sections && a.pane_ratio
        == b.pane_ratio
}

/// Neither the selection nor the scroll position changes where lines stand.
pub proof fn lemma_same_lines(a: AppView, b: AppView, row: int, y: nat, width: nat)
    requires
        same_layout(a, b),
    ensures
        a.line_below(row, y, width) == b.line_below(row, y, width),
        a.visible(row) == b.visible(row),
        a.section_of(row) == b.section_of(row),
        a.sticky(row) == b.sticky(row),
        a.widths(width) == b.widths(width),
    decreases a.rows.len() - row,
{
    assert(a.visible(row) == b.visible(row));
    assert(a.widths(width) == b.widths(width));
    assert(a.section_of(row) == b.section_of(row)) by {
        assert forall|i: int| 0 <= i < a.sections.len() implies (
        #[trigger] a.sections[i]).holds(row) == b.sections[i].holds(row) by {}
    }
    if row < a.rows.len() {
        let h = a.height(row, width);
        assert(h == b.height(row, width));
        lemma_same_lines(a, b, row + 1, y, width);
        if y >= h {
            lemma_same_lines(a, b, row + 1, (y - h) as nat, width);
        }
    }
}

/// The scroll limit depends neither on the selection nor on the scroll position.
proof fn lemma_same_limit(a: AppView, b: AppView, width: nat, height: nat)
    requires
        same_layout(a, b),
    ensures
        a.scroll_limit(width, height) == b.scroll_limit(width, height),
{
    lemma_same_fitting(a, b, 0, width, height);
    lemma_same_last(a, b, a.rows.len() as int);
}

proof fn lemma_same_tail(a: AppView, b: AppView, row: int, width: nat)
    requires
        same_layout(a, b),
    ensures
        a.tail_lines(row, width) == b.tail_lines(row, width),
    decreases a.rows.len() - row,
{
    if row < a.rows.len() {
        lemma_same_lines(a, b, row, 0, width);
        assert(a.height(row, width) == b.height(row, width));
        lemma_same_tail(a, b, row + 1, width);
    }
}

proof fn lemma_same_fitting(a: AppView, b: AppView, from: int, width: nat, height: nat)
    requires
        same_layout(a, b),
    ensures
        a.first_fitting(from, width, height) == b.first_fitting(from, width, height),
    decreases a.rows.len() - from,
{
    if from < a.rows.len() {
        lemma_same_lines(a, b, from, 0, width);
        lemma_same_tail(a, b, from, width);
        lemma_same_fitting(a, b, from + 1, width, height);
    }
}

proof fn lemma_same_last(a: AppView, b: AppView, to: int)
    requires
        same_layout(a, b),
    ensures
        a.last_visible(to) == b.last_visible(to),
    decreases to,
{
    if to > 0 {
        lemma_same_lines(a, b, to - 1, 0, 0);
        lemma_same_last(a, b, to - 1);
    }
}

/// A view that has settled stays where it is.
pub proof fn law_settling_twice(app: AppView, width: nat, height: nat)
    ensures
        app.settled(width, height).settled(width, height) == app.settled(width, height),
        app.settled(width, height).scroll <= app.scroll_limit(width, height),
{
    lemma_same_limit(app, app.settled(width, height), width, height);
}

/// The visible rows are listed in ascending order: all of them, and no others.
pub proof fn law_visible_rows_are_listed(app: AppView, from: int, row: usize)
    requires
        0 <= from <= app.rows.len() <= usize::MAX,
    ensures
        ({
            let listed = app.visible_between(from, app.rows.len() as int);
            &&& listed.contains(row) <==> from <= row < app.rows.len() && app.visible(row as int)
            &&& forall|i: int, j: int|
                0 <= i < j < listed.len() ==> (#[trigger] listed[i]) < (#[trigger] listed[j])
        }),
{
    lemma_visible_ascending(app, from, app.rows.len() as int);
    lemma_listed(app, from, app.rows.len() as int, row);
}

/// A row is listed exactly if it is visible.
proof fn lemma_listed(app: AppView, from: int, to: int, row: usize)
    requires
        0 <= from,
        to <= usize::MAX,
    ensures
        app.visible_between(from, to).contains(row) <==> from <= row < to && app.visible(
            row as int,
        ),
    decreases to - from,
{
    if from < to {
        let before = app.visible_between(from, to - 1);
        lemma_listed(app, from, to - 1, row);
        if app.visible(to - 1) {
            let listed = before.push((to - 1) as usize);
            if before.contains(row) {
                let i = choose|i: int| 0 <= i < before.len() && before[i] == row;
                assert(listed[i] == row);
            }
            if row == to - 1 {
                assert(listed[before.len() as int] == row);
            }
            if listed.contains(row) && row != to - 1 {
                let i = choose|i: int| 0 <= i < listed.len() && listed[i] == row;
                assert(before[i] == row);
            }
        }
    }
}

} // verus!
