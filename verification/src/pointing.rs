//! What holds of the mouse: the divider, clicks on headers, and selections.

use vstd::prelude::*;

use crate::bytes::{
    boundary, byte_len, byte_slice, lemma_boundary, lemma_slice, lemma_slice_nonempty,
};
use crate::diff::RowView;
use crate::sections::lemma_toggled_sections;
use crate::selection::{law_lines_between_are_whole, law_reverse_drag, Hit, Pane, Selection};
use crate::state::{between, nonneg, smaller, AppView};
use crate::text::joined;
use crate::ui::lemma_section_of;
use crate::viewing::{law_file_rows_are_headers, lemma_same_lines, same_layout};

verus! {

// ---------------------------------------------------------------------------
// The divider
// ---------------------------------------------------------------------------

/// The panes and the divider between them take the whole width, and neither pane
/// is narrower than a gutter and a column of text, or than half of what there is.
pub proof fn law_panes_fill_the_width(app: AppView, width: nat)
    ensures
        app.widths(width).0 + app.widths(width).1 == nonneg(width - 1),
        app.widths(width).0 >= smaller((app.gutter_w + 1) as nat, nonneg(width - 1) / 2),
        app.widths(width).1 >= smaller((app.gutter_w + 1) as nat, nonneg(width - 1) / 2),
{
}

/// A divider that is dragged goes to the column of the mouse, or as near to it as
/// both panes stay readable.
pub proof fn law_divider_follows_the_mouse(app: AppView, x: nat, width: nat)
    requires
        app.resizing_divider,
        1 < width <= usize::MAX,
        (width - 1) * (width - 1) <= usize::MAX,
    ensures
        app.resize_dragged(x, width).widths(width).0 == between(
            smaller(x, (width - 1) as nat),
            app.min_pane(width),
            nonneg(width - 1 - app.min_pane(width)),
        ),
{
    let available = (width - 1) as nat;
    let min = app.min_pane(width);
    let left = between(smaller(x, available), min, nonneg(available - min));
    let after = app.resize_dragged(x, width);
    assert(after.pane_ratio == Some((left as usize, available as usize)));
    lemma_ratio(available, left, 1);
    assert(available * left <= available * available) by (nonlinear_arith)
        requires
            left <= available,
    ;
}

/// A multiple of a quotient.
proof fn lemma_ratio(available: nat, left: nat, k: nat)
    requires
        available > 0,
    ensures
        ((k * available) * left) / available == k * left,
{
    assert((k * available) * left == (k * left) * available) by (nonlinear_arith);
    vstd::arithmetic::div_mod::lemma_div_by_multiple((k * left) as int, available as int);
}

/// The ratio of the panes lasts: in a window with `k` times as many columns for
/// the panes, the left one has `k` times as many.
pub proof fn law_ratio_lasts(app: AppView, x: nat, width: nat, k: nat)
    requires
        app.resizing_divider,
        0 < k,
        1 < width <= usize::MAX,
        app.gutter_w + 1 <= (width - 1) / 2,
        k * (width - 1) < usize::MAX,
        (k * (width - 1)) * (width - 1) <= usize::MAX,
    ensures
        app.resize_dragged(x, width).widths((k * (width - 1) + 1) as nat).0 == k
            * app.resize_dragged(x, width).widths(width).0,
{
    let available = (width - 1) as nat;
    let wide = (k * available) as nat;
    let after = app.resize_dragged(x, width);
    let min = app.min_pane(width);
    assert((width - 1) * (width - 1) <= usize::MAX) by (nonlinear_arith)
        requires
            (k * (width - 1)) * (width - 1) <= usize::MAX,
            0 < k,
            1 < width,
    ;
    law_divider_follows_the_mouse(app, x, width);
    let left = between(smaller(x, available), min, nonneg(available - min));
    lemma_ratio(available, left, k);
    assert(wide * left <= wide * available) by (nonlinear_arith)
        requires
            left <= available,
    ;
    assert(after.preferred_left((wide + 1) as nat) == k * left);
    assert(available <= wide) by (nonlinear_arith)
        requires
            wide == k * available,
            0 < k,
    ;
    assert(left <= k * left) by (nonlinear_arith)
        requires
            0 < k,
    ;
    assert(k * left <= wide - min) by (nonlinear_arith)
        requires
            0 < k,
            wide == k * available,
            left <= available - min,
    ;
    assert(after.min_pane((wide + 1) as nat) == min);
}

/// Panes that have been reset are equally wide, but for a column left over.
pub proof fn law_reset_panes_are_equal(app: AppView, width: nat)
    ensures
        app.panes_reset().widths(width).0 == nonneg(width - 1) / 2,
{
}

// ---------------------------------------------------------------------------
// Clicks on headers
// ---------------------------------------------------------------------------

/// A click does something to a file exactly where a file row is shown, be it in its
/// place or kept at the top, and then to that file.
pub proof fn law_clicks_on_file_rows(app: AppView, y: nat, width: nat, height: nat)
    requires
        app.wf(),
    ensures
        app.section_on_screen(y, width, height) is Some <==> (app.on_screen(
            y,
            width,
            height,
        ) matches Some(at) && app.rows[at.source as int] is File),
        app.section_on_screen(y, width, height) matches Some(i) ==> 0 <= i < app.sections.len()
            && app.sections[i].header == app.on_screen(y, width, height)->0.source,
{
    if let Some(at) = app.on_screen(y, width, height) {
        let row = at.source as int;
        lemma_on_screen(app, y, width, height);
        law_file_rows_are_headers(app, row);
        if app.is_header(row) {
            let i = choose|i: int|
                0 <= i < app.sections.len() && (#[trigger] app.sections[i]).header == row;
            assert(app.sections[i].holds(row));
            lemma_section_of(app, i, row);
        }
        if let Some(i) = app.section_of(row) {
            assert(0 <= i < app.sections.len() && app.sections[i].holds(row));
            if app.sections[i].header == row {
                assert(app.is_header(row));
            }
        }
    }
}

/// What is on the screen is a row.
proof fn lemma_on_screen(app: AppView, y: nat, width: nat, height: nat)
    requires
        app.wf(),
    ensures
        app.on_screen(y, width, height) matches Some(at) ==> at.source < app.rows.len(),
{
    let top = app.scroll as int;
    lemma_below(app, top, y, width);
    lemma_below(app, top, nonneg(y - 1), width);
    if let Some(i) = app.section_of(top) {
        assert(0 <= i < app.sections.len() && app.sections[i].holds(top));
    }
}

/// After a click on a header below the top of the screen, normalizing the scroll
/// position changes nothing, whatever the limits, however often, and whether the
/// selection and the divider have been let go of or not.
pub proof fn law_normalizing_after_a_click_changes_nothing(
    app: AppView,
    y: nat,
    width: nat,
    height: nat,
    max: usize,
    other: usize,
)
    requires
        0 < y,
        app.section_on_screen(y, width, height) is Some,
    ensures
        ({
            let after = app.toggled_at(y, width, height);
            &&& after.normalized(max) == after
            &&& after.normalized(max).normalized(other) == after
            &&& after.cancelled().normalized(max) == after.cancelled()
            &&& after.normalized(max).cancelled().normalized(other) == after.cancelled()
        }),
{
}

/// A scroll position that is not to be kept is normalized to the limit where it is
/// past it, unless a file row is there.
pub proof fn law_normalizing_spares_file_rows(app: AppView, max: usize)
    requires
        app.wf(),
        app.preserve_scroll != Some(app.scroll),
    ensures
        app.normalized(max).preserve_scroll is None,
        app.normalized(max).scroll == if app.scroll > max && !(app.scroll < app.rows.len()
            && app.rows[app.scroll as int] is File) {
            max
        } else {
            app.scroll
        },
{
    if app.scroll < app.rows.len() {
        law_file_rows_are_headers(app, app.scroll as int);
    } else if app.is_header(app.scroll as int) {
        let i = choose|i: int|
            0 <= i < app.sections.len() && (#[trigger] app.sections[i]).header == app.scroll;
        assert(app.sections[i].header < app.rows.len());
    }
}

/// Clicking a header below the top of the screen leaves it and everything above it
/// where it is, and the view stays there though it is past the scroll limit.
pub proof fn law_clicking_a_header_keeps_what_is_above(
    app: AppView,
    y: nat,
    z: nat,
    width: nat,
    height: nat,
    max: usize,
)
    requires
        app.wf(),
        0 < y,
        z <= y,
        app.section_on_screen(y, width, height) is Some,
    ensures
        app.toggled_at(y, width, height).on_screen(z, width, height) == app.on_screen(
            z,
            width,
            height,
        ),
        app.toggled_at(y, width, height).normalized(max) == app.toggled_at(y, width, height),
{
    let i = app.section_on_screen(y, width, height)->0;
    let after = app.toggled_at(y, width, height);
    let at = app.on_screen(y, width, height)->0;
    let header = app.sections[i].header as int;
    let top = app.scroll as int;
    assert(app.section_of(at.source as int) == Some(i));
    assert(0 <= i < app.sections.len() && app.sections[i].holds(at.source as int));
    assert(after.sections[i].header == header);
    assert forall|row: int| row <= header implies after.visible(row) == #[trigger] app.visible(
        row,
    ) by {
        lemma_visible_above(app, after, i, row);
    }
    lemma_toggled_sound(app, after, i);
    let below = if app.sticky(top) is Some {
        (y - 1) as nat
    } else {
        y
    };
    lemma_clicked_header_is_below(app, y, width, height);
    // so what sticks stays
    match app.section_of(top) {
        Some(j) => {
            assert(0 <= j < app.sections.len() && app.sections[j].holds(top));
            assert(j != i);
            assert(after.sections[j].holds(top));
            lemma_section_of(after, j, top);
        },
        None => {
            if after.section_of(top) is Some {
                let j = after.section_of(top)->0;
                assert(0 <= j < after.sections.len() && after.sections[j].holds(top));
                assert(app.sections[j].holds(top));
            }
        },
    }
    assert(after.sticky(top) == app.sticky(top));
    assert(after.widths(width) == app.widths(width));
    let z_below = if app.sticky(top) is Some {
        nonneg(z - 1)
    } else {
        z
    };
    lemma_same_above(app, after, top, header, below, z_below, width);
}

/// A header that is clicked below the top of the screen is below the row at the
/// top.
pub proof fn lemma_clicked_header_is_below(app: AppView, y: nat, width: nat, height: nat)
    requires
        app.wf(),
        0 < y,
        app.section_on_screen(y, width, height) is Some,
    ensures
        0 <= app.section_on_screen(y, width, height)->0 < app.sections.len(),
        app.sections[app.section_on_screen(y, width, height)->0].header > app.scroll,
{
    let i = app.section_on_screen(y, width, height)->0;
    let at = app.on_screen(y, width, height)->0;
    let header = app.sections[i].header as int;
    let top = app.scroll as int;
    assert(app.section_of(at.source as int) == Some(i));
    assert(0 <= i < app.sections.len() && app.sections[i].holds(at.source as int));
    let below = if app.sticky(top) is Some {
        (y - 1) as nat
    } else {
        y
    };
    assert(app.line_below(top, below, width) == Some(at));
    lemma_below(app, top, below, width);
    if header == top {
        lemma_section_of(app, i, top);
        assert(app.rows[header] is File);
        assert(app.visible(header));
        assert(app.height(header, width) == 1);
        assert(app.line_below(top, y, width) == Some(at));
        lemma_below(app, top + 1, (y - 1) as nat, width);
        assert(false);
    }
}

/// A line below a row belongs to that row or one below it.
proof fn lemma_below(app: AppView, row: int, y: nat, width: nat)
    requires
        0 <= row,
        app.rows.len() <= usize::MAX,
    ensures
        app.line_below(row, y, width) matches Some(at) ==> row <= at.source < app.rows.len()
            && app.visible(at.source as int),
    decreases app.rows.len() - row,
{
    if row < app.rows.len() {
        if !app.visible(row) {
            lemma_below(app, row + 1, y, width);
        } else if y >= app.height(row, width) {
            lemma_below(app, row + 1, (y - app.height(row, width)) as nat, width);
        }
    }
}

/// Toggling a section changes nothing about the rows up to its header.
pub proof fn lemma_visible_above(app: AppView, after: AppView, i: int, row: int)
    requires
        0 <= i < app.sections.len(),
        after.sections == app.toggled(i).sections,
        row <= app.sections[i].header,
    ensures
        after.visible(row) == app.visible(row),
{
    if app.visible(row) {
        assert forall|j: int| 0 <= j < after.sections.len() implies !(
        #[trigger] after.sections[j]).hides(row) by {
            assert(!app.sections[j].hides(row));
        }
    }
    if after.visible(row) {
        assert forall|j: int| 0 <= j < app.sections.len() implies !(
        #[trigger] app.sections[j]).hides(row) by {
            assert(!after.sections[j].hides(row));
        }
    }
}

/// A toggled section keeps its place among the others.
pub proof fn lemma_toggled_sound(app: AppView, after: AppView, i: int)
    requires
        app.wf(),
        0 <= i < app.sections.len(),
        after.sections == app.toggled(i).sections,
        after.rows == app.rows,
        after.gutter_w == app.gutter_w,
        after.selection is None,
    ensures
        after.wf(),
{
    lemma_toggled_sections(app.sections, app.rows, i, !app.sections[i].collapsed);
}

/// Lines above a header stand where they stood.
proof fn lemma_same_above(
    app: AppView,
    after: AppView,
    row: int,
    header: int,
    y: nat,
    z: nat,
    width: nat,
)
    requires
        0 <= row <= header,
        z <= y,
        after.rows == app.rows,
        after.gutter_w == app.gutter_w,
        after.widths(width) == app.widths(width),
        app.rows.len() <= usize::MAX,
        forall|k: int| k <= header ==> after.visible(k) == #[trigger] app.visible(k),
        app.line_below(row, y, width) matches Some(at) && at.source == header,
    ensures
        after.line_below(row, z, width) == app.line_below(row, z, width),
    decreases header - row,
{
    assert(app.visible(row) == after.visible(row));
    assert(after.height(row, width) == app.height(row, width));
    let h = app.height(row, width);
    if row == header {
        if app.visible(row) && y >= h {
            lemma_below(app, row + 1, (y - h) as nat, width);
        }
        if !app.visible(row) {
            lemma_below(app, row + 1, y, width);
        }
    } else {
        if !app.visible(row) {
            lemma_same_above(app, after, row + 1, header, y, z, width);
        } else if z >= h {
            lemma_same_above(app, after, row + 1, header, (y - h) as nat, (z - h) as nat, width);
        }
    }
}

// ---------------------------------------------------------------------------
// Selections
// ---------------------------------------------------------------------------

/// Neither the footer nor the divider begins a selection.
pub proof fn law_only_text_is_selected(app: AppView, x: nat, y: nat, width: nat, height: nat)
    requires
        y >= nonneg(height - 1) || x == app.widths(width).0,
    ensures
        app.selection_begun(x, y, width, height).selection is None,
{
}

/// File headers, hunk headers, raw lines and absent sides begin no selection.
pub proof fn law_only_cells_are_selected(app: AppView, x: nat, y: nat, width: nat, height: nat)
    requires
        app.on_screen(y, width, height) matches Some(at) ==> app.cell_at(
            Pane::Left,
            at.source as int,
        ) is None || x > app.widths(width).0,
        app.on_screen(y, width, height) matches Some(at) ==> app.cell_at(
            Pane::Right,
            at.source as int,
        ) is None || x < app.widths(width).0,
    ensures
        app.selection_begun(x, y, width, height).selection is None,
{
}

/// A selection stays in the pane that it began in, wherever it is dragged.
pub proof fn law_dragging_stays_in_the_pane(app: AppView, x: nat, y: nat, width: nat, height: nat)
    requires
        app.selection is Some,
    ensures
        app.selection_dragged(x, y, width, height).selection matches Some(after) && after.pane
            == app.selection->0.pane && after.anchor == app.selection->0.anchor,
{
}

/// A click copies nothing, nor does a drag within the glyph it began at.
pub proof fn law_a_click_copies_nothing(app: AppView, x: nat, y: nat, width: nat, height: nat)
    ensures
        app.selection_begun(x, y, width, height).text_to_copy() is None,
        app.selection_begun(x, y, width, height).selection_dragged(
            x,
            y,
            width,
            height,
        ).text_to_copy() is None,
{
    let begun = app.selection_begun(x, y, width, height);
    assert(same_layout(app, begun));
    if let Some(pane) = app.pane_at(x, width) {
        lemma_same_hit(app, begun, pane, x, y, width, height);
    }
}

/// Where the mouse points depends neither on the selection nor on the divider.
pub proof fn lemma_same_hit(
    a: AppView,
    b: AppView,
    pane: Pane,
    x: nat,
    y: nat,
    width: nat,
    height: nat,
)
    requires
        same_layout(a, b),
        a.scroll == b.scroll,
    ensures
        a.hit_at(pane, x, y, width, height) == b.hit_at(pane, x, y, width, height),
{
    lemma_same_lines(a, b, a.scroll as int, y, width);
    lemma_same_lines(a, b, a.scroll as int, nonneg(y - 1), width);
    assert(a.on_screen(y, width, height) == b.on_screen(y, width, height));
    assert(a.pane_column(pane, x, width) == b.pane_column(pane, x, width));
}

/// Nor does which header it points at.
pub proof fn lemma_same_section_on_screen(
    a: AppView,
    b: AppView,
    y: nat,
    width: nat,
    height: nat,
)
    requires
        same_layout(a, b),
        a.scroll == b.scroll,
    ensures
        a.section_on_screen(y, width, height) == b.section_on_screen(y, width, height),
{
    lemma_same_lines(a, b, a.scroll as int, y, width);
    lemma_same_lines(a, b, a.scroll as int, nonneg(y - 1), width);
    assert(a.on_screen(y, width, height) == b.on_screen(y, width, height));
}

/// Dragging backwards copies what dragging forwards does.
pub proof fn law_reverse_drag_copies_the_same(app: AppView, selection: Selection)
    ensures
        app.selected_text(selection.turned()) == app.selected_text(selection),
{
    assert(selection.turned().first() == selection.first());
    assert(selection.turned().last() == selection.last());
    lemma_turned_parts(
        app,
        selection,
        selection.first().row as int,
        selection.last().row + 1,
    );
}

proof fn lemma_turned_parts(app: AppView, selection: Selection, from: int, to: int)
    requires
        0 <= from,
    ensures
        app.selected_parts(selection.turned(), from, to) == app.selected_parts(selection, from, to),
    decreases to - from,
{
    if from < to {
        lemma_turned_parts(app, selection, from, to - 1);
        if let Some(cell) = app.cell_at(selection.pane, to - 1) {
            law_reverse_drag(
                selection,
                selection.pane,
                (to - 1) as nat,
                byte_len(cell.text),
            );
        }
    }
}

/// Rows that are hidden, that are no lines of the files, or that are absent in the
/// pane, are not copied.
pub proof fn law_only_visible_cells_are_copied(app: AppView, selection: Selection, row: int)
    requires
        !app.visible(row) || app.cell_at(selection.pane, row) is None,
    ensures
        app.selected_bytes(selection, row) is None,
{
}

/// A visible line between the ends of a selection is copied as it is in the file,
/// whole, with its tabs and whatever its wrapping.
pub proof fn law_lines_between_are_copied_whole(app: AppView, selection: Selection, row: int)
    requires
        selection.first().row < row < selection.last().row,
        app.visible(row),
        app.cell_at(selection.pane, row) is Some,
        byte_len(app.cell_at(selection.pane, row)->0.text) <= usize::MAX,
    ensures
        app.selected_bytes(selection, row) is Some,
        byte_slice(
            app.cell_at(selection.pane, row)->0.text,
            app.selected_bytes(selection, row)->0.start as int,
            app.selected_bytes(selection, row)->0.end as int,
        ) == app.cell_at(selection.pane, row)->0.text,
{
    let text = app.cell_at(selection.pane, row)->0.text;
    let none = Seq::<char>::empty();
    law_lines_between_are_whole(selection, row as nat, byte_len(text));
    lemma_slice(none, text, none);
    assert(none + text + none =~= text);
    assert(byte_len(none) == 0);
}

/// What is selected between two glyphs depends neither on the scroll position nor
/// on what else is going on.
proof fn lemma_same_parts(a: AppView, b: AppView, selection: Selection, from: int, to: int)
    requires
        same_layout(a, b),
    ensures
        a.selected_parts(selection, from, to) == b.selected_parts(selection, from, to),
    decreases to - from,
{
    if from < to {
        lemma_same_parts(a, b, selection, from, to - 1);
        lemma_same_lines(a, b, to - 1, 0, 0);
        assert(a.cell_at(selection.pane, to - 1) == b.cell_at(selection.pane, to - 1));
    }
}

/// The text that a drag from one glyph to another copies.
pub open spec fn text_between(app: AppView, pane: Pane, from: Hit, to: Hit) -> Option<Seq<char>> {
    let selection = Selection { pane, anchor: from, head: to, dragged: true };
    if from != to && app.selected_text(selection).len() > 0 {
        Some(app.selected_text(selection))
    } else {
        None
    }
}

/// What lies between two glyphs does not depend on what else is going on.
pub proof fn lemma_same_text_between(a: AppView, b: AppView, pane: Pane, from: Hit, to: Hit)
    requires
        same_layout(a, b),
    ensures
        text_between(a, pane, from, to) == text_between(b, pane, from, to),
{
    let selection = Selection { pane, anchor: from, head: to, dragged: true };
    lemma_same_parts(
        a,
        b,
        selection,
        selection.first().row as int,
        selection.last().row + 1,
    );
}

/// A drag copies what lies between the glyph where it begins and the one where it
/// ends, in the pane where it begins.
pub proof fn law_a_drag_copies_what_lies_between(
    app: AppView,
    pane: Pane,
    x1: nat,
    y1: nat,
    x2: nat,
    y2: nat,
    width: nat,
    height: nat,
)
    requires
        app.pane_at(x1, width) == Some(pane),
        app.hit_at(pane, x1, y1, width, height) is Some,
        app.hit_at(pane, x2, y2, width, height) is Some,
    ensures
        app.selection_begun(x1, y1, width, height).selection_dragged(
            x2,
            y2,
            width,
            height,
        ).text_to_copy() == text_between(
            app,
            pane,
            app.hit_at(pane, x1, y1, width, height)->0,
            app.hit_at(pane, x2, y2, width, height)->0,
        ),
{
    let begun = app.selection_begun(x1, y1, width, height);
    let dragged = begun.selection_dragged(x2, y2, width, height);
    let from = app.hit_at(pane, x1, y1, width, height)->0;
    let to = app.hit_at(pane, x2, y2, width, height)->0;
    let selection = Selection { pane, anchor: from, head: to, dragged: true };
    lemma_same_hit(app, begun, pane, x2, y2, width, height);
    assert(dragged.selection == Some(Selection { dragged: from != to, ..selection }));
    lemma_same_parts(
        dragged,
        app,
        selection,
        selection.first().row as int,
        selection.last().row + 1,
    );
}

/// Nothing is lost of what is joined.
proof fn lemma_joined_grows(parts: Seq<Seq<char>>, part: Seq<char>, sep: Seq<char>)
    ensures
        joined(parts.push(part), sep).len() >= part.len(),
        joined(parts.push(part), sep).len() >= joined(parts, sep).len(),
{
    assert(parts.push(part).drop_last() =~= parts);
}

/// Where one selected row has text, the selection has.
proof fn lemma_some_text(app: AppView, selection: Selection, row: int, from: int, to: int)
    requires
        from <= row < to,
        app.selected_bytes(selection, row) matches Some(bytes) && byte_slice(
            app.cell_at(selection.pane, row)->0.text,
            bytes.start as int,
            bytes.end as int,
        ).len() > 0,
    ensures
        joined(app.selected_parts(selection, from, to), "\n"@).len() > 0,
    decreases to - from,
{
    let before = app.selected_parts(selection, from, to - 1);
    if let Some(bytes) = app.selected_bytes(selection, to - 1) {
        let part = byte_slice(
            app.cell_at(selection.pane, to - 1)->0.text,
            bytes.start as int,
            bytes.end as int,
        );
        lemma_joined_grows(before, part, "\n"@);
    }
    if row < to - 1 {
        lemma_some_text(app, selection, row, from, to - 1);
    }
}

/// A drag between two different glyphs of a pane copies something.
pub proof fn law_a_drag_between_glyphs_copies_something(
    app: AppView,
    pane: Pane,
    x1: nat,
    y1: nat,
    x2: nat,
    y2: nat,
    width: nat,
    height: nat,
)
    requires
        app.wf(),
        app.pane_at(x1, width) == Some(pane),
        app.hit_at(pane, x1, y1, width, height) matches Some(from) && app.is_text(pane, from)
            && byte_len(app.cell_at(pane, from.row as int)->0.text) <= usize::MAX,
        app.hit_at(pane, x2, y2, width, height) matches Some(to) && app.is_text(pane, to)
            && byte_len(app.cell_at(pane, to.row as int)->0.text) <= usize::MAX,
        app.hit_at(pane, x1, y1, width, height) != app.hit_at(pane, x2, y2, width, height),
    ensures
        app.selection_begun(x1, y1, width, height).selection_dragged(
            x2,
            y2,
            width,
            height,
        ).text_to_copy() is Some,
{
    let from = app.hit_at(pane, x1, y1, width, height)->0;
    let to = app.hit_at(pane, x2, y2, width, height)->0;
    let selection = Selection { pane, anchor: from, head: to, dragged: true };
    law_a_drag_copies_what_lies_between(app, pane, x1, y1, x2, y2, width, height);
    lemma_hit_visible(app, pane, x1, y1, width, height);
    lemma_hit_visible(app, pane, x2, y2, width, height);
    let first = selection.first();
    let last = selection.last();
    let row = first.row as int;
    let text = app.cell_at(pane, row)->0.text;
    let bytes = app.selected_bytes(selection, row)->0;
    assert(first.start < first.end <= byte_len(text));
    assert(app.selected_bytes(selection, row) is Some);
    assert(boundary(text, byte_len(text) as int)) by {
        let none = Seq::<char>::empty();
        lemma_boundary(text, none);
        assert(text + none =~= text);
    }
    lemma_slice_nonempty(text, bytes.start as int, bytes.end as int);
    lemma_some_text(app, selection, row, row, last.row + 1);
}

/// A row with text under the mouse is visible.
proof fn lemma_hit_visible(app: AppView, pane: Pane, x: nat, y: nat, width: nat, height: nat)
    requires
        app.wf(),
        app.hit_at(pane, x, y, width, height) is Some,
    ensures
        app.visible(app.hit_at(pane, x, y, width, height)->0.row as int),
{
    let top = app.scroll as int;
    lemma_below(app, top, y, width);
    lemma_below(app, top, nonneg(y - 1), width);
    if let Some(i) = app.section_of(top) {
        assert(0 <= i < app.sections.len() && app.sections[i].holds(top));
        assert(app.rows[app.sections[i].header as int] is File);
    }
}

/// Dragging from one glyph of a pane to another and back the other way copies the
/// same text.
pub proof fn law_a_drag_copies_the_same_either_way(
    app: AppView,
    pane: Pane,
    x1: nat,
    y1: nat,
    x2: nat,
    y2: nat,
    width: nat,
    height: nat,
)
    requires
        app.pane_at(x1, width) == Some(pane),
        app.pane_at(x2, width) == Some(pane),
        app.hit_at(pane, x1, y1, width, height) is Some,
        app.hit_at(pane, x2, y2, width, height) is Some,
    ensures
        app.selection_begun(x1, y1, width, height).selection_dragged(
            x2,
            y2,
            width,
            height,
        ).text_to_copy() == app.selection_begun(x2, y2, width, height).selection_dragged(
            x1,
            y1,
            width,
            height,
        ).text_to_copy(),
{
    law_a_drag_copies_what_lies_between(app, pane, x1, y1, x2, y2, width, height);
    law_a_drag_copies_what_lies_between(app, pane, x2, y2, x1, y1, width, height);
    let from = app.hit_at(pane, x1, y1, width, height)->0;
    let to = app.hit_at(pane, x2, y2, width, height)->0;
    let selection = Selection { pane, anchor: from, head: to, dragged: true };
    law_reverse_drag_copies_the_same(app, selection);
}

// ---------------------------------------------------------------------------
// Widths
// ---------------------------------------------------------------------------

/// A divider that is dragged to where both panes keep a gutter and a column of text goes
/// there.
pub proof fn law_the_divider_goes_where_both_panes_stay_readable(
    app: AppView,
    x: nat,
    width: nat,
)
    requires
        app.resizing_divider,
        1 < width <= usize::MAX,
        (width - 1) * (width - 1) <= usize::MAX,
        app.gutter_w + 1 <= x,
        x + app.gutter_w + 1 <= width - 1,
    ensures
        app.resize_dragged(x, width).widths(width) == (x, (width - 1 - x) as nat),
{
    law_divider_follows_the_mouse(app, x, width);
}

/// In a window of any other width the left pane has as large a part of it as it had,
/// rounded down, where that leaves both panes readable.
pub proof fn law_the_ratio_is_kept_at_any_width(
    app: AppView,
    left: usize,
    total: usize,
    w: nat,
    q: nat,
)
    requires
        app.pane_ratio == Some((left, total)),
        0 < w,
        q * total <= (w - 1) * left < (q + 1) * total,
        (w - 1) * left <= usize::MAX,
        app.gutter_w + 1 <= q,
        q + app.gutter_w + 1 <= w - 1,
    ensures
        app.widths(w) == (q, (w - 1 - q) as nat),
{
    let product = (w - 1) * left;
    let r = product - q * total;
    assert(product == q * total + r);
    assert((q + 1) * total == q * total + total) by (nonlinear_arith);
    vstd::arithmetic::div_mod::lemma_fundamental_div_mod_converse(
        product,
        total as int,
        q as int,
        r,
    );
    assert(app.preferred_left(w) == q);
}

/// When a diff is first shown, the panes are equally wide, but for a column left over.
pub proof fn law_panes_are_equal_at_first(rows: Seq<RowView>, width: nat)
    ensures
        AppView::initial(rows).widths(width).0 == nonneg(width - 1) / 2,
        AppView::initial(rows).widths(width).1 == nonneg(width - 1) - nonneg(width - 1) / 2,
{
}

/// A view that is past the limit of its window settles at the limit; any other stays.
/// Nothing else changes.
pub proof fn law_settling_goes_to_the_limit(app: AppView, width: nat, height: nat)
    ensures
        app.scroll <= app.scroll_limit(width, height) ==> app.settled(width, height) == app,
        app.scroll > app.scroll_limit(width, height) ==> app.settled(width, height) == (AppView {
            scroll: app.scroll_limit(width, height),
            ..app
        }),
{
}

} // verus!
