//! What holds of the viewer from event to event.

use vstd::prelude::*;

use crate::diff::RowView;
use crate::events::{ActionView, Event, KeyCode, KeyEvent, KeyEventKind};
use crate::pointing::{lemma_clicked_header_is_below, lemma_toggled_sound, lemma_visible_above};
use crate::state::AppView;
use crate::viewing::{
    law_file_jump, law_headers_stay_visible, law_scroll_limit, law_scrolling_up, lemma_steps_down,
};

verus! {

/// Whether the row at the top of the screen is there to be seen.
pub open spec fn top_is_shown(app: AppView) -> bool {
    app.scroll < app.rows.len() && app.visible(app.scroll as int)
}

/// Which rows are visible depends on the sections alone.
proof fn lemma_same_visible(a: AppView, b: AppView, row: int)
    requires
        a.sections == b.sections,
    ensures
        a.visible(row) == b.visible(row),
{
}

/// Scrolling ends at a row that is shown.
proof fn lemma_scrolled_top(app: AppView, count: nat, max: usize)
    requires
        app.wf(),
        top_is_shown(app),
        max < app.rows.len() && app.visible(max as int),
    ensures
        top_is_shown(app.scrolled_down(count, max)),
        top_is_shown(app.scrolled_up(count)),
{
    lemma_steps_down(app, app.scroll, count, max);
    law_scrolling_up(app, app.scroll, count);
    let down = app.scrolled_down(count, max);
    let up = app.scrolled_up(count);
    lemma_same_visible(app, down, down.scroll as int);
    lemma_same_visible(app, up, up.scroll as int);
}

/// A header at the top is shown, whether its section is open or not.
proof fn lemma_header_top(app: AppView, after: AppView, i: int)
    requires
        app.wf(),
        0 <= i < app.sections.len(),
        after.sections == app.toggled(i).sections,
        after.rows == app.rows,
        after.gutter_w == app.gutter_w,
        after.selection is None,
        after.scroll == app.sections[i].header,
    ensures
        top_is_shown(after),
{
    lemma_toggled_sound(app, after, i);
    assert(after.sections[i].header == after.scroll);
    assert(after.is_header(after.scroll as int));
    law_headers_stay_visible(after, after.scroll as int);
}

/// Toggling the file at the scroll position leaves its header at the top.
proof fn lemma_current_toggled_top(app: AppView)
    requires
        app.wf(),
        top_is_shown(app),
    ensures
        top_is_shown(app.current_toggled()),
{
    if let Some(i) = app.section_of(app.scroll as int) {
        assert(0 <= i < app.sections.len() && app.sections[i].holds(app.scroll as int));
        lemma_header_top(app, app.current_toggled(), i);
    }
}

/// Clicking a header leaves a row at the top that is shown.
proof fn lemma_toggled_at_top(app: AppView, y: nat, width: nat, height: nat)
    requires
        app.wf(),
        top_is_shown(app),
    ensures
        top_is_shown(app.toggled_at(y, width, height)),
{
    if let Some(i) = app.section_on_screen(y, width, height) {
        let after = app.toggled_at(y, width, height);
        let at = app.on_screen(y, width, height)->0;
        assert(app.section_of(at.source as int) == Some(i));
        assert(0 <= i < app.sections.len() && app.sections[i].holds(at.source as int));
        if y == 0 {
            lemma_header_top(app, after, i);
        } else {
            lemma_clicked_header_is_below(app, y, width, height);
            lemma_visible_above(app, after, i, app.scroll as int);
        }
    }
}

/// A key that does not leave leaves a row at the top that is shown.
proof fn lemma_moved_top(app: AppView, key: KeyEvent, half: nat, max: usize)
    requires
        app.wf(),
        top_is_shown(app),
        max < app.rows.len() && app.visible(max as int),
    ensures
        top_is_shown(app.moved_by(key, half, max)),
{
    lemma_scrolled_top(app, 1, max);
    lemma_scrolled_top(app, half, max);
    lemma_current_toggled_top(app);
    let after = app.moved_by(key, half, max);
    if key.code == KeyCode::Char('n') {
        lemma_jumped_top(app, true);
    } else if key.code == KeyCode::Char('p') {
        lemma_jumped_top(app, false);
    } else if key.code == KeyCode::Char('g') {
        assert(app.visible(0));
        lemma_same_visible(app, after, 0);
    } else if key.code == KeyCode::Char('G') {
        lemma_same_visible(app, after, max as int);
    } else if after.sections == app.sections && after.scroll == app.scroll {
        lemma_same_visible(app, after, app.scroll as int);
    }
}

/// Jumping to a file leads to a row that is shown.
proof fn lemma_jumped_top(app: AppView, forward: bool)
    requires
        app.wf(),
        top_is_shown(app),
    ensures
        top_is_shown(app.jumped_to(app.file_from_here(forward))),
{
    law_file_jump(app, forward);
    if let Some(header) = app.file_from_here(forward) {
        let after = app.scrolled_to(header);
        law_headers_stay_visible(app, header as int);
        let i = choose|i: int|
            0 <= i < app.sections.len() && (#[trigger] app.sections[i]).header == header;
        assert(app.sections[i].header < app.rows.len());
        lemma_same_visible(app, after, header as int);
    }
}

/// Whatever happens, the row at the top of the screen stays one that is shown: no
/// event leaves the view inside what is collapsed or past the end.
pub proof fn law_the_top_row_stays_shown(app: AppView, event: Event, width: nat, height: nat)
    requires
        app.wf(),
        top_is_shown(app),
    ensures
        top_is_shown(
            app.after_event(event, width, height, app.scroll_limit(width, height)),
        ),
{
    let max = app.scroll_limit(width, height);
    law_scroll_limit(app, width, height);
    let after = app.after_event(event, width, height, max);
    let quiet = app.cancelled().without_status();
    assert forall|row: int| #[trigger] quiet.visible(row) == app.visible(row) by {
        lemma_same_visible(app, quiet, row);
    }
    match event {
        Event::Key(key) => {
            lemma_moved_top(quiet, key, height / 2, max);
        },
        Event::Mouse(m) => {
            lemma_scrolled_top(quiet, 3, max);
            let told = app.without_status();
            lemma_same_visible(app, told, app.scroll as int);
            lemma_toggled_at_top(told, m.row as nat, width, height);
            if after.sections == app.sections && after.scroll == app.scroll {
                lemma_same_visible(app, after, app.scroll as int);
            }
        },
        _ => {
            lemma_same_visible(app, after, app.scroll as int);
        },
    }
}

/// Nor does settling at the limit of a window of another size.
pub proof fn law_settling_shows_the_top_row(app: AppView, width: nat, height: nat)
    requires
        app.wf(),
        top_is_shown(app),
    ensures
        top_is_shown(app.settled(width, height)),
{
    let after = app.settled(width, height);
    law_scroll_limit(app, width, height);
    lemma_same_visible(app, after, after.scroll as int);
}

/// A diff is first shown with its first row at the top.
pub proof fn law_the_first_row_is_shown_first(rows: Seq<RowView>)
    requires
        rows.len() > 0,
    ensures
        top_is_shown(AppView::initial(rows)),
{
}

/// Letting go of a key does nothing, whichever key it is.
pub proof fn law_releases_are_ignored(
    app: AppView,
    key: KeyEvent,
    width: nat,
    height: nat,
    max: usize,
)
    requires
        key.kind == KeyEventKind::Release,
    ensures
        app.after_event(Event::Key(key), width, height, max) == app,
        app.answer_to(Event::Key(key)) == ActionView::Continue,
{
}

/// Only keys leave the viewer, and only the mouse copies.
pub proof fn law_keys_leave_and_the_mouse_copies(app: AppView, event: Event)
    ensures
        app.answer_to(event) == ActionView::Quit ==> event is Key,
        app.answer_to(event) is Copy ==> event is Mouse && app.selection is Some,
{
}

} // verus!
