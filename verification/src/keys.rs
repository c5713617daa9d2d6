//! What holds of the keys, the wheel and the buttons of the mouse.

use vstd::prelude::*;

use crate::events::{
    ActionView, Event, KeyCode, KeyEvent, KeyEventKind, MouseButton, MouseEvent, MouseEventKind,
};
use crate::pointing::{
    law_a_drag_copies_what_lies_between, lemma_same_hit, lemma_same_section_on_screen,
    lemma_same_text_between, text_between,
};
use crate::selection::Pane;
use crate::state::{smaller, AppView};
use crate::ui::lemma_section_of;

verus! {

/// A key that goes down.
pub open spec fn press(code: KeyCode, ctrl: bool) -> Event {
    Event::Key(KeyEvent { code, kind: KeyEventKind::Press, ctrl })
}

/// The left button of the mouse, at a place on the screen, without shift.
pub open spec fn left_button(kind: MouseEventKind, x: u16, y: u16) -> Event {
    Event::Mouse(MouseEvent { kind, column: x, row: y, shift: false })
}

/// A turn of the wheel.
pub open spec fn wheel(down: bool, x: u16, y: u16, shift: bool) -> Event {
    Event::Mouse(
        MouseEvent {
            kind: if down {
                MouseEventKind::ScrollDown
            } else {
                MouseEventKind::ScrollUp
            },
            column: x,
            row: y,
            shift,
        },
    )
}

/// What an event does that happens some times.
pub open spec fn repeatedly(
    app: AppView,
    event: Event,
    times: nat,
    width: nat,
    height: nat,
    max: usize,
) -> AppView
    decreases times,
{
    if times == 0 {
        app
    } else {
        repeatedly(app, event, (times - 1) as nat, width, height, max).after_event(
            event,
            width,
            height,
            max,
        )
    }
}

/// Without a selection, a divider being moved, a message, or a scroll position to be
/// kept.
pub open spec fn at_rest(app: AppView) -> AppView {
    AppView {
        selection: None,
        resizing_divider: false,
        status: None,
        preserve_scroll: None,
        ..app
    }
}

// ---------------------------------------------------------------------------
// Scrolling
// ---------------------------------------------------------------------------

/// One step down leads to the nearest visible row below, or to the limit where that
/// comes first; nowhere where no visible row is below. One step up leads to the nearest
/// visible row above, if there is one. That is what `j` and `k` do, and the arrows, and
/// nothing else moves.
pub proof fn law_j_and_k_go_one_row(
    app: AppView,
    ctrl: bool,
    width: nat,
    height: nat,
    max: usize,
)
    requires
        app.wf(),
    ensures
        ({
            let down = app.after_event(press(KeyCode::Char('j'), ctrl), width, height, max);
            let up = app.after_event(press(KeyCode::Char('k'), ctrl), width, height, max);
            &&& down == (AppView { scroll: down.scroll, ..at_rest(app) })
            &&& up == (AppView { scroll: up.scroll, ..at_rest(app) })
            &&& down == app.after_event(press(KeyCode::Down, ctrl), width, height, max)
            &&& up == app.after_event(press(KeyCode::Up, ctrl), width, height, max)
            &&& forall|row: int|
                app.scroll < row < app.rows.len() && #[trigger] app.visible(row) && (forall|k: int|
                    app.scroll < k < row ==> !#[trigger] app.visible(k)) ==> down.scroll
                    == smaller(row as nat, max as nat)
            &&& (forall|k: int| app.scroll < k < app.rows.len() ==> !#[trigger] app.visible(k))
                ==> down.scroll == app.scroll
            &&& forall|row: int|
                0 <= row < app.scroll && #[trigger] app.visible(row) && (forall|k: int|
                    row < k < app.scroll ==> !#[trigger] app.visible(k)) ==> up.scroll == row
            &&& (forall|k: int| 0 <= k < app.scroll ==> !#[trigger] app.visible(k)) ==> up.scroll
                == app.scroll
        }),
{
    let quiet = app.cancelled().without_status();
    lemma_same_steps(app, quiet, app.scroll, 1, max);
    reveal_with_fuel(AppView::steps_down, 2);
    reveal_with_fuel(AppView::steps_up, 2);
    assert(app.steps_down(app.scroll, 1, max) == match app.next_visible(app.scroll + 1) {
        Some(next) => if next > max {
            max
        } else {
            next
        },
        None => app.scroll,
    });
    if app.next_visible(app.scroll + 1) is None {
        lemma_none_visible_from(app, app.scroll + 1);
    }
    if app.last_visible(app.scroll as int) is None {
        lemma_none_visible_before(app, app.scroll as int);
    } else {
        lemma_none_between(app, app.scroll as int);
    }
    if let Some(next) = app.next_visible(app.scroll + 1) {
        lemma_none_until(app, app.scroll + 1);
    }
}

/// Which rows are visible, and where steps lead, depends on the rows and the sections.
proof fn lemma_same_steps(a: AppView, b: AppView, row: usize, count: nat, max: usize)
    requires
        a.rows == b.rows,
        a.sections == b.sections,
    ensures
        a.steps_down(row, count, max) == b.steps_down(row, count, max),
        a.steps_up(row, count) == b.steps_up(row, count),
    decreases count,
{
    if count > 0 {
        lemma_same_next(a, b, row + 1);
        lemma_same_last(a, b, row as int);
        if let Some(next) = a.next_visible(row + 1) {
            lemma_same_steps(a, b, next, (count - 1) as nat, max);
        }
        if let Some(previous) = a.last_visible(row as int) {
            lemma_same_steps(a, b, previous, (count - 1) as nat, max);
        }
    }
}

proof fn lemma_same_next(a: AppView, b: AppView, from: int)
    requires
        a.rows == b.rows,
        a.sections == b.sections,
    ensures
        a.next_visible(from) == b.next_visible(from),
    decreases a.rows.len() - from,
{
    if from < a.rows.len() {
        assert(a.visible(from) == b.visible(from));
        lemma_same_next(a, b, from + 1);
    }
}

proof fn lemma_same_last(a: AppView, b: AppView, to: int)
    requires
        a.sections == b.sections,
    ensures
        a.last_visible(to) == b.last_visible(to),
    decreases to,
{
    if to > 0 {
        assert(a.visible(to - 1) == b.visible(to - 1));
        lemma_same_last(a, b, to - 1);
    }
}

/// Where no next visible row is found, there is none.
proof fn lemma_none_visible_from(app: AppView, from: int)
    requires
        app.next_visible(from) is None,
    ensures
        forall|k: int| from <= k < app.rows.len() ==> !#[trigger] app.visible(k),
    decreases app.rows.len() - from,
{
    if from < app.rows.len() {
        lemma_none_visible_from(app, from + 1);
    }
}

/// Where none is found above, there is none.
proof fn lemma_none_visible_before(app: AppView, to: int)
    requires
        app.last_visible(to) is None,
    ensures
        forall|k: int| 0 <= k < to ==> !#[trigger] app.visible(k),
    decreases to,
{
    if to > 0 {
        lemma_none_visible_before(app, to - 1);
    }
}

/// Between a row and the last visible one above it nothing is visible.
proof fn lemma_none_between(app: AppView, to: int)
    requires
        to <= usize::MAX,
        app.last_visible(to) is Some,
    ensures
        0 <= app.last_visible(to)->0 < to,
        app.visible(app.last_visible(to)->0 as int),
        forall|k: int| app.last_visible(to)->0 < k < to ==> !#[trigger] app.visible(k),
    decreases to,
{
    if !app.visible(to - 1) {
        lemma_none_between(app, to - 1);
    }
}

/// Nor between a row and the next visible one from there on.
proof fn lemma_none_until(app: AppView, from: int)
    requires
        0 <= from,
        app.rows.len() <= usize::MAX,
        app.next_visible(from) is Some,
    ensures
        from <= app.next_visible(from)->0 < app.rows.len(),
        app.visible(app.next_visible(from)->0 as int),
        forall|k: int| from <= k < app.next_visible(from)->0 ==> !#[trigger] app.visible(k),
    decreases app.rows.len() - from,
{
    if !app.visible(from) {
        lemma_none_until(app, from + 1);
    }
}

/// Several steps are single steps, one after the other.
proof fn lemma_single_steps(app: AppView, row: usize, count: nat, max: usize)
    requires
        app.rows.len() <= usize::MAX,
    ensures
        app.steps_down(row, count + 1, max) == app.steps_down(
            app.steps_down(row, count, max),
            1,
            max,
        ),
        app.steps_up(row, count + 1) == app.steps_up(app.steps_up(row, count), 1),
    decreases count,
{
    reveal_with_fuel(AppView::steps_down, 2);
    reveal_with_fuel(AppView::steps_up, 2);
    if count > 0 {
        if let Some(next) = app.next_visible(row + 1) {
            if next > max {
                if app.next_visible(max + 1) is Some {
                    lemma_none_until(app, max + 1);
                }
            } else {
                lemma_single_steps(app, next, (count - 1) as nat, max);
            }
        }
        if let Some(previous) = app.last_visible(row as int) {
            lemma_single_steps(app, previous, (count - 1) as nat, max);
        }
    }
}

/// Pressing a key that goes one row some times goes as many steps.
proof fn lemma_repeated_steps(
    app: AppView,
    times: nat,
    width: nat,
    height: nat,
    max: usize,
)
    requires
        app.rows.len() <= usize::MAX,
        times > 0,
    ensures
        repeatedly(app, press(KeyCode::Char('j'), false), times, width, height, max) == (AppView {
            scroll: app.steps_down(app.scroll, times, max),
            ..at_rest(app)
        }),
        repeatedly(app, press(KeyCode::Char('k'), false), times, width, height, max) == (AppView {
            scroll: app.steps_up(app.scroll, times),
            ..at_rest(app)
        }),
    decreases times,
{
    let j = press(KeyCode::Char('j'), false);
    let k = press(KeyCode::Char('k'), false);
    let before_j = repeatedly(app, j, (times - 1) as nat, width, height, max);
    let before_k = repeatedly(app, k, (times - 1) as nat, width, height, max);
    let quiet_j = before_j.cancelled().without_status();
    let quiet_k = before_k.cancelled().without_status();
    if times > 1 {
        lemma_repeated_steps(app, (times - 1) as nat, width, height, max);
        lemma_single_steps(app, app.scroll, (times - 1) as nat, max);
    }
    lemma_same_steps(app, quiet_j, before_j.scroll, 1, max);
    lemma_same_steps(app, quiet_k, before_k.scroll, 1, max);
}

/// Half a page is half as many rows as the screen has lines: `ctrl-d` and the page key do
/// what `j` does so many times, and `ctrl-u` what `k` does. A turn of the wheel does it
/// three times.
pub proof fn law_pages_and_wheel_repeat_j_and_k(
    app: AppView,
    place: (u16, u16),
    shift: bool,
    ctrl: bool,
    width: nat,
    height: nat,
    max: usize,
)
    requires
        app.wf(),
        height > 1,
    ensures
        ({
            let j = press(KeyCode::Char('j'), false);
            let k = press(KeyCode::Char('k'), false);
            let page_down = repeatedly(app, j, height / 2, width, height, max);
            let page_up = repeatedly(app, k, height / 2, width, height, max);
            &&& app.after_event(press(KeyCode::Char('d'), true), width, height, max) == page_down
            &&& app.after_event(press(KeyCode::Char('u'), true), width, height, max) == page_up
            &&& app.after_event(press(KeyCode::PageDown, ctrl), width, height, max) == page_down
            &&& app.after_event(press(KeyCode::PageUp, ctrl), width, height, max) == page_up
            &&& app.after_event(wheel(true, place.0, place.1, shift), width, height, max)
                == repeatedly(app, j, 3, width, height, max)
            &&& app.after_event(wheel(false, place.0, place.1, shift), width, height, max)
                == repeatedly(app, k, 3, width, height, max)
        }),
{
    let quiet = app.cancelled().without_status();
    lemma_repeated_steps(app, height / 2, width, height, max);
    lemma_repeated_steps(app, 3, width, height, max);
    lemma_same_steps(app, quiet, app.scroll, height / 2, max);
    lemma_same_steps(app, quiet, app.scroll, 3, max);
}

/// `g` goes to the first row and `G` to the limit; `n` and `p` go where a jump to the next
/// and to the previous file leads, and `=` makes the panes equal. None of them changes
/// anything else.
pub proof fn law_jumps_change_nothing_else(
    app: AppView,
    ctrl: bool,
    width: nat,
    height: nat,
    max: usize,
)
    ensures
        ({
            let quiet = AppView {
                selection: None,
                resizing_divider: false,
                status: None,
                ..app
            };
            let to = |row: usize| AppView { scroll: row, ..quiet };
            &&& app.after_event(press(KeyCode::Char('g'), ctrl), width, height, max) == to(0)
            &&& app.after_event(press(KeyCode::Char('G'), ctrl), width, height, max) == to(max)
            &&& app.after_event(press(KeyCode::Char('n'), ctrl), width, height, max) == to(
                match app.file_from_here(true) {
                    Some(row) => row,
                    None => app.scroll,
                },
            )
            &&& app.after_event(press(KeyCode::Char('p'), ctrl), width, height, max) == to(
                match app.file_from_here(false) {
                    Some(row) => row,
                    None => app.scroll,
                },
            )
            &&& app.after_event(press(KeyCode::Char('='), ctrl), width, height, max) == (AppView {
                pane_ratio: None,
                preserve_scroll: None,
                ..quiet
            })
        }),
{
    let quiet = app.cancelled().without_status();
    lemma_same_jump(app, quiet, 0, app.sections.len() as int);
}

/// Where a jump leads depends on the sections and the scroll position.
proof fn lemma_same_jump(a: AppView, b: AppView, i: int, n: int)
    requires
        a.sections == b.sections,
        a.scroll == b.scroll,
    ensures
        a.header_after(i) == b.header_after(i),
        a.header_before(n) == b.header_before(n),
    decreases a.sections.len() - i, n,
{
    if i < a.sections.len() {
        lemma_same_jump(a, b, i + 1, n);
    }
    if n > 0 {
        lemma_same_before(a, b, n);
    }
}

proof fn lemma_same_before(a: AppView, b: AppView, n: int)
    requires
        a.sections == b.sections,
        a.scroll == b.scroll,
    ensures
        a.header_before(n) == b.header_before(n),
    decreases n,
{
    if n > 0 {
        lemma_same_before(a, b, n - 1);
    }
}

/// `c` collapses the file that the row at the top belongs to, or opens it again, and puts
/// its header at the top; the other files stay as they are. Above the first file it does
/// nothing.
pub proof fn law_c_toggles_the_file_at_the_top(
    app: AppView,
    i: int,
    width: nat,
    height: nat,
    max: usize,
)
    requires
        app.wf(),
    ensures
        ({
            let after = app.after_event(press(KeyCode::Char('c'), false), width, height, max);
            &&& 0 <= i < app.sections.len() && app.sections[i].header <= app.scroll
                < app.sections[i].body.end ==> {
                &&& after.scroll == app.sections[i].header
                &&& after.sections.len() == app.sections.len()
                &&& after.sections[i].collapsed == !app.sections[i].collapsed
                &&& after.sections[i].header == app.sections[i].header
                &&& after.sections[i].body == app.sections[i].body
                &&& forall|k: int|
                    0 <= k < app.sections.len() && k != i ==> #[trigger] after.sections[k]
                        == app.sections[k]
                &&& after == (AppView {
                    scroll: after.scroll,
                    sections: after.sections,
                    ..at_rest(app)
                })
            }
            &&& (forall|k: int|
                0 <= k < app.sections.len() ==> !((#[trigger] app.sections[k]).header <= app.scroll
                    < app.sections[k].body.end)) ==> after == (AppView {
                selection: None,
                resizing_divider: false,
                status: None,
                ..app
            })
        }),
{
    let quiet = app.cancelled().without_status();
    if 0 <= i < app.sections.len() && app.sections[i].header <= app.scroll
        < app.sections[i].body.end {
        assert(quiet.sections[i].holds(app.scroll as int));
        lemma_section_of(quiet, i, app.scroll as int);
    } else if forall|k: int|
        0 <= k < app.sections.len() ==> !((#[trigger] app.sections[k]).header <= app.scroll
            < app.sections[k].body.end) {
        if quiet.section_of(app.scroll as int) is Some {
            let k = quiet.section_of(app.scroll as int)->0;
            assert(0 <= k < app.sections.len() && quiet.sections[k].holds(app.scroll as int));
        }
    }
}

/// `q`, escape and `ctrl-c` leave, and nothing else does. No other key than those above
/// does anything but end a selection and take a message away.
pub proof fn law_other_keys_do_nothing(
    app: AppView,
    code: KeyCode,
    ctrl: bool,
    width: nat,
    height: nat,
    max: usize,
)
    ensures
        app.answer_to(press(code, ctrl)) == ActionView::Quit <==> code == KeyCode::Esc || code
            == KeyCode::Char('q') || (code == KeyCode::Char('c') && ctrl),
        ({
            let idle = match code {
                KeyCode::Char(c) => c != 'j' && c != 'k' && c != 'c' && c != 'g' && c != 'G' && c
                    != '=' && c != 'n' && c != 'p' && !(ctrl && (c == 'd' || c == 'u')),
                KeyCode::Esc | KeyCode::Other => true,
                _ => false,
            };
            idle ==> app.after_event(press(code, ctrl), width, height, max) == (AppView {
                selection: None,
                resizing_divider: false,
                status: None,
                ..app
            })
        }),
        forall|key: KeyEvent|
            key.kind == KeyEventKind::Repeat ==> #[trigger] app.after_event(
                Event::Key(key),
                width,
                height,
                max,
            ) == app.after_event(press(key.code, key.ctrl), width, height, max),
{
}

// ---------------------------------------------------------------------------
// The mouse
// ---------------------------------------------------------------------------

/// Pressing the left button over the text of a pane, dragging and letting go copies what
/// lies between, and the selection is over.
pub proof fn law_drag_and_drop_copies(
    app: AppView,
    pane: Pane,
    from: (u16, u16),
    to: (u16, u16),
    width: nat,
    height: nat,
    max: usize,
)
    requires
        app.section_on_screen(from.1 as nat, width, height) is None,
        app.pane_at(from.0 as nat, width) == Some(pane),
        app.hit_at(pane, from.0 as nat, from.1 as nat, width, height) is Some,
        app.hit_at(pane, to.0 as nat, to.1 as nat, width, height) is Some,
    ensures
        ({
            let pressed = app.after_event(
                left_button(MouseEventKind::Down(MouseButton::Left), from.0, from.1),
                width,
                height,
                max,
            );
            let dragged = pressed.after_event(
                left_button(MouseEventKind::Drag(MouseButton::Left), to.0, to.1),
                width,
                height,
                max,
            );
            let up = left_button(MouseEventKind::Up(MouseButton::Left), to.0, to.1);
            let text = text_between(
                app,
                pane,
                app.hit_at(pane, from.0 as nat, from.1 as nat, width, height)->0,
                app.hit_at(pane, to.0 as nat, to.1 as nat, width, height)->0,
            );
            &&& pressed.selection is Some && pressed.status is None
            &&& dragged.answer_to(up) == match text {
                Some(text) => ActionView::Copy(text),
                None => ActionView::Continue,
            }
            &&& dragged.after_event(up, width, height, max) == (AppView {
                selection: None,
                resizing_divider: false,
                status: None,
                ..app
            })
        }),
{
    let (x1, y1) = (from.0 as nat, from.1 as nat);
    let (x2, y2) = (to.0 as nat, to.1 as nat);
    let told = app.without_status();
    lemma_same_section_on_screen(app, told, y1, width, height);
    let begun = told.resize_begun(x1, y1, width, height);
    lemma_same_hit(app, begun, pane, x1, y1, width, height);
    lemma_same_hit(app, begun, pane, x2, y2, width, height);
    assert(!begun.resizing_divider);
    law_a_drag_copies_what_lies_between(begun, pane, x1, y1, x2, y2, width, height);
    lemma_same_text_between(
        app,
        begun,
        pane,
        app.hit_at(pane, x1, y1, width, height)->0,
        app.hit_at(pane, x2, y2, width, height)->0,
    );
}

/// The divider can be grabbed exactly in the column between the panes, where it is drawn,
/// above the footer; a drag then moves it, and letting go of it keeps it there and copies
/// nothing.
pub proof fn law_the_divider_is_grabbed_where_it_is(
    app: AppView,
    x: u16,
    y: u16,
    to: u16,
    width: nat,
    height: nat,
    max: usize,
)
    requires
        app.section_on_screen(y as nat, width, height) is None,
    ensures
        ({
            let pressed = app.after_event(
                left_button(MouseEventKind::Down(MouseButton::Left), x, y),
                width,
                height,
                max,
            );
            let drag = left_button(MouseEventKind::Drag(MouseButton::Left), to, y);
            let up = left_button(MouseEventKind::Up(MouseButton::Left), to, y);
            let dragged = pressed.after_event(drag, width, height, max);
            let released = dragged.after_event(up, width, height, max);
            &&& pressed.resizing_divider <==> width > 1 && y + 1 < height && x == app.widths(
                width,
            ).0
            &&& pressed.resizing_divider ==> {
                &&& pressed.selection is None
                &&& dragged == pressed.resize_dragged(to as nat, width)
                &&& dragged.answer_to(up) == ActionView::Continue
                &&& released == (AppView { resizing_divider: false, ..dragged })
            }
        }),
{
    let told = app.without_status();
    lemma_same_section_on_screen(app, told, y as nat, width, height);
    assert(told.widths(width) == app.widths(width));
}

/// With shift the left button is the terminal's: it begins nothing. Nor do the other
/// buttons.
pub proof fn law_other_buttons_begin_nothing(
    app: AppView,
    m: MouseEvent,
    width: nat,
    height: nat,
    max: usize,
)
    ensures
        m.kind == MouseEventKind::Down(MouseButton::Left) && m.shift ==> app.after_event(
            Event::Mouse(m),
            width,
            height,
            max,
        ) == (AppView { selection: None, resizing_divider: false, ..app }),
        m.kind == MouseEventKind::Other || m.kind == MouseEventKind::Down(MouseButton::Right)
            || m.kind == MouseEventKind::Down(MouseButton::Middle) || m.kind
            == MouseEventKind::Up(MouseButton::Right) || m.kind == MouseEventKind::Up(
            MouseButton::Middle,
        ) || m.kind == MouseEventKind::Drag(MouseButton::Right) || m.kind == MouseEventKind::Drag(
            MouseButton::Middle,
        ) ==> app.after_event(Event::Mouse(m), width, height, max) == app && app.answer_to(
            Event::Mouse(m),
        ) == ActionView::Continue,
{
}

/// A window of another size ends what the mouse is doing, and nothing else; other events
/// do nothing.
pub proof fn law_a_resize_ends_what_the_mouse_does(
    app: AppView,
    width: nat,
    height: nat,
    max: usize,
)
    ensures
        app.after_event(Event::Resize, width, height, max) == (AppView {
            selection: None,
            resizing_divider: false,
            ..app
        }),
        app.after_event(Event::Other, width, height, max) == app,
        app.answer_to(Event::Resize) == ActionView::Continue,
        app.answer_to(Event::Other) == ActionView::Continue,
{
}

} // verus!
