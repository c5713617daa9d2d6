use scopic::diff::{Cell, Kind, Row};
use scopic::events::{
    Action, Event, KeyCode, KeyEvent, KeyEventKind, MouseButton, MouseEvent, MouseEventKind,
    format_tmux_error, handle_event, handle_mouse_event, key_event_is_actionable, report_copy,
    settle, tmux_message, tmux_outcome,
};
use scopic::ui::App;

const NONE: bool = false;
const SHIFT: bool = true;

#[test]
fn key_repeats_are_processed_but_releases_are_ignored() {
    assert!(key_event_is_actionable(KeyEventKind::Press));
    assert!(key_event_is_actionable(KeyEventKind::Repeat));
    assert!(!key_event_is_actionable(KeyEventKind::Release));
}

#[test]
fn tmux_error_prefers_trimmed_stderr() {
    assert_eq!(
        format_tmux_error("exit status: 1", b"\n tmux: denied \n"),
        "tmux: denied"
    );
}

#[test]
fn tmux_error_uses_status_when_stderr_is_blank() {
    assert_eq!(
        format_tmux_error("exit status: 1", b" \n\t"),
        "tmux exited with exit status: 1"
    );
}

#[test]
fn tmux_error_strips_terminal_controls() {
    assert_eq!(
        format_tmux_error("exit status: 1", b"\x1b[31mdenied\x07\0"),
        "[31mdenied"
    );
}

#[test]
fn owned_drag_survives_shift_on_drag_and_release() {
    let mut app = App::new(vec![Row::Line {
        left: Some(Cell {
            no: 1,
            text: "abc".into(),
            kind: Kind::Ctx,
            emph: vec![],
        }),
        right: None,
    }]);
    let event = |kind, column, shift| MouseEvent {
        kind,
        column,
        row: 0,
        shift,
    };

    handle_mouse_event(
        &mut app,
        event(
            MouseEventKind::Down(MouseButton::Left),
            5,
            NONE,
        ),
        40,
        2,
    );
    handle_mouse_event(
        &mut app,
        event(
            MouseEventKind::Drag(MouseButton::Left),
            6,
            SHIFT,
        ),
        40,
        2,
    );
    assert_eq!(
        handle_mouse_event(
            &mut app,
            event(
                MouseEventKind::Up(MouseButton::Left),
                6,
                SHIFT
            ),
            40,
            2,
        ),
        Some("ab".into())
    );
}

#[test]
fn divider_drag_is_consumed_without_copying() {
    let mut app = App::new(vec![Row::Line {
        left: Some(Cell {
            no: 1,
            text: "left".into(),
            kind: Kind::Ctx,
            emph: vec![],
        }),
        right: Some(Cell {
            no: 1,
            text: "right".into(),
            kind: Kind::Ctx,
            emph: vec![],
        }),
    }]);
    let event = |kind, column| MouseEvent {
        kind,
        column,
        row: 0,
        shift: NONE,
    };

    handle_mouse_event(
        &mut app,
        event(MouseEventKind::Down(MouseButton::Left), 20),
        41,
        2,
    );
    assert!(app.finish_resize());

    handle_mouse_event(
        &mut app,
        event(MouseEventKind::Down(MouseButton::Left), 20),
        41,
        2,
    );
    handle_mouse_event(
        &mut app,
        event(MouseEventKind::Drag(MouseButton::Left), 30),
        41,
        2,
    );
    assert_eq!(
        handle_mouse_event(
            &mut app,
            event(MouseEventKind::Up(MouseButton::Left), 30),
            41,
            2,
        ),
        None
    );
    assert!(!app.finish_resize());
}

fn collapsible_app() -> App {
    App::new(vec![
        Row::File("a.rs".into()),
        Row::Line {
            left: Some(Cell {
                no: 1,
                text: "alpha".into(),
                kind: Kind::Ctx,
                emph: vec![],
            }),
            right: None,
        },
    ])
}

#[test]
fn header_click_collapses_before_resize_or_selection() {
    let mut app = collapsible_app();
    let event = MouseEvent {
        kind: MouseEventKind::Down(MouseButton::Left),
        column: 20,
        row: 0,
        shift: NONE,
    };
    assert_eq!(app.max_scroll(41, 2), 1);

    assert_eq!(handle_mouse_event(&mut app, event, 41, 2), None);
    assert_eq!(app.max_scroll(41, 2), 0);
    assert!(!app.finish_resize());
    assert_eq!(app.finish_selection(), None);
}

#[test]
fn shift_click_on_header_keeps_native_selection_fallback() {
    let mut app = collapsible_app();
    let event = MouseEvent {
        kind: MouseEventKind::Down(MouseButton::Left),
        column: 20,
        row: 0,
        shift: SHIFT,
    };

    assert_eq!(handle_mouse_event(&mut app, event, 41, 2), None);
    assert_eq!(app.max_scroll(41, 2), 1);
}

fn line(no: u32, text: &str) -> Row {
    Row::Line {
        left: Some(Cell {
            no,
            text: text.into(),
            kind: Kind::Ctx,
            emph: vec![],
        }),
        right: None,
    }
}

fn two_files() -> App {
    App::new(vec![
        Row::File("a".into()),
        line(1, "one"),
        line(2, "two"),
        Row::File("b".into()),
        line(1, "three"),
    ])
}

fn press(app: &mut App, code: KeyCode, ctrl: bool) -> Action {
    let key = KeyEvent {
        code,
        kind: KeyEventKind::Press,
        ctrl,
    };
    handle_event(app, Event::Key(key), 41, 6, 4)
}

fn mouse(app: &mut App, kind: MouseEventKind, column: u16, row: u16) -> Action {
    let event = MouseEvent {
        kind,
        column,
        row,
        shift: NONE,
    };
    handle_event(app, Event::Mouse(event), 41, 6, 4)
}

#[test]
fn keys_that_leave() {
    for (code, ctrl, quits) in [
        (KeyCode::Char('q'), false, true),
        (KeyCode::Char('q'), true, true),
        (KeyCode::Esc, false, true),
        (KeyCode::Char('c'), true, true),
        (KeyCode::Char('c'), false, false),
        (KeyCode::Char('x'), false, false),
        (KeyCode::Other, true, false),
    ] {
        let mut app = two_files();
        let expected = if quits { Action::Quit } else { Action::Continue };
        assert_eq!(press(&mut app, code, ctrl), expected);
    }
    let mut app = two_files();
    let released = KeyEvent {
        code: KeyCode::Char('q'),
        kind: KeyEventKind::Release,
        ctrl: false,
    };
    app.set_status("stays".into());
    assert_eq!(
        handle_event(&mut app, Event::Key(released), 41, 6, 4),
        Action::Continue
    );
    assert!(app.status.is_some());
}

#[test]
fn keys_that_move() {
    let mut app = two_files();
    let mut at = |code, ctrl| {
        assert_eq!(press(&mut app, code, ctrl), Action::Continue);
        app.scroll
    };
    assert_eq!(at(KeyCode::Char('j'), false), 1);
    assert_eq!(at(KeyCode::Down, false), 2);
    assert_eq!(at(KeyCode::Char('k'), false), 1);
    assert_eq!(at(KeyCode::Up, false), 0);
    // half of six lines
    assert_eq!(at(KeyCode::Char('d'), true), 3);
    assert_eq!(at(KeyCode::Char('d'), false), 3);
    assert_eq!(at(KeyCode::Char('u'), true), 0);
    assert_eq!(at(KeyCode::Char('u'), false), 0);
    assert_eq!(at(KeyCode::PageDown, false), 3);
    assert_eq!(at(KeyCode::PageUp, false), 0);
    assert_eq!(at(KeyCode::Char('G'), false), 4);
    assert_eq!(at(KeyCode::Char('p'), false), 3);
    assert_eq!(at(KeyCode::Char('g'), false), 0);
    assert_eq!(at(KeyCode::Char('n'), false), 3);
    assert_eq!(at(KeyCode::Char('n'), false), 3);
    assert_eq!(at(KeyCode::Char('c'), false), 3);
}

#[test]
fn keys_drop_the_selection_and_the_message() {
    let mut app = two_files();
    app.begin_selection(5, 1, 41, 6);
    app.set_error("old".into());
    app.pane_ratio = Some((1, 4));
    press(&mut app, KeyCode::Char('='), false);
    assert!(app.selection.is_none());
    assert!(app.status.is_none());
    assert!(app.pane_ratio.is_none());
    press(&mut app, KeyCode::Char('c'), false);
    assert!(app.sections[0].collapsed);
}

#[test]
fn the_wheel_scrolls_by_three() {
    let mut app = two_files();
    app.set_status("old".into());
    assert_eq!(mouse(&mut app, MouseEventKind::ScrollDown, 0, 0), Action::Continue);
    assert_eq!(app.scroll, 3);
    assert!(app.status.is_none());
    assert_eq!(mouse(&mut app, MouseEventKind::ScrollUp, 0, 0), Action::Continue);
    assert_eq!(app.scroll, 0);
}

#[test]
fn a_drag_is_to_be_copied() {
    let mut app = two_files();
    let left = MouseButton::Left;
    assert_eq!(mouse(&mut app, MouseEventKind::Down(left), 5, 1), Action::Continue);
    assert_eq!(mouse(&mut app, MouseEventKind::Drag(left), 6, 2), Action::Continue);
    assert_eq!(
        mouse(&mut app, MouseEventKind::Up(left), 6, 2),
        Action::Copy("one\ntw".into())
    );
    // other buttons do nothing
    for button in [MouseButton::Right, MouseButton::Middle] {
        assert_eq!(mouse(&mut app, MouseEventKind::Down(button), 5, 0), Action::Continue);
        assert_eq!(mouse(&mut app, MouseEventKind::Up(button), 5, 0), Action::Continue);
    }
    assert_eq!(mouse(&mut app, MouseEventKind::Other, 5, 0), Action::Continue);
    assert!(!app.sections[0].collapsed);
}

#[test]
fn resizing_the_window_cancels_the_drag() {
    let mut app = two_files();
    app.begin_selection(5, 1, 41, 6);
    assert_eq!(handle_event(&mut app, Event::Other, 41, 6, 4), Action::Continue);
    assert!(app.selection.is_some());
    assert_eq!(handle_event(&mut app, Event::Resize, 41, 6, 4), Action::Continue);
    assert!(app.selection.is_none());
}

#[test]
fn a_view_settles_at_its_limit_and_stays_there() {
    let mut app = two_files();
    app.scroll = 4;
    assert_eq!(settle(&mut app, 41, 4), 3);
    assert_eq!(app.scroll, 3);
    assert_eq!(settle(&mut app, 41, 4), 3);
    assert_eq!(app.scroll, 3);
    app.scroll = 1;
    settle(&mut app, 41, 4);
    assert_eq!(app.scroll, 1);
}

#[test]
fn copies_are_reported() {
    let mut app = two_files();
    let text = |app: &App| app.status.as_ref().map(|(text, _)| text.clone()).unwrap();
    report_copy(&mut app, "one", Ok(()));
    assert_eq!(text(&app), " copied 1 line");
    report_copy(&mut app, "one\n\nthree", Ok(()));
    assert_eq!(text(&app), " copied 3 lines");
    report_copy(&mut app, "one", Err("no tmux".into()));
    assert_eq!(text(&app), " copy failed: no tmux");
}

#[test]
fn tmux_is_quoted_on_one_line() {
    assert_eq!(
        tmux_message("status", " no\u{85}server \u{7}\n running\u{0}"),
        "no server running"
    );
    assert_eq!(tmux_message("status", "\u{7} \u{1b}"), "tmux exited with status");
    assert_eq!(format_tmux_error("status", b"\xff!"), "\u{fffd}!");
}

#[test]
fn tmux_has_the_last_word_on_a_copy() {
    let failed: Result<(), String> = Err("broken pipe".into());
    assert_eq!(tmux_outcome(true, "ok", b"noise", Ok(())), Ok(()));
    assert_eq!(tmux_outcome(true, "ok", b"", failed.clone()), failed);
    assert_eq!(
        tmux_outcome(false, "exit status: 1", b"denied\n", failed),
        Err("denied".into())
    );
}

#[test]
fn the_row_at_the_top_is_always_shown() {
    let codes = ['j', 'k', 'c', 'n', 'p', 'G', 'g', '=', 'd'];
    let mut app = two_files();
    // every key after every other, with clicks on the first lines in between
    for first in codes {
        for second in codes {
            for row in 0..4 {
                press(&mut app, KeyCode::Char(first), second == 'd');
                mouse(&mut app, MouseEventKind::Down(MouseButton::Left), 0, row);
                settle(&mut app, 41, 6);
                press(&mut app, KeyCode::Char(second), true);
                settle(&mut app, 41, 3);
                assert!(app.scroll < app.rows.len());
                assert!(app.row_visible(app.scroll));
            }
        }
    }
}
