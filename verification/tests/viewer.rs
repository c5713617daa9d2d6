use scopic::diff::{Cell, Kind, Row};
use scopic::selection::{Hit, Pane, Selection};
use scopic::state::ScreenRow;
use scopic::ui::App;

fn cell(no: u32, text: &str) -> Option<Cell> {
    Some(Cell {
        no,
        text: text.into(),
        kind: Kind::Ctx,
        emph: vec![],
    })
}

fn line(no: u32, text: &str) -> Row {
    Row::Line {
        left: cell(no, text),
        right: cell(no, text),
    }
}

fn two_files() -> App {
    App::new(vec![
        Row::Raw("preamble".into()),
        Row::File("a".into()),
        line(1, "one"),
        line(2, "two"),
        Row::File("b".into()),
        line(1, "three"),
    ])
}

fn collapsed(app: &App) -> Vec<bool> {
    app.sections.iter().map(|s| s.collapsed).collect()
}

fn whole_screen(app: &App, width: usize, height: usize) -> Vec<Option<ScreenRow>> {
    (0..height).map(|y| app.screen_row(y, width, height)).collect()
}

#[test]
fn a_diff_is_first_shown_from_the_top_with_every_file_open() {
    let app = two_files();
    assert_eq!(app.scroll, 0);
    assert_eq!(app.gutter_w, 5);
    assert_eq!(collapsed(&app), vec![false, false]);
    assert_eq!(app.visible_rows(), vec![0, 1, 2, 3, 4, 5]);
    assert_eq!(app.visible_rows_from(4), vec![4, 5]);
    assert_eq!(app.visible_rows_from(9), Vec::<usize>::new());
    assert_eq!(
        (0..7).map(|row| app.section_index_for_row(row)).collect::<Vec<_>>(),
        vec![None, Some(0), Some(0), Some(0), Some(1), Some(1), None]
    );
    assert_eq!(app.stats.get(&1), Some(&(0, 0)));
    assert_eq!(app.stats.get(&2), None);
}

#[test]
fn counts_are_those_of_the_section() {
    let change = |left: Option<Kind>, right: Option<Kind>| {
        let side = |kind: Option<Kind>| {
            kind.map(|kind| Cell {
                no: 1234567,
                text: "x".into(),
                kind,
                emph: vec![],
            })
        };
        Row::Line {
            left: side(left),
            right: side(right),
        }
    };
    let app = App::new(vec![
        change(Some(Kind::Del), Some(Kind::Add)),
        Row::File("a".into()),
        change(Some(Kind::Del), Some(Kind::Add)),
        change(None, Some(Kind::Add)),
        change(Some(Kind::Ctx), Some(Kind::Ctx)),
        Row::File("b".into()),
        change(Some(Kind::Del), None),
    ]);
    assert_eq!(app.stats.len(), 2);
    assert_eq!(app.stats[&1], (2, 1));
    assert_eq!(app.stats[&5], (0, 1));
    // seven digits and a space
    assert_eq!(app.gutter_w, 8);
}

#[test]
fn toggling_twice_restores_every_section() {
    let mut app = two_files();
    app.scroll = 3;
    assert!(app.toggle_current_file());
    assert_eq!((app.scroll, collapsed(&app)), (1, vec![true, false]));
    assert_eq!(app.visible_rows(), vec![0, 1, 4, 5]);
    assert!(app.header_collapsed(1));
    assert!(!app.header_collapsed(2) && !app.header_collapsed(4));
    assert!(app.toggle_current_file());
    assert_eq!((app.scroll, collapsed(&app)), (1, vec![false, false]));
    app.scroll = 0;
    assert!(!app.toggle_current_file());
    assert_eq!(app.scroll, 0);
}

#[test]
fn headers_stay_visible_when_everything_is_collapsed() {
    let mut app = two_files();
    for header in [1, 4] {
        app.scroll = header;
        assert!(app.toggle_current_file());
    }
    assert_eq!(app.visible_rows(), vec![0, 1, 4]);
    assert_eq!(app.max_scroll(41, 3), 1);
}

#[test]
fn scrolling_goes_by_visible_rows_and_stops_at_the_limit() {
    let mut app = two_files();
    app.scroll = 1;
    assert!(app.toggle_current_file());
    app.scroll = 0;
    app.scroll_down(2, 5);
    assert_eq!(app.scroll, 4);
    app.scroll_up(1);
    assert_eq!(app.scroll, 1);
    // a step past the limit ends on it
    app.scroll_down(9, 4);
    assert_eq!(app.scroll, 4);
    app.scroll_down(9, 3);
    assert_eq!(app.scroll, 3);
    app.scroll_up(9);
    assert_eq!(app.scroll, 0);
    app.scroll_down(0, 5);
    assert_eq!(app.scroll, 0);
    app.scroll = 5;
    app.scroll_down(1, 9);
    assert_eq!(app.scroll, 5);
}

#[test]
fn the_limit_is_the_first_row_from_which_everything_fits() {
    let app = two_files();
    // six lines in a body of six
    assert_eq!(app.max_scroll(41, 7), 0);
    assert_eq!(app.max_scroll(41, 6), 1);
    // below a sticky header there is a line less
    assert_eq!(app.max_scroll(41, 5), 3);
    assert_eq!(app.max_scroll(41, 4), 4);
    assert_eq!(app.max_scroll(41, 3), 4);
    // nothing fits: the last row
    assert_eq!(app.max_scroll(41, 2), 5);
    assert_eq!(app.max_scroll(41, 0), 5);
    assert_eq!(App::new(vec![]).max_scroll(41, 5), 0);
}

#[test]
fn jumps_lead_to_the_nearest_header() {
    let mut app = two_files();
    assert_eq!(app.file_jump(true), Some(1));
    assert_eq!(app.file_jump(false), None);
    app.scroll = 1;
    assert_eq!(app.file_jump(true), Some(4));
    assert_eq!(app.file_jump(false), None);
    app.scroll = 5;
    assert_eq!(app.file_jump(true), None);
    assert_eq!(app.file_jump(false), Some(4));
}

#[test]
fn normalizing_spares_headers_and_kept_positions() {
    let mut app = two_files();
    app.scroll = 5;
    app.normalize_scroll(3);
    assert_eq!(app.scroll, 3);
    app.scroll = 4;
    app.normalize_scroll(3);
    assert_eq!(app.scroll, 4);
    app.scroll = 5;
    app.preserve_scroll = Some(5);
    app.normalize_scroll(3);
    assert_eq!((app.scroll, app.preserve_scroll), (5, Some(5)));
    app.preserve_scroll = Some(2);
    app.normalize_scroll(9);
    assert_eq!((app.scroll, app.preserve_scroll), (5, None));
    app.preserve_scroll = Some(5);
    app.clear_scroll_preservation();
    assert_eq!(app.preserve_scroll, None);
}

#[test]
fn the_screen_is_what_the_mouse_hits() {
    let mut app = two_files();
    app.scroll = 2;
    let at = |source, segment| Some(ScreenRow { source, segment });
    assert_eq!(
        whole_screen(&app, 41, 7),
        vec![at(1, 0), at(2, 0), at(3, 0), at(4, 0), at(5, 0), None, None]
    );
    assert_eq!(app.sticky_header(), Some(1));
    assert_eq!(app.sticky_header_for(1), None);
    assert_eq!(app.screen(41, 7).unwrap().body.len(), 5);
    // the footer is nobody's
    assert_eq!(app.screen_row(2, 41, 3), None);
}

#[test]
fn clicking_a_header_keeps_what_is_above_it() {
    let mut app = two_files();
    app.scroll = 2;
    let before = whole_screen(&app, 41, 7);
    assert!(app.toggle_file_at(3, 41, 7));
    assert_eq!(whole_screen(&app, 41, 7)[..4], before[..4]);
    assert_eq!(app.preserve_scroll, Some(2));
    app.normalize_scroll(0);
    assert_eq!(app.scroll, 2);
    // what is no header does nothing
    assert!(!app.toggle_file_at(1, 41, 7));
    assert!(!app.toggle_file_at(6, 41, 7));
    assert_eq!(collapsed(&app), vec![false, true]);
    // nor does a row of no section
    app.scroll = 0;
    assert!(!app.toggle_file_at(0, 41, 7));
}

#[test]
fn panes_fill_the_width() {
    let mut app = two_files();
    for ratio in [None, Some((1, 0)), Some((3, 4)), Some((usize::MAX, 1)), Some((0, 9))] {
        app.pane_ratio = ratio;
        for width in 0..60 {
            let (left, right) = app.pane_widths(width);
            assert_eq!(left + right, width.saturating_sub(1));
            let least = 6.min(width.saturating_sub(1) / 2);
            assert!(left >= least && right >= least);
        }
    }
    app.pane_ratio = None;
    assert_eq!(app.pane_widths(42), (20, 21));
    // a product that does not fit is the largest there is
    app.pane_ratio = Some((usize::MAX, usize::MAX));
    assert_eq!(app.pane_widths(41), (6, 34));
}

#[test]
fn the_divider_follows_the_mouse() {
    let mut app = two_files();
    assert!(!app.begin_resize(19, 0, 41, 5));
    assert!(!app.drag_resize(3, 41));
    assert!(!app.begin_resize(20, 4, 41, 5));
    assert!(!app.begin_resize(0, 0, 1, 5));
    assert!(app.begin_resize(20, 3, 41, 5));
    assert!(app.drag_resize(25, 41));
    assert_eq!(app.pane_widths(41), (25, 15));
    assert_eq!(app.pane_widths(81), (50, 30));
    assert!(app.drag_resize(usize::MAX, 41));
    assert_eq!(app.pane_widths(41), (34, 6));
    // a window without room leaves the ratio alone
    assert!(app.drag_resize(7, 1));
    assert_eq!(app.pane_ratio, Some((34, 40)));
    assert!(app.finish_resize());
    assert!(!app.finish_resize());
    app.reset_panes();
    assert_eq!(app.pane_widths(41), (20, 20));
}

#[test]
fn a_range_runs_between_the_two_ends_of_a_selection() {
    let hit = |row, start, end| Hit { row, start, end };
    let forward = Selection {
        pane: Pane::Left,
        anchor: hit(2, 3, 4),
        head: hit(5, 1, 2),
        dragged: true,
    };
    let backward = Selection {
        anchor: forward.head,
        head: forward.anchor,
        ..forward
    };
    for s in [forward, backward] {
        assert_eq!(s.range_for(Pane::Left, 1, 9), None);
        assert_eq!(s.range_for(Pane::Left, 2, 9), Some(3..9));
        assert_eq!(s.range_for(Pane::Left, 3, 7), Some(0..7));
        assert_eq!(s.range_for(Pane::Left, 5, 9), Some(0..2));
        assert_eq!(s.range_for(Pane::Left, 6, 9), None);
        assert_eq!(s.range_for(Pane::Right, 3, 7), None);
        // a line shorter than where the selection begins
        assert_eq!(s.range_for(Pane::Left, 2, 2), None);
    }
}

#[test]
fn places_without_text_are_no_hits() {
    let app = two_files();
    // a raw line, a file header, the footer, below the last row
    for y in [0, 1, 9, 8] {
        assert_eq!(app.hit_test(Pane::Left, 6, y, 41, 10), None);
    }
    assert_eq!(
        app.hit_test(Pane::Right, 27, 2, 41, 10),
        Some(Hit {
            row: 2,
            start: 1,
            end: 2
        })
    );
    // beyond the text: its last glyph
    assert_eq!(
        app.hit_test(Pane::Right, 400, 2, 41, 10),
        Some(Hit {
            row: 2,
            start: 2,
            end: 3
        })
    );
    // panes without columns, a line without glyphs
    assert_eq!(app.hit_test(Pane::Left, 0, 2, 1, 10), None);
    let empty = App::new(vec![line(1, "")]);
    assert_eq!(empty.hit_test(Pane::Left, 6, 0, 41, 10), None);
}

#[test]
fn what_is_selected_is_copied_once() {
    let mut app = two_files();
    assert_eq!(app.finish_selection(), None);
    app.begin_selection(5, 2, 41, 10);
    assert!(app.selection.is_some());
    app.drag_selection(6, 3, 41, 10);
    assert_eq!(app.finish_selection().as_deref(), Some("one\ntw"));
    assert_eq!(app.finish_selection(), None);
    // beginning on the divider drops what was selected
    app.begin_selection(5, 2, 41, 10);
    app.begin_selection(20, 2, 41, 10);
    assert!(app.selection.is_none());
    app.begin_selection(5, 2, 41, 10);
    app.cancel_interaction();
    assert!(app.selection.is_none());
}

#[test]
fn steps_down_count_visible_rows_and_lead_back() {
    let mut app = two_files();
    app.scroll = 1;
    assert!(app.toggle_current_file());
    for start in app.visible_rows() {
        let below: Vec<usize> = app.visible_rows_from(start + 1);
        for count in 0..6 {
            for max in 0..7 {
                app.scroll = start;
                app.scroll_down(count, max);
                let expected = if count == 0 || below.is_empty() {
                    start
                } else {
                    below[count.min(below.len()) - 1].min(max)
                };
                assert_eq!(app.scroll, expected);
                if count <= below.len() && (count == 0 || below[count - 1] <= max) {
                    app.scroll_up(count);
                    assert_eq!(app.scroll, start);
                }
            }
        }
    }
}

#[test]
fn clicks_toggle_exactly_where_a_file_row_is_shown() {
    for scroll in 0..6 {
        for y in 0..8 {
            let mut app = two_files();
            app.scroll = scroll;
            let file = app
                .screen_row(y, 41, 8)
                .is_some_and(|at| matches!(app.rows[at.source], Row::File(_)));
            assert_eq!(app.toggle_file_at(y, 41, 8), file);
            if file && y > 0 {
                for max in 0..6 {
                    app.normalize_scroll(max);
                    app.cancel_interaction();
                    assert_eq!((app.scroll, app.preserve_scroll), (scroll, Some(scroll)));
                }
            }
        }
    }
}

#[test]
fn a_drag_between_different_glyphs_copies_something() {
    for (x, y) in [(5, 3), (6, 2), (7, 2), (5, 5), (9, 5)] {
        let mut app = two_files();
        app.begin_selection(5, 2, 41, 10);
        app.drag_selection(x, y, 41, 10);
        assert!(app.finish_selection().is_some());
    }
}
