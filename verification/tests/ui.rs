use ratatui::style::{Color, Modifier};
use ratatui::{Frame, Terminal, backend::TestBackend};

use scopic::diff::{Cell, Kind, Row};
use scopic::selection::{Hit, Pane, Selection};
use scopic::style;
use scopic::ui::App;

fn terminal_color(color: style::Color) -> Color {
    match color {
        style::Color::DarkGray => Color::DarkGray,
        style::Color::Green => Color::Green,
        style::Color::Red => Color::Red,
        style::Color::Rgb(r, g, b) => Color::Rgb(r, g, b),
        style::Color::Indexed(i) => Color::Indexed(i),
    }
}

fn terminal_style(style: style::Style) -> ratatui::style::Style {
    let mut s = ratatui::style::Style::default();
    if let Some(fg) = style.fg {
        s = s.fg(terminal_color(fg));
    }
    if let Some(bg) = style.bg {
        s = s.bg(terminal_color(bg));
    }
    if style.bold {
        s = s.add_modifier(Modifier::BOLD);
    }
    if style.reversed {
        s = s.add_modifier(Modifier::REVERSED);
    }
    s
}

fn terminal_line(line: style::Line) -> ratatui::text::Line<'static> {
    let spans: Vec<ratatui::text::Span<'static>> = line
        .spans
        .into_iter()
        .map(|span| ratatui::text::Span::styled(span.content, terminal_style(span.style)))
        .collect();
    ratatui::text::Line::from(spans).style(terminal_style(line.style))
}

fn draw(f: &mut Frame, app: &App) {
    let area = f.area();
    let Some(screen) = app.screen(area.width as usize, area.height as usize) else {
        return;
    };
    let body_h = area.height - 1;
    let lines: Vec<ratatui::text::Line<'static>> =
        screen.body.into_iter().map(terminal_line).collect();
    let body = ratatui::layout::Rect {
        height: body_h,
        ..area
    };
    f.render_widget(
        ratatui::widgets::Paragraph::new(ratatui::text::Text::from(lines)),
        body,
    );
    let footer = ratatui::layout::Rect {
        y: area.y + body_h,
        height: 1,
        ..area
    };
    f.render_widget(
        ratatui::widgets::Paragraph::new(terminal_line(screen.footer)),
        footer,
    );
}

const SMALL: &str = "\
diff --git a/f.rs b/f.rs
--- a/f.rs
+++ b/f.rs
@@ -1,2 +1,2 @@
 ctx
-old line
+new line
";

fn cell(no: u32, text: &str, kind: Kind) -> Option<Cell> {
    Some(Cell {
        no,
        text: text.into(),
        kind,
        emph: vec![],
    })
}

fn render(width: u16, height: u16, app: &App) -> Vec<String> {
    let mut term = Terminal::new(TestBackend::new(width, height)).unwrap();
    term.draw(|f| draw(f, app)).unwrap();
    let buf = term.backend().buffer().clone();
    (0..height)
        .map(|y| {
            (0..width)
                .map(|x| buf[(x, y)].symbol().to_string())
                .collect::<String>()
                .trim_end()
                .to_string()
        })
        .collect()
}

fn section_rows() -> Vec<Row> {
    vec![
        Row::Raw("preamble".into()),
        Row::File("a.rs".into()),
        Row::Line {
            left: cell(1, "alpha", Kind::Ctx),
            right: cell(1, "alpha", Kind::Ctx),
        },
        Row::File("empty.rs".into()),
        Row::File("c.rs".into()),
        Row::Line {
            left: cell(1, "charlie", Kind::Ctx),
            right: cell(1, "charlie", Kind::Ctx),
        },
    ]
}

#[test]
fn file_sections_include_empty_bodies_and_leave_preamble_unsectioned() {
    let app = App::new(section_rows());

    assert_eq!(
        app.sections
            .iter()
            .map(|section| (section.header, section.body.clone(), section.collapsed))
            .collect::<Vec<_>>(),
        vec![(1, 2..3, false), (3, 4..4, false), (4, 5..6, false)]
    );
    assert_eq!(app.section_index_for_row(0), None);
    assert_eq!(app.section_index_for_row(2), Some(0));
    assert_eq!(app.section_index_for_row(3), Some(1));
}

#[test]
fn collapse_hides_only_the_current_file_body() {
    let mut app = App::new(section_rows());
    app.scroll = 2;

    assert!(app.toggle_current_file());
    assert_eq!(app.scroll, 1);
    assert_eq!(app.visible_rows(), vec![0, 1, 3, 4, 5]);
    let lines = render(41, 7, &app);
    assert!(lines[0].starts_with("▸ a.rs"), "{lines:?}");
    assert!(lines[1].starts_with("▾ empty.rs"), "{lines:?}");

    assert!(app.toggle_current_file());
    assert_eq!(
        app.visible_rows(),
        vec![0, 1, 2, 3, 4, 5]
    );
}

#[test]
fn visible_scrolling_skips_collapsed_bodies() {
    let mut app = App::new(section_rows());
    app.scroll = 2;
    assert!(app.toggle_current_file());

    app.scroll_down(1, 5);
    assert_eq!(app.scroll, 3);
    app.scroll_down(1, 5);
    assert_eq!(app.scroll, 4);
    app.scroll_up(2);
    assert_eq!(app.scroll, 1);
}

#[test]
fn copied_text_excludes_collapsed_file_bodies() {
    let mut app = App::new(vec![
        Row::File("a.rs".into()),
        Row::Line {
            left: cell(1, "alpha", Kind::Ctx),
            right: None,
        },
        Row::File("hidden.rs".into()),
        Row::Line {
            left: cell(1, "hidden", Kind::Ctx),
            right: None,
        },
        Row::File("c.rs".into()),
        Row::Line {
            left: cell(1, "charlie", Kind::Ctx),
            right: None,
        },
    ]);
    app.scroll = 2;
    assert!(app.toggle_current_file());
    let selection = Selection {
        pane: Pane::Left,
        anchor: Hit {
            row: 1,
            start: 0,
            end: 5,
        },
        head: Hit {
            row: 5,
            start: 0,
            end: 7,
        },
        dragged: true,
    };

    assert_eq!(app.selection_text(selection), "alpha\ncharlie");
}

#[test]
fn collapsed_body_no_longer_contributes_to_max_scroll() {
    let mut app = App::new(vec![
        Row::File("a.rs".into()),
        Row::Line {
            left: cell(1, "one", Kind::Ctx),
            right: cell(1, "one", Kind::Ctx),
        },
        Row::Line {
            left: cell(2, "two", Kind::Ctx),
            right: cell(2, "two", Kind::Ctx),
        },
    ]);
    assert_eq!(app.max_scroll(41, 2), 2);

    assert!(app.toggle_current_file());
    assert_eq!(app.max_scroll(41, 2), 0);
}

#[test]
fn sticky_header_appears_without_obscuring_the_top_content_row() {
    let mut app = App::new(vec![
        Row::File("a.rs".into()),
        Row::Line {
            left: cell(1, "one", Kind::Ctx),
            right: cell(1, "one", Kind::Ctx),
        },
        Row::Line {
            left: cell(2, "two", Kind::Ctx),
            right: cell(2, "two", Kind::Ctx),
        },
    ]);
    app.scroll = 1;

    let lines = render(41, 4, &app);
    assert!(lines[0].starts_with("▾ a.rs"), "{lines:?}");
    assert!(lines[1].contains("one"), "{lines:?}");
    assert!(lines[2].contains("two"), "{lines:?}");
}

#[test]
fn real_header_is_not_duplicated_and_next_file_replaces_sticky_header() {
    let mut app = App::new(vec![
        Row::File("a.rs".into()),
        Row::Line {
            left: cell(1, "a", Kind::Ctx),
            right: cell(1, "a", Kind::Ctx),
        },
        Row::File("b.rs".into()),
        Row::Line {
            left: cell(1, "b", Kind::Ctx),
            right: cell(1, "b", Kind::Ctx),
        },
    ]);

    assert_eq!(
        render(41, 4, &app)
            .iter()
            .filter(|line| line.starts_with("▾ a.rs"))
            .count(),
        1
    );
    app.scroll = 3;
    assert!(render(41, 3, &app)[0].starts_with("▾ b.rs"));
}

#[test]
fn clicking_sticky_header_collapses_its_file_and_anchors_real_header() {
    let mut app = App::new(vec![
        Row::File("a.rs".into()),
        Row::Line {
            left: cell(1, "one", Kind::Ctx),
            right: cell(1, "one", Kind::Ctx),
        },
    ]);
    app.scroll = 1;

    assert!(app.toggle_file_at(0, 41, 3));
    assert_eq!(app.scroll, 0);
    assert!(app.sections[0].collapsed);
}

#[test]
fn real_header_toggle_preserves_screen_position_across_normalization() {
    let mut app = App::new(vec![
        Row::Raw("preamble".into()),
        Row::File("a.rs".into()),
        Row::Line {
            left: cell(1, "alpha", Kind::Ctx),
            right: None,
        },
        Row::Line {
            left: cell(2, "alpha two", Kind::Ctx),
            right: None,
        },
        Row::File("b.rs".into()),
        Row::Line {
            left: cell(1, "beta", Kind::Ctx),
            right: None,
        },
        Row::Line {
            left: cell(2, "beta two", Kind::Ctx),
            right: None,
        },
    ]);
    let (width, height) = (41, 6);
    app.scroll = 2;
    let starting_scroll = app.scroll;
    let before = render(width, height, &app);
    let header_y = before
        .iter()
        .position(|line| line.starts_with("▾ b.rs"))
        .unwrap();
    assert_eq!(header_y, 3);
    let above = before[..header_y].to_vec();

    assert!(app.toggle_file_at(header_y, width as usize, height as usize));
    let max = app.max_scroll(width as usize, height as usize);
    assert!(max < starting_scroll);
    app.normalize_scroll(max);
    app.cancel_interaction();
    app.normalize_scroll(app.max_scroll(width as usize, height as usize));
    let collapsed = render(width, height, &app);
    assert_eq!(
        collapsed.iter().position(|line| line.starts_with("▸ b.rs")),
        Some(header_y)
    );
    assert_eq!(&collapsed[..header_y], &above);

    assert!(app.toggle_file_at(header_y, width as usize, height as usize));
    app.normalize_scroll(app.max_scroll(width as usize, height as usize));
    app.cancel_interaction();
    app.normalize_scroll(app.max_scroll(width as usize, height as usize));
    let expanded = render(width, height, &app);
    assert_eq!(
        expanded.iter().position(|line| line.starts_with("▾ b.rs")),
        Some(header_y)
    );
    assert_eq!(&expanded[..header_y], &above);

    assert!(app.toggle_file_at(header_y, width as usize, height as usize));
    let max = app.max_scroll(width as usize, height as usize);
    app.scroll_down(1, max);
    assert!(app.preserve_scroll.is_none());
}

#[test]
fn sticky_header_offset_maps_selection_to_the_content_below_it() {
    let mut app = App::new(vec![
        Row::File("a.rs".into()),
        Row::Line {
            left: cell(1, "abc", Kind::Ctx),
            right: None,
        },
    ]);
    app.scroll = 1;

    app.begin_selection(5, 1, 41, 3);
    app.drag_selection(6, 1, 41, 3);
    assert_eq!(app.finish_selection(), Some("ab".into()));
}

#[test]
fn sticky_header_capacity_keeps_wrapped_tail_reachable() {
    let app = App::new(vec![
        Row::File("a.rs".into()),
        Row::Line {
            left: cell(1, "abcdefghij", Kind::Ctx),
            right: cell(1, "abcdefghij", Kind::Ctx),
        },
        Row::Line {
            left: cell(2, "tail", Kind::Ctx),
            right: cell(2, "tail", Kind::Ctx),
        },
    ]);

    assert_eq!(app.max_scroll(21, 4), 2);
}

#[test]
fn renders_split_view_with_gutters() {
    let app = App::new(scopic::diff::parse(SMALL.as_bytes()));
    let lines = render(40, 8, &app);
    assert_eq!(
        lines,
        vec![
            format!("▾ f.rs{}+1 -1", " ".repeat(28)),
            "@@ -1,2 +1,2 @@".to_string(),
            "   1 ctx           │   1 ctx".to_string(),
            "   2 old line      │   2 new line".to_string(),
            "".to_string(),
            "".to_string(),
            "".to_string(),
            " j/k · ctrl-d/u · n/p · c collapse · g/G".to_string(),
        ]
    );
}

#[test]
fn active_selection_is_highlighted() {
    let mut app = App::new(scopic::diff::parse(SMALL.as_bytes()));
    app.begin_selection(25, 2, 40, 8);
    app.drag_selection(27, 2, 40, 8);
    let mut term = Terminal::new(TestBackend::new(40, 8)).unwrap();
    term.draw(|f| draw(f, &app)).unwrap();
    let buf = term.backend().buffer();
    assert!(
        buf[(25u16, 2u16)]
            .style()
            .add_modifier
            .contains(Modifier::REVERSED)
    );
    assert!(
        !buf[(20u16, 2u16)]
            .style()
            .add_modifier
            .contains(Modifier::REVERSED)
    );
}

#[test]
fn success_status_replaces_footer_in_accent_blue() {
    let mut app = App::new(scopic::diff::parse(SMALL.as_bytes()));
    app.set_status(" copied 2 lines".into());
    assert_eq!(render(40, 8, &app)[7], " copied 2 lines");

    let mut term = Terminal::new(TestBackend::new(40, 8)).unwrap();
    term.draw(|f| draw(f, &app)).unwrap();
    let style = term.backend().buffer()[(1u16, 7u16)].style();
    assert_eq!(style.fg, Some(Color::Rgb(88, 166, 255)));
    assert!(style.add_modifier.contains(Modifier::BOLD));
}

#[test]
fn error_status_replaces_footer_in_bright_red() {
    let mut app = App::new(scopic::diff::parse(SMALL.as_bytes()));
    app.set_error(" copy failed: tmux exited".into());
    assert_eq!(render(40, 8, &app)[7], " copy failed: tmux exited");

    let mut term = Terminal::new(TestBackend::new(40, 8)).unwrap();
    term.draw(|f| draw(f, &app)).unwrap();
    assert_eq!(
        term.backend().buffer()[(1u16, 7u16)].style().fg,
        Some(Color::Rgb(248, 81, 73))
    );
}

#[test]
fn selects_right_pane_text_only() {
    let mut app = App::new(scopic::diff::parse(SMALL.as_bytes()));
    // At 40 columns the divider is x=19 and right-pane text starts at x=25.
    app.begin_selection(25, 2, 40, 8);
    app.drag_selection(32, 3, 40, 8);
    assert_eq!(app.finish_selection().as_deref(), Some("ctx\nnew line"));
}

#[test]
fn same_cell_drag_does_not_copy() {
    let mut app = App::new(scopic::diff::parse(SMALL.as_bytes()));
    app.begin_selection(25, 2, 40, 8);
    app.drag_selection(25, 2, 40, 8);
    assert_eq!(app.finish_selection(), None);
}

#[test]
fn selection_includes_combining_marks() {
    let mut app = App::new(vec![Row::Line {
        left: cell(1, "x a\u{301}", Kind::Ctx),
        right: None,
    }]);
    app.begin_selection(5, 0, 40, 2);
    app.drag_selection(7, 0, 40, 2);
    assert_eq!(app.finish_selection().as_deref(), Some("x a\u{301}"));
}

#[test]
fn selection_includes_entire_zwj_grapheme() {
    let mut app = App::new(vec![Row::Line {
        left: cell(1, "x👩‍💻y", Kind::Ctx),
        right: None,
    }]);
    app.begin_selection(5, 0, 40, 2);
    app.drag_selection(6, 0, 40, 2);
    assert_eq!(app.finish_selection().as_deref(), Some("x👩‍💻"));
}

#[test]
fn trailing_zero_width_grapheme_hits_visible_glyph() {
    let app = App::new(vec![Row::Line {
        left: cell(1, "a\u{200b}", Kind::Ctx),
        right: None,
    }]);
    assert_eq!(
        app.hit_test(Pane::Left, 6, 0, 40, 2),
        Some(Hit {
            row: 0,
            start: 0,
            end: 4,
        })
    );
}

#[test]
fn divider_resize_preserves_ratio_across_terminal_widths() {
    let mut app = App::new(vec![Row::Line {
        left: cell(1, "left", Kind::Ctx),
        right: cell(1, "right", Kind::Ctx),
    }]);

    assert!(app.begin_resize(20, 0, 41, 2));
    assert!(app.drag_resize(30, 41));
    assert!(app.finish_resize());
    assert_eq!(app.pane_widths(41), (30, 10));
    assert_eq!(app.pane_widths(81), (60, 20));
}

#[test]
fn divider_resize_clamps_both_panes_to_readable_width() {
    let mut app = App::new(vec![Row::Line {
        left: cell(1, "left", Kind::Ctx),
        right: cell(1, "right", Kind::Ctx),
    }]);

    assert!(app.begin_resize(20, 0, 41, 2));
    assert!(app.drag_resize(0, 41));
    assert!(app.finish_resize());
    assert_eq!(app.pane_widths(41), (6, 34));

    assert!(app.begin_resize(6, 0, 41, 2));
    assert!(app.drag_resize(40, 41));
    assert!(app.finish_resize());
    assert_eq!(app.pane_widths(41), (34, 6));
}

#[test]
fn pane_reset_restores_equal_split() {
    let mut app = App::new(vec![Row::Line {
        left: cell(1, "left", Kind::Ctx),
        right: cell(1, "right", Kind::Ctx),
    }]);

    assert!(app.begin_resize(20, 0, 41, 2));
    assert!(app.drag_resize(30, 41));
    assert!(app.finish_resize());
    app.reset_panes();
    assert_eq!(app.pane_widths(41), (20, 20));
}

#[test]
fn uneven_split_moves_the_rendered_divider() {
    let mut app = App::new(vec![Row::Line {
        left: cell(1, "left", Kind::Ctx),
        right: cell(1, "right", Kind::Ctx),
    }]);

    assert!(app.begin_resize(20, 0, 41, 2));
    assert!(app.drag_resize(30, 41));
    assert!(app.finish_resize());
    assert_eq!(render(41, 2, &app)[0].chars().nth(30), Some('│'));
}

#[test]
fn wide_header_keeps_counts_at_right_edge() {
    let app = App::new(vec![
        Row::File("界界界界.rs".into()),
        Row::Line {
            left: cell(1, "gone", Kind::Del),
            right: cell(1, "new", Kind::Add),
        },
    ]);
    let lines = render(20, 3, &app);
    assert!(lines[0].ends_with("+1 -1"), "{:?}", lines[0]);
}

#[test]
fn continuation_gutter_hits_current_segment_start() {
    let app = App::new(vec![Row::Line {
        left: cell(1, "abcdefghijklmnop", Kind::Ctx),
        right: None,
    }]);
    assert_eq!(
        app.hit_test(Pane::Left, 0, 1, 40, 3),
        Some(Hit {
            row: 0,
            start: 14,
            end: 15,
        })
    );
}

#[test]
fn wrapped_segment_padding_hits_current_segment_end() {
    let app = App::new(vec![Row::Line {
        left: cell(1, "abcdefghijklm界x", Kind::Ctx),
        right: None,
    }]);
    assert_eq!(
        app.hit_test(Pane::Left, 18, 0, 40, 3),
        Some(Hit {
            row: 0,
            start: 12,
            end: 13,
        })
    );
}

#[test]
fn reverse_drag_matches_forward_drag() {
    let mut app = App::new(scopic::diff::parse(SMALL.as_bytes()));
    app.begin_selection(32, 3, 40, 8);
    app.drag_selection(25, 2, 40, 8);
    assert_eq!(app.finish_selection().as_deref(), Some("ctx\nnew line"));
}

#[test]
fn partial_endpoints_include_both_characters() {
    let mut app = App::new(scopic::diff::parse(SMALL.as_bytes()));
    app.begin_selection(26, 2, 40, 8);
    app.drag_selection(27, 3, 40, 8);
    assert_eq!(app.finish_selection().as_deref(), Some("tx\nnew"));
}

#[test]
fn wrapped_selection_copies_original_line() {
    let text = "a very long line that cannot fit in the pane";
    let mut app = App::new(vec![Row::Line {
        left: cell(1, text, Kind::Del),
        right: None,
    }]);
    app.begin_selection(0, 0, 40, 5);
    app.drag_selection(18, 3, 40, 5);
    assert_eq!(app.finish_selection().as_deref(), Some(text));
}

#[test]
fn selection_preserves_tab_and_unicode() {
    let mut app = App::new(vec![Row::Line {
        left: cell(1, "\té", Kind::Ctx),
        right: None,
    }]);
    app.begin_selection(5, 0, 40, 2);
    app.drag_selection(9, 0, 40, 2);
    assert_eq!(app.finish_selection().as_deref(), Some("\té"));
}

#[test]
fn selection_skips_metadata_rows() {
    let mut app = App::new(vec![
        Row::Line {
            left: cell(1, "one", Kind::Ctx),
            right: None,
        },
        Row::Hunk("@@ -1 +1 @@".into()),
        Row::Raw("metadata".into()),
        Row::Line {
            left: cell(2, "two", Kind::Ctx),
            right: None,
        },
    ]);
    app.begin_selection(5, 0, 40, 5);
    app.drag_selection(7, 3, 40, 5);
    assert_eq!(app.finish_selection().as_deref(), Some("one\ntwo"));
}

#[test]
fn selection_skips_absent_side_rows() {
    let mut app = App::new(vec![
        Row::Line {
            left: cell(1, "one", Kind::Ctx),
            right: None,
        },
        Row::Line {
            left: None,
            right: cell(1, "right only", Kind::Ctx),
        },
        Row::Line {
            left: cell(2, "two", Kind::Ctx),
            right: None,
        },
    ]);
    app.begin_selection(5, 0, 40, 4);
    app.drag_selection(7, 2, 40, 4);
    assert_eq!(app.finish_selection().as_deref(), Some("one\ntwo"));
}

#[test]
fn crossing_divider_stays_in_starting_pane() {
    let mut app = App::new(scopic::diff::parse(SMALL.as_bytes()));
    app.begin_selection(25, 2, 40, 8);
    app.drag_selection(0, 3, 40, 8);
    assert_eq!(app.finish_selection().as_deref(), Some("ctx\nn"));
}

#[test]
fn dead_cell_and_footer_do_not_start_selection() {
    let mut app = App::new(vec![Row::Line {
        left: cell(1, "left", Kind::Del),
        right: None,
    }]);
    app.begin_selection(25, 0, 40, 2);
    app.drag_selection(30, 0, 40, 2);
    assert_eq!(app.finish_selection(), None);
    app.begin_selection(5, 1, 40, 2);
    app.drag_selection(8, 1, 40, 2);
    assert_eq!(app.finish_selection(), None);
    app.begin_selection(19, 0, 40, 2);
    app.drag_selection(18, 0, 40, 2);
    assert_eq!(app.finish_selection(), None);
}

#[test]
fn metadata_does_not_start_selection() {
    let mut app = App::new(vec![
        Row::Hunk("@@ -1 +1 @@".into()),
        Row::Line {
            left: cell(1, "left", Kind::Ctx),
            right: None,
        },
    ]);
    app.begin_selection(5, 0, 40, 3);
    app.drag_selection(8, 1, 40, 3);
    assert_eq!(app.finish_selection(), None);
}

#[test]
fn scroll_skips_rows_and_wraps_long_lines() {
    let mut app = App::new(scopic::diff::parse(SMALL.as_bytes()));
    app.rows.push(Row::Line {
        left: Some(scopic::diff::Cell {
            no: 3,
            text: "a very long line that cannot fit in the pane".into(),
            kind: scopic::diff::Kind::Del,
            emph: vec![],
        }),
        right: None,
    });
    app.scroll = 4;
    let lines = render(40, 3, &app);
    // 14-col budget: the line wraps, continuation gets a blank gutter
    assert_eq!(
        lines,
        vec![
            "   3 a very long li│".to_string(),
            "     ne that cannot│".to_string(),
            " j/k · ctrl-d/u · n/p · c collapse · g/G".to_string(),
        ]
    );
}

#[test]
fn wrapped_continuations_keep_indent() {
    let app = App::new(vec![Row::Line {
        left: Some(scopic::diff::Cell {
            no: 1,
            text: "    abcdefghij0123456789".into(),
            kind: scopic::diff::Kind::Del,
            emph: vec![],
        }),
        right: None,
    }]);
    let lines = render(40, 3, &app);
    assert_eq!(lines[0], "   1     abcdefghij│");
    assert_eq!(lines[1], "         0123456789│"); // blank gutter + 4-col hang
}

#[test]
fn max_scroll_accounts_for_wrapped_heights() {
    let mut rows: Vec<Row> = (0..5).map(|i| Row::Raw(format!("r{i}"))).collect();
    rows.push(Row::Line {
        left: Some(scopic::diff::Cell {
            no: 1,
            text: "a very long line that cannot fit in the pane".into(),
            kind: scopic::diff::Kind::Del,
            emph: vec![],
        }),
        right: None,
    });
    let app = App::new(rows);
    // 40x5 terminal, 4 body lines: the tail row alone wraps to 4, so G stops on it
    assert_eq!(app.max_scroll(40, 5), 5);
}

#[test]
fn max_scroll_bounds_flat_rows() {
    let rows: Vec<Row> = (0..10).map(|i| Row::Raw(format!("r{i}"))).collect();
    let app = App::new(rows);
    // 5-row terminal: 4 body rows -> max scroll 6
    assert_eq!(app.max_scroll(40, 5), 6);
}

#[test]
fn max_scroll_never_scrolls_past_a_tall_tail_row() {
    let mut app = App::new(vec![Row::Line {
        left: Some(scopic::diff::Cell {
            no: 1,
            text: "a very long line that cannot fit in the pane".into(),
            kind: scopic::diff::Kind::Del,
            emph: vec![],
        }),
        right: None,
    }]);
    // the only row wraps to 4 lines, body is 3: G must land on it, not past it
    app.scroll = app.max_scroll(40, 4);
    assert_eq!(app.scroll, 0);
    let lines = render(40, 4, &app);
    assert!(!lines[0].is_empty(), "blank body at max scroll");
}

#[test]
fn emph_survives_wrap_boundary() {
    let app = App::new(vec![Row::Line {
        left: Some(scopic::diff::Cell {
            no: 1,
            text: "aaaaaaaaaaaaXXXX".into(), // budget 14 splits the emph run
            kind: scopic::diff::Kind::Del,
            emph: vec![(12, 16)],
        }),
        right: None,
    }]);
    let mut term = Terminal::new(TestBackend::new(40, 3)).unwrap();
    term.draw(|f| draw(f, &app)).unwrap();
    let buf = term.backend().buffer().clone();
    // emph bg on the last cell before the wrap and the first text cell after
    assert_eq!(buf[(17u16, 0u16)].style().bg, Some(Color::Rgb(107, 43, 43)));
    assert_eq!(buf[(5u16, 1u16)].style().bg, Some(Color::Rgb(107, 43, 43)));
}

#[test]
fn uneven_two_sided_wrap_keeps_divider_and_fills_short_side() {
    let app = App::new(vec![Row::Line {
        left: Some(scopic::diff::Cell {
            no: 1,
            text: "left side text that wraps to three lines here".into(),
            kind: scopic::diff::Kind::Del,
            emph: vec![],
        }),
        right: Some(scopic::diff::Cell {
            no: 1,
            text: "short right".into(),
            kind: scopic::diff::Kind::Add,
            emph: vec![],
        }),
    }]);
    let mut term = Terminal::new(TestBackend::new(40, 5)).unwrap();
    term.draw(|f| draw(f, &app)).unwrap();
    let buf = term.backend().buffer().clone();
    // left wraps to 4 lines; the divider must not drift on any of them
    for y in 0..4u16 {
        assert_eq!(buf[(19u16, y)].symbol(), "│", "divider drifted on line {y}");
    }
    // the right pane exists but is shorter: its continuations are dead-filled
    assert_eq!(buf[(20u16, 1u16)].style().bg, Some(Color::Indexed(234)));
}

#[test]
fn zero_budget_pane_never_overflows_into_divider() {
    let app = App::new(vec![Row::Line {
        left: Some(scopic::diff::Cell {
            no: 1,
            text: "long enough to overflow".into(),
            kind: scopic::diff::Kind::Del,
            emph: vec![],
        }),
        right: None,
    }]);
    // width 11: left pane 5 == gutter width, so the text budget is exactly 0
    let mut term = Terminal::new(TestBackend::new(11, 2)).unwrap();
    term.draw(|f| draw(f, &app)).unwrap();
    let buf = term.backend().buffer().clone();
    assert_eq!(buf[(5u16, 0u16)].symbol(), "│");
}

#[test]
fn six_digit_line_numbers_render_in_full() {
    let app = App::new(vec![Row::Line {
        left: Some(scopic::diff::Cell {
            no: 100000,
            text: "hello".into(),
            kind: scopic::diff::Kind::Del,
            emph: vec![],
        }),
        right: None,
    }]);
    let lines = render(40, 2, &app);
    assert!(
        lines[0].starts_with("100000 hello"),
        "gutter truncated the line number: {:?}",
        lines[0]
    );
}

#[test]
fn file_jump_finds_next_header() {
    let two = format!("{SMALL}{}", SMALL.replace("f.rs", "g.rs"));
    let mut app = App::new(scopic::diff::parse(two.as_bytes()));
    assert_eq!(app.file_jump(true), Some(5)); // second File row, after the blank gap
    app.scroll = 5;
    assert_eq!(app.file_jump(false), Some(0));
}

#[test]
fn header_counts_reset_per_file() {
    let two = format!("{SMALL}{}", SMALL.replace("f.rs", "g.rs"));
    let app = App::new(scopic::diff::parse(two.as_bytes()));
    let lines = render(40, 8, &app);
    // a running total would show +2 -2 on the second header
    assert!(
        lines[5].starts_with("▾ g.rs") && lines[5].ends_with("+1 -1"),
        "{:?}",
        lines[5]
    );
}

#[test]
fn file_header_dims_directory_bolds_basename() {
    let app = App::new(vec![Row::File("src/ui.rs".into())]);
    let mut term = Terminal::new(TestBackend::new(20, 2)).unwrap();
    term.draw(|f| draw(f, &app)).unwrap();
    let buf = term.backend().buffer().clone();
    // "src/" dim, not bold
    assert_eq!(buf[(2u16, 0u16)].style().fg, Some(Color::DarkGray));
    assert!(
        !buf[(2u16, 0u16)]
            .style()
            .add_modifier
            .contains(Modifier::BOLD)
    );
    // "ui.rs" bold
    assert!(
        buf[(6u16, 0u16)]
            .style()
            .add_modifier
            .contains(Modifier::BOLD)
    );
}

#[test]
fn absent_side_gets_faint_fill() {
    let app = App::new(vec![Row::Line {
        left: Some(scopic::diff::Cell {
            no: 1,
            text: "gone".into(),
            kind: scopic::diff::Kind::Del,
            emph: vec![],
        }),
        right: None,
    }]);
    let mut term = Terminal::new(TestBackend::new(40, 2)).unwrap();
    term.draw(|f| draw(f, &app)).unwrap();
    let buf = term.backend().buffer().clone();
    assert_eq!(buf[(20u16, 0u16)].style().bg, Some(Color::Indexed(234)));
}

#[test]
fn gutter_matches_line_background() {
    let app = App::new(scopic::diff::parse(SMALL.as_bytes()));
    let mut term = Terminal::new(TestBackend::new(40, 8)).unwrap();
    term.draw(|f| draw(f, &app)).unwrap();
    let buf = term.backend().buffer().clone();
    // row 3 pairs the del/add line: both gutters carry their row's bg
    assert_eq!(buf[(0u16, 3u16)].style().bg, Some(Color::Rgb(48, 27, 31)));
    assert_eq!(buf[(20u16, 3u16)].style().bg, Some(Color::Rgb(18, 38, 30)));
}

#[test]
fn file_header_bar_spans_full_width() {
    let app = App::new(scopic::diff::parse(SMALL.as_bytes()));
    let mut term = Terminal::new(TestBackend::new(40, 3)).unwrap();
    term.draw(|f| draw(f, &app)).unwrap();
    let buf = term.backend().buffer().clone();
    assert_eq!(buf[(39u16, 0u16)].style().bg, Some(Color::Indexed(236)));
    // hunk band right below it, also full width
    assert_eq!(buf[(39u16, 1u16)].style().bg, Some(Color::Rgb(20, 34, 56)));
}
