use scopic::diff::{Cell, Kind, Row};
use scopic::render::{FOOTER, file_bar, render_rows};
use scopic::segments::{cell_segments, dead_fill, row_height, segments_from};
use scopic::style::{
    Color, Line, Span, Style, bar, base_style, dead, dim, emph_style, hunk_band, plain,
};
use scopic::ui::App;
use scopic::wrap::{Piece, hang_of, pieces};

fn cell(no: u32, text: &str) -> Cell {
    Cell {
        no,
        text: text.into(),
        kind: Kind::Ctx,
        emph: vec![],
    }
}

fn piece(start: usize, text: &str, cols: usize) -> Piece {
    Piece {
        start,
        end: start + text.len(),
        text: text.into(),
        cols,
    }
}

fn shown(spans: &[Span]) -> String {
    spans.iter().map(|span| span.content.as_str()).collect()
}

#[test]
fn clusters_tile_the_text() {
    assert_eq!(
        pieces("a\t界e\u{301}"),
        vec![
            piece(0, "a", 1),
            piece(1, "\t", 4),
            piece(2, "界", 2),
            piece(5, "e\u{301}", 1),
        ]
    );
    assert_eq!(pieces(""), vec![]);
}

#[test]
fn continuations_hang_at_the_indent_where_there_is_room() {
    let indented = pieces("\t  x");
    assert_eq!(hang_of(&indented, 10), 6);
    assert_eq!(hang_of(&indented, 9), 0);
    assert_eq!(hang_of(&pieces("x  "), 80), 0);
}

#[test]
fn wrapping_places_every_cluster_once_and_in_order() {
    let segments = cell_segments(Some(&cell(3, "ab cdefg")), 8, 5, None);
    let texts: Vec<String> = segments.iter().map(|s| shown(&s.spans)).collect();
    assert_eq!(texts, vec!["   3 ab ", "     cde", "     fg "]);
    let columns: Vec<(usize, usize)> = segments
        .iter()
        .flat_map(|s| s.glyphs.iter().map(|g| (g.bytes.start, g.bytes.end)))
        .collect();
    assert_eq!(columns, (0..8).map(|i| (i, i + 1)).collect::<Vec<_>>());
    assert_eq!(segments[1].glyphs[0].columns, 5..6);
}

#[test]
fn a_cluster_wider_than_the_pane_is_dropped() {
    let segments = cell_segments(Some(&cell(1, "a\tb")), 8, 5, None);
    assert_eq!(segments.len(), 1);
    assert_eq!(shown(&segments[0].spans), "   1 ab ");
}

#[test]
fn a_wide_cluster_does_not_straddle_the_end_of_a_line() {
    let segments = cell_segments(Some(&cell(1, "a界")), 7, 5, None);
    let texts: Vec<String> = segments.iter().map(|s| shown(&s.spans)).collect();
    assert_eq!(texts, vec!["   1 a ", "     界"]);
}

#[test]
fn only_a_cluster_wider_than_a_tab_can_overflow_a_continuation() {
    // four blanks of indent, eight columns of text, and a cluster of six columns
    let tall = vec![
        piece(0, " ", 1),
        piece(1, " ", 1),
        piece(2, " ", 1),
        piece(3, " ", 1),
        piece(4, "x", 6),
    ];
    let line = Cell {
        no: 1,
        text: "    x".into(),
        kind: Kind::Ctx,
        emph: vec![],
    };
    let segments = segments_from(&line, &tall, 13, 5, &None);
    assert_eq!(segments.len(), 2);
    assert_eq!(segments[1].glyphs[0].columns, 9..15);
}

#[test]
fn a_cluster_without_columns_belongs_to_the_one_before_it() {
    let parts = vec![piece(0, "a", 1), piece(1, "b", 0), piece(2, "c", 1)];
    let segments = segments_from(&cell(1, "abc"), &parts, 10, 5, &None);
    let bytes: Vec<_> = segments[0].glyphs.iter().map(|g| g.bytes.clone()).collect();
    assert_eq!(bytes, vec![0..2, 2..3]);
    // at the front of a line there is none before it
    let parts = vec![piece(0, "a", 0), piece(1, "b", 1)];
    let segments = segments_from(&cell(1, "ab"), &parts, 10, 5, &None);
    assert_eq!(segments[0].glyphs.len(), 1);
    assert_eq!(segments[0].glyphs[0].bytes, 1..2);
}

#[test]
fn runs_change_style_with_emphasis_and_selection() {
    let line = Cell {
        no: 1,
        text: "abcdef".into(),
        kind: Kind::Del,
        emph: vec![(1, 3)],
    };
    let segments = cell_segments(Some(&line), 11, 5, Some(2..4));
    let base = base_style(Kind::Del);
    let emph = emph_style(Kind::Del);
    let on = |style: Style| Style {
        reversed: true,
        ..style
    };
    let spans: Vec<(&str, Style)> = segments[0]
        .spans
        .iter()
        .map(|s| (s.content.as_str(), s.style))
        .collect();
    assert_eq!(
        spans,
        vec![
            (
                "   1 ",
                Style {
                    fg: Some(Color::DarkGray),
                    ..base
                }
            ),
            ("a", base),
            ("b", emph),
            ("c", on(emph)),
            ("d", on(base)),
            ("ef", base),
        ]
    );
}

#[test]
fn selecting_does_not_change_the_height() {
    let line = cell(1, "some text that goes on for more than one line");
    let row = Row::Line {
        left: Some(line.clone()),
        right: None,
    };
    let n = row_height(&row, 20, 20, 5);
    assert_eq!(n, cell_segments(Some(&line), 20, 5, Some(3..9)).len());
    assert_eq!(n, 3);
    assert_eq!(row_height(&Row::Raw("x".into()), 20, 20, 5), 1);
}

#[test]
fn a_gutter_that_does_not_fit_is_cut() {
    let segments = cell_segments(Some(&cell(12, "abc")), 3, 5, None);
    assert_eq!(segments.len(), 1);
    assert_eq!(shown(&segments[0].spans), "12 ");
    let segments = cell_segments(Some(&cell(123456, "abc")), 5, 5, None);
    assert_eq!(shown(&segments[0].spans), "12345");
    let segments = cell_segments(Some(&cell(1, "abc")), 0, 5, None);
    assert_eq!(shown(&segments[0].spans), "");
}

#[test]
fn an_absent_side_is_dead() {
    let segments = cell_segments(None, 4, 5, None);
    assert_eq!(segments.len(), 1);
    assert!(segments[0].glyphs.is_empty());
    assert_eq!(segments[0].spans, dead_fill(4));
    assert_eq!(
        dead_fill(2),
        vec![Span {
            content: "  ".into(),
            style: dead()
        }]
    );
}

#[test]
fn a_file_bar_puts_the_counts_at_the_right_edge() {
    let faint = Style {
        fg: Some(Color::DarkGray),
        ..bar()
    };
    let line = file_bar("src/ui.rs", Some((12, 0)), false, 24, 2, 9, (4, 3));
    let spans: Vec<(&str, Style)> = line
        .spans
        .iter()
        .map(|s| (s.content.as_str(), s.style))
        .collect();
    assert_eq!(
        spans,
        vec![
            ("▾ ", faint),
            ("src/", faint),
            (
                "ui.rs",
                Style {
                    bold: true,
                    ..bar()
                }
            ),
            ("      ", bar()),
            (
                "+12 ",
                Style {
                    fg: Some(Color::Green),
                    ..bar()
                }
            ),
            (
                "-0 ",
                Style {
                    fg: Some(Color::Red),
                    ..bar()
                }
            ),
        ]
    );
    // no counts where nothing is counted, and no room where there is none
    let line = file_bar("f", Some((0, 0)), true, 2, 2, 1, (0, 0));
    assert_eq!(shown(&line.spans), "▸ f");
    assert_eq!(line.style, plain());
}

#[test]
fn rows_that_are_no_lines_take_one_line() {
    let render = |row: &Row| render_rows(row, 4, 5, 5, None, None, 0, false);
    assert_eq!(
        render(&Row::Hunk("@@ é".into())),
        vec![Line {
            style: hunk_band(),
            spans: vec![Span {
                content: "@@ é      ".into(),
                style: plain()
            }]
        }]
    );
    assert_eq!(
        render(&Row::Raw("raw".into())),
        vec![Line {
            style: dim(),
            spans: vec![Span {
                content: "raw".into(),
                style: plain()
            }]
        }]
    );
    // wide characters count for their columns in a file header
    let line = &render(&Row::File("界".into()))[0];
    assert_eq!(shown(&line.spans), "▾ 界      ");
}

#[test]
fn the_shorter_side_is_dead_below_its_end() {
    let row = Row::Line {
        left: Some(cell(1, "abcdefgh")),
        right: Some(cell(1, "x")),
    };
    let lines = render_rows(&row, 9, 9, 5, None, None, 0, false);
    let texts: Vec<String> = lines.iter().map(|l| shown(&l.spans)).collect();
    assert_eq!(texts, vec!["   1 abcd│   1 x   ", "     efgh│         "]);
    assert_eq!(lines[1].spans.last().unwrap().style, dead());
}

#[test]
fn a_screen_is_the_body_and_the_footer() {
    let rows: Vec<Row> = (0..5).map(|i| Row::Raw(format!("r{i}"))).collect();
    let app = App::new(rows);
    assert!(app.screen(20, 0).is_none());
    let screen = app.screen(20, 1).unwrap();
    assert!(screen.body.is_empty());
    assert_eq!(shown(&screen.footer.spans), FOOTER);
    assert_eq!(screen.footer.style, dim());
    let screen = app.screen(20, 4).unwrap();
    assert_eq!(screen.body.len(), 3);
    assert_eq!(shown(&screen.body[2].spans), "r2");
    assert_eq!(app.screen(20, 40).unwrap().body.len(), 5);
}

#[test]
fn glyphs_share_out_the_text_and_adjoin() {
    let text = "a\u{200b}b 界\tcde\u{301}fgh";
    let segments = cell_segments(Some(&cell(1, text)), 12, 5, None);
    assert!(segments.len() > 1);
    let mut at = 0;
    for segment in &segments {
        let mut col = 5;
        for glyph in &segment.glyphs {
            assert_eq!(glyph.bytes.start, at);
            at = glyph.bytes.end;
            assert_eq!(glyph.columns.start, col);
            col = glyph.columns.end;
        }
        assert!(col <= 12);
    }
    assert_eq!(at, text.len());
}

#[test]
fn glyphs_wider_than_a_tab_share_out_the_text_too() {
    let parts = vec![
        piece(0, " ", 1),
        piece(1, "x", 9),
        piece(2, "y", 0),
        piece(3, "z", 6),
        piece(4, "w", 0),
    ];
    let segments = segments_from(&cell(1, " xyzw"), &parts, 16, 5, &None);
    let bytes: Vec<_> = segments
        .iter()
        .flat_map(|s| s.glyphs.iter().map(|g| (g.bytes.start, g.bytes.end)))
        .collect();
    assert_eq!(segments.len(), 2);
    assert_eq!(bytes, vec![(0, 1), (1, 3), (3, 5)]);
}

#[test]
fn breaks_are_forced() {
    let segments = cell_segments(Some(&cell(1, "abc界de")), 9, 5, None);
    let ends: Vec<usize> = segments
        .iter()
        .map(|s| s.glyphs.last().unwrap().columns.end)
        .collect();
    // three columns are taken and the next cluster takes two
    assert_eq!(ends, vec![8, 9]);
}
