//! Rows as styled lines, and the whole screen.

use std::ops::Range;

use vstd::prelude::*;

use crate::bytes::{byte_len, len_of};
use crate::diff::{Cell, CellView, Row, RowView};
use crate::segments::{
    cell_segments, dead_fill, dead_spans, segment_views, side_segments, CellSegment, SegmentView,
};
use crate::selection::{Pane, Selection};
use crate::state::{nonneg, AppView};
use crate::style::{
    bar, dim, hunk_band, lemma_line_views_push, lemma_span_views_push, line_views, plain,
    span_views, Color, Line, LineView, Span, SpanView, Style,
};
use crate::text::{
    chars_of, decimal, decimal_string, find_last, last_match, push_all, repeated, spaces,
    string_of,
};
use crate::ui::App;
use crate::wrap::{display_width, width_of};

verus! {

// ---------------------------------------------------------------------------
// File headers
// ---------------------------------------------------------------------------

/// What stands before the name of a file: whether its section is collapsed.
pub open spec fn marker(collapsed: bool) -> Seq<char> {
    if collapsed {
        "▸ "@
    } else {
        "▾ "@
    }
}

/// Where the last component of a path begins.
pub open spec fn base_at(title: Seq<char>) -> int {
    match last_match(title, "/"@) {
        Some(i) => i + 1,
        None => 0,
    }
}

/// A count in a file header.
pub open spec fn count_text(sign: char, n: u32) -> Seq<char> {
    (seq![sign] + decimal(n as nat)).push(' ')
}

/// The counts in a file header.
pub open spec fn count_spans(stats: Option<(u32, u32)>) -> Seq<SpanView> {
    match stats {
        Some((a, d)) => if a + d > 0 {
            seq![
                SpanView {
                    content: count_text('+', a),
                    style: Style { fg: Some(Color::Green), ..bar() },
                },
                SpanView {
                    content: count_text('-', d),
                    style: Style { fg: Some(Color::Red), ..bar() },
                },
            ]
        } else {
            seq![]
        },
        None => seq![],
    }
}

/// A file header: the marker, the directory dim and the name bold, and the counts
/// behind as many blanks as given.
pub open spec fn bar_line(
    title: Seq<char>,
    stats: Option<(u32, u32)>,
    collapsed: bool,
    padding: nat,
) -> LineView {
    let faint = Style { fg: Some(Color::DarkGray), ..bar() };
    LineView {
        style: plain(),
        spans: seq![
            SpanView { content: marker(collapsed), style: faint },
            SpanView { content: title.take(base_at(title)), style: faint },
            SpanView {
                content: title.skip(base_at(title)),
                style: Style { bold: true, ..bar() },
            },
            SpanView { content: repeated(' ', padding), style: bar() },
        ] + count_spans(stats),
    }
}

/// How many columns the counts take.
pub open spec fn counts_width(stats: Option<(u32, u32)>) -> nat {
    match stats {
        Some((a, d)) => if a + d > 0 {
            display_width(count_text('+', a)) + display_width(count_text('-', d))
        } else {
            0
        },
        None => 0,
    }
}

/// How many blanks put the counts at the right edge.
pub open spec fn bar_padding(
    title: Seq<char>,
    stats: Option<(u32, u32)>,
    collapsed: bool,
    w: nat,
) -> nat {
    nonneg(w - (display_width(marker(collapsed)) + display_width(title) + counts_width(stats)))
}

/// A count in a file header.
fn count_string(sign: char, n: u32) -> (s: String)
    ensures
        s@ == count_text(sign, n),
{
    let mut s = String::new();
    s.push(sign);
    push_all(&mut s, decimal_string(n as u128).as_str());
    s.push(' ');
    assert(s@ =~= count_text(sign, n));
    s
}

/// What stands before the name of a file.
fn marker_string(collapsed: bool) -> (s: String)
    ensures
        s@ == marker(collapsed),
{
    if collapsed {
        "▸ ".to_owned()
    } else {
        "▾ ".to_owned()
    }
}

/// A file header of `w` columns, where the marker, the title and the counts take
/// as many as given.
pub fn file_bar(
    title: &str,
    stats: Option<(u32, u32)>,
    collapsed: bool,
    w: usize,
    marker_w: usize,
    title_w: usize,
    counts_w: (usize, usize),
) -> (line: Line)
    ensures
        line@ == bar_line(
            title@,
            stats,
            collapsed,
            nonneg(w - marker_w - title_w - counts_w.0 - counts_w.1),
        ),
{
    let faint = Style { fg: Some(Color::DarkGray), ..bar() };
    let chars = chars_of(title);
    let len: usize = chars.len();
    proof {
        reveal_strlit("/");
    }
    let split: usize = match find_last(&chars, "/") {
        Some(i) => i + 1,
        None => 0,
    };
    let padding: usize = w.saturating_sub(marker_w).saturating_sub(title_w).saturating_sub(
        counts_w.0,
    ).saturating_sub(counts_w.1);
    let mut spans: Vec<Span> = Vec::new();
    spans.push(Span { content: marker_string(collapsed), style: faint });
    spans.push(Span { content: string_of(&chars, 0, split), style: faint });
    spans.push(
        Span {
            content: string_of(&chars, split, len),
            style: Style { bold: true, ..bar() },
        },
    );
    spans.push(Span { content: spaces(padding), style: bar() });
    assert(title@.subrange(0, split as int) =~= title@.take(split as int));
    assert(title@.subrange(split as int, title@.len() as int) =~= title@.skip(split as int));
    if let Some((a, d)) = stats {
        if a > 0 || d > 0 {
            spans.push(
                Span {
                    content: count_string('+', a),
                    style: Style { fg: Some(Color::Green), ..bar() },
                },
            );
            spans.push(
                Span {
                    content: count_string('-', d),
                    style: Style { fg: Some(Color::Red), ..bar() },
                },
            );
        }
    }
    assert(span_views(spans@) =~= bar_line(title@, stats, collapsed, padding as nat).spans);
    Line { style: plain(), spans }
}

/// A file header of `w` columns.
fn file_line(title: &str, stats: Option<(u32, u32)>, collapsed: bool, w: usize) -> (line: Line)
    ensures
        line@ == bar_line(
            title@,
            stats,
            collapsed,
            bar_padding(title@, stats, collapsed, w as nat),
        ),
{
    let marker_w: usize = width_of(marker_string(collapsed).as_str());
    let title_w: usize = width_of(title);
    let counts_w: (usize, usize) = match stats {
        Some((a, d)) => if a > 0 || d > 0 {
            (width_of(count_string('+', a).as_str()), width_of(count_string('-', d).as_str()))
        } else {
            (0, 0)
        },
        None => (0, 0),
    };
    file_bar(title, stats, collapsed, w, marker_w, title_w, counts_w)
}

// ---------------------------------------------------------------------------
// Rows
// ---------------------------------------------------------------------------

/// A line of one piece of text.
pub open spec fn plain_line(content: Seq<char>, style: Style) -> LineView {
    LineView { style, spans: seq![SpanView { content, style: plain() }] }
}

/// A text filled up with blanks to `w` characters.
pub open spec fn filled(text: Seq<char>, w: nat) -> Seq<char> {
    text + repeated(' ', nonneg(w - text.len()))
}

/// The divider between the panes.
pub open spec fn divider() -> SpanView {
    SpanView { content: "│"@, style: dim() }
}

/// The `i`-th line of one side; a side that is shorter is dead below its end.
pub open spec fn side_spans(segments: Seq<SegmentView>, i: int, width: nat) -> Seq<SpanView> {
    if i < segments.len() {
        segments[i].spans
    } else {
        dead_spans(width)
    }
}

/// Both sides of a row, line by line, with the divider between them.
pub open spec fn split_lines_of(
    left: Seq<SegmentView>,
    right: Seq<SegmentView>,
    left_w: nat,
    right_w: nat,
) -> Seq<LineView> {
    Seq::new(
        if left.len() < right.len() {
            right.len()
        } else {
            left.len()
        },
        |i: int|
            LineView {
                style: plain(),
                spans: side_spans(left, i, left_w).push(divider()) + side_spans(right, i, right_w),
            },
    )
}

/// The selected bytes of one side of a row.
pub open spec fn selected_in(
    selection: Option<Selection>,
    pane: Pane,
    row: nat,
    side: Option<CellView>,
) -> Option<Range<usize>> {
    match (selection, side) {
        (Some(s), Some(cell)) => s.bytes(pane, row, byte_len(cell.text)),
        _ => None,
    }
}

/// A row as lines.
pub open spec fn row_shown(
    row: RowView,
    left_w: nat,
    right_w: nat,
    gutter_w: nat,
    stats: Option<(u32, u32)>,
    selection: Option<Selection>,
    row_index: nat,
    collapsed: bool,
) -> Seq<LineView> {
    let w = left_w + 1 + right_w;
    match row {
        RowView::File(t) => seq![
            bar_line(t, stats, collapsed, bar_padding(t, stats, collapsed, w)),
        ],
        RowView::Hunk(h) => seq![plain_line(filled(h, w), hunk_band())],
        RowView::Raw(r) => seq![plain_line(r, dim())],
        RowView::Line { left, right } => split_lines_of(
            side_segments(
                left,
                left_w,
                gutter_w,
                selected_in(selection, Pane::Left, row_index, left),
            ),
            side_segments(
                right,
                right_w,
                gutter_w,
                selected_in(selection, Pane::Right, row_index, right),
            ),
            left_w,
            right_w,
        ),
    }
}

/// A line of one piece of text.
fn line_of(content: String, style: Style) -> (line: Line)
    ensures
        line@ == plain_line(content@, style),
{
    let mut spans: Vec<Span> = Vec::new();
    spans.push(Span { content, style: plain() });
    assert(span_views(spans@) =~= plain_line(content@, style).spans);
    Line { style, spans }
}

/// A line by itself.
fn one_line(line: Line) -> (lines: Vec<Line>)
    ensures
        line_views(lines@) == seq![line@],
{
    let mut lines: Vec<Line> = Vec::new();
    lines.push(line);
    assert(line_views(lines@) =~= seq![line@]);
    lines
}

/// Appends copies of spans.
fn push_spans(spans: &mut Vec<Span>, more: &Vec<Span>)
    ensures
        span_views(final(spans)@) == span_views(old(spans)@) + span_views(more@),
{
    let mut i: usize = 0;
    assert(span_views(more@).take(0) =~= Seq::<SpanView>::empty());
    assert(span_views(spans@) =~= span_views(old(spans)@) + span_views(more@).take(0));
    while i < more.len()
        invariant
            i <= more@.len(),
            span_views(spans@) == span_views(old(spans)@) + span_views(more@).take(i as int),
        decreases more@.len() - i,
    {
        let span = Span { content: more[i].content.clone(), style: more[i].style };
        let ghost before = spans@;
        proof {
            lemma_span_views_push(before, span);
            assert(span@ == span_views(more@)[i as int]);
            assert(span_views(more@).take(i + 1) =~= span_views(more@).take(i as int).push(span@));
        }
        spans.push(span);
        i += 1;
    }
    assert(span_views(more@).take(i as int) =~= span_views(more@));
}

/// Appends the `i`-th line of one side.
fn push_side(spans: &mut Vec<Span>, segments: &Vec<CellSegment>, i: usize, width: usize)
    ensures
        span_views(final(spans)@) == span_views(old(spans)@) + side_spans(
            segment_views(segments@),
            i as int,
            width as nat,
        ),
{
    if i < segments.len() {
        assert(segment_views(segments@)[i as int] == segments@[i as int]@);
        push_spans(spans, &segments[i].spans);
    } else {
        push_spans(spans, &dead_fill(width));
    }
}

/// Both sides of a row, line by line, with the divider between them.
fn split_rows(
    left: &Vec<CellSegment>,
    right: &Vec<CellSegment>,
    left_w: usize,
    right_w: usize,
) -> (lines: Vec<Line>)
    ensures
        line_views(lines@) == split_lines_of(
            segment_views(left@),
            segment_views(right@),
            left_w as nat,
            right_w as nat,
        ),
{
    let ghost all = split_lines_of(
        segment_views(left@),
        segment_views(right@),
        left_w as nat,
        right_w as nat,
    );
    let n: usize = if left.len() < right.len() {
        right.len()
    } else {
        left.len()
    };
    let mut lines: Vec<Line> = Vec::new();
    let mut i: usize = 0;
    assert(line_views(lines@) =~= all.take(0));
    while i < n
        invariant
            i <= n == all.len(),
            all == split_lines_of(
                segment_views(left@),
                segment_views(right@),
                left_w as nat,
                right_w as nat,
            ),
            line_views(lines@) == all.take(i as int),
        decreases n - i,
    {
        let mut spans: Vec<Span> = Vec::new();
        let ghost none = spans@;
        push_side(&mut spans, left, i, left_w);
        let bar = Span { content: "│".to_owned(), style: dim() };
        proof {
            lemma_span_views_push(spans@, bar);
            assert(span_views(none) + side_spans(segment_views(left@), i as int, left_w as nat)
                =~= side_spans(segment_views(left@), i as int, left_w as nat));
        }
        spans.push(bar);
        push_side(&mut spans, right, i, right_w);
        let line = Line { style: plain(), spans };
        proof {
            lemma_line_views_push(lines@, line);
            assert(line@ == all[i as int]);
            assert(all.take(i + 1) =~= all.take(i as int).push(line@));
        }
        lines.push(line);
        i += 1;
    }
    assert(all.take(i as int) =~= all);
    lines
}

/// The selected bytes of one side of a row.
fn selected_range(
    selection: Option<Selection>,
    pane: Pane,
    row: usize,
    side: &Option<Cell>,
) -> (range: Option<Range<usize>>)
    ensures
        range == selected_in(
            selection,
            pane,
            row as nat,
            match *side {
                Some(cell) => Some(cell@),
                None => None,
            },
        ),
{
    match (selection, side) {
        (Some(s), Some(cell)) => s.range_for(pane, row, len_of(cell.text.as_str())),
        _ => None,
    }
}

/// A row as lines.
pub fn render_rows(
    row: &Row,
    left_w: usize,
    right_w: usize,
    gutter_w: usize,
    stats: Option<(u32, u32)>,
    selection: Option<Selection>,
    row_index: usize,
    collapsed: bool,
) -> (lines: Vec<Line>)
    requires
        left_w + 1 + right_w <= usize::MAX,
    ensures
        line_views(lines@) == row_shown(
            row@,
            left_w as nat,
            right_w as nat,
            gutter_w as nat,
            stats,
            selection,
            row_index as nat,
            collapsed,
        ),
{
    let w: usize = left_w + 1 + right_w;
    match row {
        Row::File(t) => one_line(file_line(t.as_str(), stats, collapsed, w)),
        Row::Hunk(h) => {
            let mut text = h.clone();
            let len: usize = chars_of(h.as_str()).len();
            push_all(&mut text, spaces(w.saturating_sub(len)).as_str());
            one_line(line_of(text, hunk_band()))
        },
        Row::Raw(r) => one_line(line_of(r.clone(), dim())),
        Row::Line { left, right } => {
            let selected_left = selected_range(selection, Pane::Left, row_index, left);
            let selected_right = selected_range(selection, Pane::Right, row_index, right);
            let ls = cell_segments(left.as_ref(), left_w, gutter_w, selected_left);
            let rs = cell_segments(right.as_ref(), right_w, gutter_w, selected_right);
            split_rows(&ls, &rs, left_w, right_w)
        },
    }
}

// ---------------------------------------------------------------------------
// The screen
// ---------------------------------------------------------------------------

/// The keys, in the footer.
pub const FOOTER: &'static str = " j/k · ctrl-d/u · n/p · c collapse · g/G · = center · q";

/// What is on the screen: the rows, and below them the footer.
#[derive(Clone, Debug, PartialEq, Eq)]
pub struct Screen {
    pub body: Vec<Line>,
    pub footer: Line,
}

/// The first `n` of the lines, or all where there are fewer.
pub open spec fn cut(lines: Seq<LineView>, n: nat) -> Seq<LineView> {
    if n < lines.len() {
        lines.take(n as int)
    } else {
        lines
    }
}

impl AppView {
    /// The counts of the section whose header is a row.
    pub open spec fn stats_at(self, row: int) -> Option<(u32, u32)> {
        if self.stats.contains_key(row as usize) {
            Some(self.stats[row as usize])
        } else {
            None
        }
    }

    /// A row as lines of the screen.
    pub open spec fn lines_of_row(self, row: int, width: nat) -> Seq<LineView> {
        let (left_w, right_w) = self.widths(width);
        row_shown(
            self.rows[row],
            left_w,
            right_w,
            self.gutter_w as nat,
            self.stats_at(row),
            self.selection,
            row as nat,
            self.header_is_collapsed(row),
        )
    }

    /// The visible rows from a row on, as lines.
    pub open spec fn lines_from(self, row: int, width: nat) -> Seq<LineView>
        decreases self.rows.len() - row,
    {
        if row >= self.rows.len() {
            seq![]
        } else if self.visible(row) {
            self.lines_of_row(row, width) + self.lines_from(row + 1, width)
        } else {
            self.lines_from(row + 1, width)
        }
    }

    /// What is above the footer: the sticky header, and the rows from the scroll
    /// position on, as far as there is room.
    pub open spec fn body(self, width: nat, height: nat) -> Seq<LineView> {
        let top = match self.sticky(self.scroll as int) {
            Some(header) => self.lines_of_row(header as int, width),
            None => seq![],
        };
        cut(top + self.lines_from(self.scroll as int, width), nonneg(height - 1))
    }

    /// The footer: a message, or the keys.
    pub open spec fn footer(self) -> LineView {
        match self.status {
            Some((text, style)) => plain_line(text, style),
            None => plain_line(FOOTER@, dim()),
        }
    }
}

/// Appending lines appends their contents.
proof fn lemma_line_views_add(a: Seq<Line>, b: Seq<Line>)
    ensures
        line_views(a + b) == line_views(a) + line_views(b),
{
    assert(line_views(a + b) =~= line_views(a) + line_views(b));
}

impl App {
    /// A row as lines of the screen.
    fn render_row(&self, row: usize, width: usize) -> (lines: Vec<Line>)
        requires
            self.wf(),
            row < self.rows@.len(),
        ensures
            line_views(lines@) == self@.lines_of_row(row as int, width as nat),
    {
        broadcast use vstd::std_specs::hash::group_hash_axioms;

        let (left_w, right_w) = self.pane_widths(width);
        let stats = match self.stats.get(&row) {
            Some(counts) => Some(*counts),
            None => None,
        };
        assert(self@.rows[row as int] == self.rows@[row as int]@);
        render_rows(
            &self.rows[row],
            left_w,
            right_w,
            self.gutter_w,
            stats,
            self.selection,
            row,
            self.header_collapsed(row),
        )
    }

    /// What is on a screen of the given size; nothing where it has no lines.
    pub fn screen(&self, width: usize, height: usize) -> (screen: Option<Screen>)
        requires
            self.wf(),
        ensures
            screen is None <==> height == 0,
            screen matches Some(s) ==> line_views(s.body@) == self@.body(
                width as nat,
                height as nat,
            ) && s.footer@ == self@.footer(),
    {
        if height == 0 {
            return None;
        }
        let body_h: usize = height - 1;
        let ghost app = self@;
        let ghost top = match app.sticky(app.scroll as int) {
            Some(header) => app.lines_of_row(header as int, width as nat),
            None => seq![],
        };
        let ghost all = top + app.lines_from(app.scroll as int, width as nat);
        let mut body: Vec<Line> = match self.sticky_header() {
            Some(header) => self.render_row(header, width),
            None => Vec::new(),
        };
        assert(line_views(body@) =~= top);
        let mut row: usize = self.scroll;
        while row < self.rows.len() && body.len() < body_h
            invariant
                self.wf(),
                app == self@,
                all == line_views(body@) + app.lines_from(row as int, width as nat),
            decreases self.rows@.len() - row,
        {
            if self.row_visible(row) {
                let mut lines = self.render_row(row, width);
                proof {
                    lemma_line_views_add(body@, lines@);
                    assert(line_views(body@) + (line_views(lines@) + app.lines_from(
                        row + 1,
                        width as nat,
                    )) =~= line_views(body@) + line_views(lines@) + app.lines_from(
                        row + 1,
                        width as nat,
                    ));
                }
                body.append(&mut lines);
            }
            row += 1;
        }
        let ghost before = body@;
        if body.len() > body_h {
            body.truncate(body_h);
        }
        assert(line_views(body@) =~= cut(all, body_h as nat));
        let footer = match &self.status {
            Some((text, style)) => line_of(text.clone(), *style),
            None => line_of(FOOTER.to_owned(), dim()),
        };
        Some(Screen { body, footer })
    }
}

} // verus!
