//! What holds of whole rows on the screen, and of the glyphs under the mouse.

use std::ops::Range;

use vstd::prelude::*;

use crate::diff::{CellView, RowView};
use crate::copying::is_collapsed_away;
use crate::drawing::{
    drawn_cols, gutter_cols, is_counted, lemma_counted_lines, lemma_drawn, lemma_span_text,
    lemma_spans_text_add, lines_in_pane,
};
use crate::ui::lemma_section_of;
use crate::viewing::{lemma_row_lines, lemma_sticky};
use crate::render::{
    base_at, count_spans, count_text, divider, row_shown, selected_in, side_spans, FOOTER,
};
use crate::sections::largest_no;
use crate::segments::{
    law_glyphs_lie_side_by_side, side_segments, spans_text, Look, VisualGlyph,
};
use crate::selection::{Pane, Selection};
use crate::state::{first_over, glyph_at, AppView};
use crate::style::{dead, Color, LineView, SpanView};
use crate::text::{decimal, lemma_last_match, matches_at, repeated};
use crate::wrap::{display_width, hang, line_start, pieces_of, total_cols, wrapped, PieceView};

verus! {

// ---------------------------------------------------------------------------
// Rows
// ---------------------------------------------------------------------------

/// What one side of a row reads on its `i`-th line: blanks where it has none.
pub open spec fn side_text(
    side: Option<CellView>,
    width: nat,
    gutter_w: nat,
    selected: Option<Range<usize>>,
    i: int,
) -> Seq<char> {
    let segments = side_segments(side, width, gutter_w, selected);
    if side is Some && i < segments.len() {
        spans_text(segments[i].spans)
    } else {
        repeated(' ', width)
    }
}

/// Both sides of a row stand beside each other, line by line, with the divider between
/// them; the row has as many lines as the taller side. Where a side is absent, or over,
/// its pane is blank in its whole width.
pub proof fn law_sides_stand_beside_the_divider(
    left: Option<CellView>,
    right: Option<CellView>,
    widths: (nat, nat),
    gutter_w: nat,
    stats: Option<(u32, u32)>,
    selection: Option<Selection>,
    row: nat,
    i: int,
)
    ensures
        ({
            let chosen_l = selected_in(selection, Pane::Left, row, left);
            let chosen_r = selected_in(selection, Pane::Right, row, right);
            let l = side_segments(left, widths.0, gutter_w, chosen_l).len();
            let r = side_segments(right, widths.1, gutter_w, chosen_r).len();
            let lines = row_shown(
                RowView::Line { left, right },
                widths.0,
                widths.1,
                gutter_w,
                stats,
                selection,
                row,
                false,
            );
            &&& lines.len() >= l && lines.len() >= r && (lines.len() == l || lines.len() == r)
            &&& 0 <= i < lines.len() ==> spans_text(lines[i].spans) == side_text(
                left,
                widths.0,
                gutter_w,
                chosen_l,
                i,
            ) + seq!['│'] + side_text(right, widths.1, gutter_w, chosen_r, i)
        }),
{
    let chosen_l = selected_in(selection, Pane::Left, row, left);
    let chosen_r = selected_in(selection, Pane::Right, row, right);
    let lines = row_shown(
        RowView::Line { left, right },
        widths.0,
        widths.1,
        gutter_w,
        stats,
        selection,
        row,
        false,
    );
    if 0 <= i < lines.len() {
        let a = side_spans(
            side_segments(left, widths.0, gutter_w, chosen_l),
            i,
            widths.0,
        );
        let b = side_spans(
            side_segments(right, widths.1, gutter_w, chosen_r),
            i,
            widths.1,
        );
        let bar = divider();
        reveal_strlit("│");
        assert("│"@ =~= seq!['│']);
        lemma_span_text(bar);
        lemma_spans_text_add(a, seq![bar]);
        assert(a.push(bar) =~= a + seq![bar]);
        lemma_spans_text_add(a.push(bar), b);
        lemma_span_text(SpanView { content: repeated(' ', widths.0), style: dead() });
        lemma_span_text(SpanView { content: repeated(' ', widths.1), style: dead() });
    }
}

/// A hunk header is shown as it is, on a band of the whole width of the screen; a line
/// that is not understood is shown as it is, without one.
pub proof fn law_headers_and_asides_are_shown_verbatim(
    text: Seq<char>,
    widths: (nat, nat),
    gutter_w: nat,
    stats: Option<(u32, u32)>,
    selection: Option<Selection>,
    row: nat,
    collapsed: bool,
)
    ensures
        ({
            let w = widths.0 + 1 + widths.1;
            let hunk = row_shown(
                RowView::Hunk(text),
                widths.0,
                widths.1,
                gutter_w,
                stats,
                selection,
                row,
                collapsed,
            );
            let raw = row_shown(
                RowView::Raw(text),
                widths.0,
                widths.1,
                gutter_w,
                stats,
                selection,
                row,
                collapsed,
            );
            let band = spans_text(hunk[0].spans);
            &&& hunk.len() == 1 && raw.len() == 1
            &&& band.len() >= w && (text.len() <= w ==> band.len() == w)
            &&& text.len() <= band.len() && band.take(text.len() as int) == text
            &&& forall|i: int| text.len() <= i < band.len() ==> #[trigger] band[i] == ' '
            &&& text.len() >= w ==> band == text
            &&& spans_text(raw[0].spans) == text
            &&& hunk[0].style.bg is Some && raw[0].style.bg is None
            &&& raw[0].style.fg == Some(Color::DarkGray)
        }),
{
    let w = widths.0 + 1 + widths.1;
    let hunk = row_shown(
        RowView::Hunk(text),
        widths.0,
        widths.1,
        gutter_w,
        stats,
        selection,
        row,
        collapsed,
    );
    let raw = row_shown(
        RowView::Raw(text),
        widths.0,
        widths.1,
        gutter_w,
        stats,
        selection,
        row,
        collapsed,
    );
    lemma_span_text(hunk[0].spans[0]);
    lemma_span_text(raw[0].spans[0]);
    assert(hunk[0].spans =~= seq![hunk[0].spans[0]]);
    assert(raw[0].spans =~= seq![raw[0].spans[0]]);
    let band = spans_text(hunk[0].spans);
    assert(band.take(text.len() as int) =~= text);
    if text.len() >= w {
        assert(band =~= text);
    }
}

/// What stands at the right of a file's header bar: how many lines it adds and how many
/// it deletes, unless it does neither.
pub open spec fn counts_shown(stats: Option<(u32, u32)>) -> Seq<char> {
    match stats {
        Some((a, d)) => if a == 0 && d == 0 {
            seq![]
        } else {
            seq!['+'] + decimal(a as nat) + seq![' ', '-'] + decimal(d as nat) + seq![' ']
        },
        None => seq![],
    }
}

/// A file's header bar reads, from left to right: whether the file is open or collapsed,
/// its title, and its counts at the right edge. Marker, title, blanks and counts take the
/// whole width where there is room. What follows the last slash of the title is bold, and
/// nothing else is. The additions are green and the deletions red.
pub proof fn law_header_bars_show_title_and_counts(
    title: Seq<char>,
    widths: (nat, nat),
    gutter_w: nat,
    stats: Option<(u32, u32)>,
    selection: Option<Selection>,
    row: nat,
    collapsed: bool,
)
    ensures
        ({
            let w = widths.0 + 1 + widths.1;
            let bar = row_shown(
                RowView::File(title),
                widths.0,
                widths.1,
                gutter_w,
                stats,
                selection,
                row,
                collapsed,
            );
            let text = spans_text(bar[0].spans);
            let mark = if collapsed {
                seq!['▸', ' ']
            } else {
                seq!['▾', ' ']
            };
            let counts = counts_shown(stats);
            let pad = text.len() - mark.len() - title.len() - counts.len();
            let taken = display_width(mark) + display_width(title) + match stats {
                Some((a, d)) => if a == 0 && d == 0 {
                    0
                } else {
                    display_width(seq!['+'] + decimal(a as nat) + seq![' ']) + display_width(
                        seq!['-'] + decimal(d as nat) + seq![' '],
                    )
                },
                None => 0,
            };
            &&& bar.len() == 1
            &&& pad >= 0
            &&& text == mark + title + repeated(' ', pad as nat) + counts
            &&& pad == if taken < w {
                w - taken
            } else {
                0
            }
            &&& forall|i: int|
                0 <= i < bar[0].spans.len() ==> (#[trigger] bar[0].spans[i]).style.bg is Some
                    && bar[0].spans[i].style.bold == (i == 2)
            &&& bar[0].spans[1].content + bar[0].spans[2].content == title
            &&& forall|i: int|
                0 <= i < bar[0].spans[2].content.len() ==> #[trigger] bar[0].spans[2].content[i]
                    != '/'
            &&& bar[0].spans[1].content.len() > 0 ==> bar[0].spans[1].content.last() == '/'
            &&& counts.len() > 0 ==> {
                let n = bar[0].spans.len() as int;
                &&& bar[0].spans[n - 2].content[0] == '+'
                &&& bar[0].spans[n - 2].style.fg == Some(Color::Green)
                &&& bar[0].spans[n - 1].content[0] == '-'
                &&& bar[0].spans[n - 1].style.fg == Some(Color::Red)
            }
        }),
{
    let bar = row_shown(
        RowView::File(title),
        widths.0,
        widths.1,
        gutter_w,
        stats,
        selection,
        row,
        collapsed,
    );
    let spans = bar[0].spans;
    reveal_strlit("▸ ");
    reveal_strlit("▾ ");
    reveal_strlit("/");
    assert("▸ "@ =~= seq!['▸', ' ']);
    assert("▾ "@ =~= seq!['▾', ' ']);
    lemma_last_match(title, "/"@, title.len() as int);
    let at = base_at(title);
    assert(title.take(at) + title.skip(at) =~= title);
    assert("/"@ =~= seq!['/']);
    if at > 0 {
        assert(title.subrange(at - 1, at)[0] == '/');
    }
    assert forall|i: int| 0 <= i < title.skip(at).len() implies #[trigger] title.skip(at)[i]
        != '/' by {
        if title[at + i] == '/' {
            assert(title.subrange(at + i, at + i + 1) =~= "/"@);
            assert(matches_at(title, "/"@, at + i));
        }
    }
    let text = spans_text(spans);
    let mark = if collapsed {
        seq!['▸', ' ']
    } else {
        seq!['▾', ' ']
    };
    let head = seq![spans[0], spans[1], spans[2], spans[3]];
    assert(spans_text(head) =~= spans[0].content + spans[1].content + spans[2].content
        + spans[3].content) by {
        lemma_four_spans(spans[0], spans[1], spans[2], spans[3]);
    }
    let tail = count_spans(stats);
    assert(spans =~= head + tail);
    lemma_spans_text_add(head, tail);
    let counts = counts_shown(stats);
    assert(spans_text(tail) =~= counts) by {
        if let Some((a, d)) = stats {
            if a + d > 0 {
                let first = tail[0];
                let second = tail[1];
                assert(tail =~= seq![first] + seq![second]);
                lemma_spans_text_add(seq![first], seq![second]);
                lemma_span_text(first);
                lemma_span_text(second);
            }
        }
    }
    let pad = text.len() - mark.len() - title.len() - counts.len();
    assert(text =~= mark + title + repeated(' ', pad as nat) + counts);
    if let Some((a, d)) = stats {
        assert(count_text('+', a) =~= seq!['+'] + decimal(a as nat) + seq![' ']);
        assert(count_text('-', d) =~= seq!['-'] + decimal(d as nat) + seq![' ']);
    }
}

/// The text of four spans.
proof fn lemma_four_spans(a: SpanView, b: SpanView, c: SpanView, d: SpanView)
    ensures
        spans_text(seq![a, b, c, d]) == a.content + b.content + c.content + d.content,
{
    lemma_span_text(a);
    lemma_span_text(b);
    lemma_span_text(c);
    lemma_span_text(d);
    lemma_spans_text_add(seq![a], seq![b]);
    lemma_spans_text_add(seq![a] + seq![b], seq![c]);
    lemma_spans_text_add(seq![a] + seq![b] + seq![c], seq![d]);
    assert(seq![a, b, c, d] =~= seq![a] + seq![b] + seq![c] + seq![d]);
}

// ---------------------------------------------------------------------------
// The mouse
// ---------------------------------------------------------------------------

/// Whether a glyph covers the columns from `from` up to `to`, and stands for the bytes of
/// a piece, and maybe for what has no columns behind it.
pub open spec fn covers(glyph: VisualGlyph, from: nat, to: nat, p: PieceView) -> bool {
    &&& glyph.columns.start == from
    &&& glyph.columns.end == to
    &&& glyph.bytes.start == p.start
    &&& glyph.bytes.end >= p.end
}

/// Whether some glyph does.
pub open spec fn some_covers(glyphs: Seq<VisualGlyph>, from: nat, to: nat, p: PieceView) -> bool {
    exists|m: int| 0 <= m < glyphs.len() && covers(#[trigger] glyphs[m], from, to, p)
}

/// Every piece with columns has a glyph over them.
proof fn lemma_glyph_of(look: Look, line: Seq<PieceView>, start: nat, j: int)
    requires
        0 <= j < line.len(),
        line[j].cols > 0,
        look.gutter + start + total_cols(line) <= usize::MAX,
        forall|i: int|
            0 <= i < line.len() ==> (#[trigger] line[i]).start <= line[i].end <= usize::MAX,
        forall|i: int, l: int|
            0 <= i < l < line.len() ==> (#[trigger] line[i]).end <= (#[trigger] line[l]).start,
    ensures
        some_covers(
            look.glyphs(line, start),
            look.gutter + start + total_cols(line.take(j)),
            look.gutter + start + total_cols(line.take(j)) + line[j].cols,
            line[j],
        ),
    decreases line.len(),
{
    let front = line.drop_last();
    let before = look.glyphs(front, start);
    let glyphs = look.glyphs(line, start);
    let from = look.gutter + start + total_cols(line.take(j));
    let to = from + line[j].cols;
    let p = line[j];
    if j == line.len() - 1 {
        assert(line.take(j) =~= front);
        assert(covers(glyphs[glyphs.len() - 1], from, to, p));
    } else {
        assert(front.take(j) =~= line.take(j));
        assert(front[j] == line[j]);
        assert forall|i: int, l: int| 0 <= i < l < front.len() implies (#[trigger] front[i]).end
            <= (#[trigger] front[l]).start by {
            assert(line[i].end <= line[l].start);
        }
        assert forall|i: int| 0 <= i < front.len() implies (#[trigger] front[i]).start
            <= front[i].end <= usize::MAX by {
            assert(line[i].start <= line[i].end);
        }
        lemma_glyph_of(look, front, start, j);
        let m = choose|m: int| 0 <= m < before.len() && covers(#[trigger] before[m], from, to, p);
        let last = line[line.len() - 1];
        assert(line[j].end <= last.start <= last.end);
        assert(covers(glyphs[m], from, to, p));
    }
}

/// The glyph over a column is the first one.
proof fn lemma_first_over(glyphs: Seq<VisualGlyph>, x: nat, m: int)
    requires
        0 <= m < glyphs.len(),
        glyphs[m].columns.start <= x < glyphs[m].columns.end,
        forall|i: int, l: int|
            0 <= i < l < glyphs.len() ==> (#[trigger] glyphs[i]).columns.end <= (
            #[trigger] glyphs[l]).columns.start,
    ensures
        first_over(glyphs, x) == Some(glyphs[m]),
    decreases glyphs.len(),
{
    if m > 0 {
        let rest = glyphs.drop_first();
        assert(glyphs[0].columns.end <= glyphs[m].columns.start);
        assert(rest[m - 1] == glyphs[m]);
        assert forall|i: int, l: int| 0 <= i < l < rest.len() implies (
        #[trigger] rest[i]).columns.end <= (#[trigger] rest[l]).columns.start by {
            assert(glyphs[i + 1].columns.end <= glyphs[l + 1].columns.start);
        }
        lemma_first_over(rest, x, m - 1);
    }
}

/// The column of its pane at which a cluster is drawn, on the `k`-th line.
pub open spec fn column_of(cell: CellView, width: nat, gutter_w: nat, k: int, j: int) -> nat {
    let g = gutter_cols(width, gutter_w);
    let line = lines_in_pane(cell, width, gutter_w)[k];
    g + drawn_cols(line.take(j)) + if k == 0 {
        0
    } else {
        hang(pieces_of(cell.text), (width - g) as nat)
    }
}

/// Whether pieces of a text lie in order and end where a byte offset can be held.
pub open spec fn pieces_held(line: Seq<PieceView>) -> bool {
    &&& forall|i: int|
        0 <= i < line.len() ==> (#[trigger] line[i]).start <= line[i].end <= usize::MAX
    &&& forall|i: int, l: int|
        0 <= i < l < line.len() ==> (#[trigger] line[i]).end <= (#[trigger] line[l]).start
}

/// A column of a pane belongs to the cluster that is drawn over it: what is found there
/// begins with the first byte of the cluster and reaches at least to its last.
pub proof fn law_columns_belong_to_what_is_drawn_there(
    cell: CellView,
    width: nat,
    gutter_w: nat,
    k: int,
    j: int,
    x: nat,
)
    requires
        0 <= k < side_segments(Some(cell), width, gutter_w, None).len(),
        0 <= j < lines_in_pane(cell, width, gutter_w)[k].len(),
        pieces_held(lines_in_pane(cell, width, gutter_w)[k]),
        column_of(cell, width, gutter_w, k, lines_in_pane(cell, width, gutter_w)[k].len() as int)
            <= usize::MAX,
        column_of(cell, width, gutter_w, k, j) <= x < column_of(cell, width, gutter_w, k, j + 1),
    ensures
        ({
            let p = lines_in_pane(cell, width, gutter_w)[k][j];
            let found = glyph_at(side_segments(Some(cell), width, gutter_w, None)[k].glyphs, x);
            found matches Some(glyph) && glyph.bytes.start == p.start && glyph.bytes.end >= p.end
        }),
{
    let pieces = pieces_of(cell.text);
    let look = Look::of(cell, pieces, width, gutter_w, None);
    let lines = wrapped(pieces, look.budget, look.indent);
    let line = lines[k];
    let start = line_start(k, look.indent);
    let glyphs = look.glyphs(line, start);
    let p = line[j];
    lemma_counted_lines(pieces, look.budget, look.indent);
    assert(lines == lines_in_pane(cell, width, gutter_w));
    assert forall|n: int| 0 <= n <= line.len() implies total_cols(#[trigger] line.take(n))
        == drawn_cols(line.take(n)) by {
        assert forall|i: int| 0 <= i < line.take(n).len() implies is_counted(
            #[trigger] line.take(n)[i],
        ) by {
            assert(line.take(n)[i] == lines[k][i]);
        }
        lemma_drawn(line.take(n));
    }
    assert(line.take(line.len() as int) =~= line);
    assert(line.take(j + 1).drop_last() =~= line.take(j));
    assert(total_cols(line.take(j + 1)) == total_cols(line.take(j)) + p.cols);
    lemma_glyph_of(look, line, start, j);
    law_glyphs_lie_side_by_side(look, line, start);
    let from = look.gutter + start + total_cols(line.take(j));
    let m = choose|m: int|
        0 <= m < glyphs.len() && covers(#[trigger] glyphs[m], from, from + p.cols, p);
    assert(covers(glyphs[m], from, from + p.cols, p));
    lemma_first_over(glyphs, x, m);
}

/// A click on a cluster of a pane hits the row and the bytes of that cluster.
pub proof fn law_the_mouse_hits_the_cluster_under_it(
    app: AppView,
    pane: Pane,
    place: (nat, nat),
    width: nat,
    height: nat,
    j: int,
)
    requires
        app.on_screen(place.1, width, height) is Some,
        ({
            let at = app.on_screen(place.1, width, height)->0;
            let gutter_w = app.gutter_w as nat;
            let k = at.segment as int;
            let (left_w, right_w) = app.widths(width);
            app.rows[at.source as int] matches RowView::Line { left, right } && match pane {
                Pane::Left => left matches Some(cell) && k < side_segments(
                    left,
                    left_w,
                    gutter_w,
                    None,
                ).len() && 0 <= j < lines_in_pane(cell, left_w, gutter_w)[k].len() && pieces_held(
                    lines_in_pane(cell, left_w, gutter_w)[k],
                ) && column_of(
                    cell,
                    left_w,
                    gutter_w,
                    k,
                    lines_in_pane(cell, left_w, gutter_w)[k].len() as int,
                ) <= left_w <= usize::MAX && column_of(cell, left_w, gutter_w, k, j) <= place.0
                    < column_of(cell, left_w, gutter_w, k, j + 1) && place.0 < left_w,
                Pane::Right => right matches Some(cell) && k < side_segments(
                    right,
                    right_w,
                    gutter_w,
                    None,
                ).len() && 0 <= j < lines_in_pane(cell, right_w, gutter_w)[k].len() && pieces_held(
                    lines_in_pane(cell, right_w, gutter_w)[k],
                ) && column_of(
                    cell,
                    right_w,
                    gutter_w,
                    k,
                    lines_in_pane(cell, right_w, gutter_w)[k].len() as int,
                ) <= right_w <= usize::MAX && left_w + 1 + column_of(cell, right_w, gutter_w, k, j)
                    <= place.0 < left_w + 1 + column_of(cell, right_w, gutter_w, k, j + 1)
                    && place.0 < left_w + 1 + right_w,
            }
        }),
    ensures
        ({
            let at = app.on_screen(place.1, width, height)->0;
            let gutter_w = app.gutter_w as nat;
            let k = at.segment as int;
            let (left_w, right_w) = app.widths(width);
            let hit = app.hit_at(pane, place.0, place.1, width, height);
            let p = match pane {
                Pane::Left => lines_in_pane(
                    app.rows[at.source as int]->left->0,
                    left_w,
                    gutter_w,
                )[k][j],
                Pane::Right => lines_in_pane(
                    app.rows[at.source as int]->right->0,
                    right_w,
                    gutter_w,
                )[k][j],
            };
            hit matches Some(h) && h.row == at.source && h.start == p.start && h.end >= p.end
        }),
{
    let at = app.on_screen(place.1, width, height)->0;
    let gutter_w = app.gutter_w as nat;
    let k = at.segment as int;
    let (left_w, right_w) = app.widths(width);
    match pane {
        Pane::Left => {
            let cell = app.rows[at.source as int]->left->0;
            law_columns_belong_to_what_is_drawn_there(cell, left_w, gutter_w, k, j, place.0);
        },
        Pane::Right => {
            let cell = app.rows[at.source as int]->right->0;
            let col = (place.0 - left_w - 1) as nat;
            law_columns_belong_to_what_is_drawn_there(cell, right_w, gutter_w, k, j, col);
        },
    }
}

// ---------------------------------------------------------------------------
// The screen
// ---------------------------------------------------------------------------

/// How many lines the rows from `from` up to `to` take that are not hidden.
pub open spec fn lines_above(app: AppView, from: int, to: int, width: nat) -> nat
    decreases to - from,
{
    if from >= to {
        0
    } else {
        lines_above(app, from, to - 1, width) + if is_collapsed_away(app, to - 1) {
            0
        } else {
            app.lines_of_row(to - 1, width).len()
        }
    }
}

/// A row is visible unless its section is collapsed.
proof fn lemma_visible(app: AppView, row: int)
    ensures
        app.visible(row) == !is_collapsed_away(app, row),
{
    if is_collapsed_away(app, row) {
        let i = choose|i: int|
            0 <= i < app.sections.len() && (#[trigger] app.sections[i]).collapsed
                && app.sections[i].header < row < app.sections[i].body.end;
        assert(app.sections[i].hides(row));
    }
}

/// The lines from a row on begin with those of the rows up to another one.
proof fn lemma_lines_from(app: AppView, from: int, row: int, width: nat)
    requires
        0 <= from <= row <= app.rows.len(),
    ensures
        ({
            let all = app.lines_from(from, width);
            let n = lines_above(app, from, row, width) as int;
            n <= all.len() && all.skip(n) == app.lines_from(row, width)
        }),
    decreases row - from,
{
    let all = app.lines_from(from, width);
    if from == row {
        assert(all.skip(0) =~= all);
    } else {
        lemma_lines_from(app, from, row - 1, width);
        lemma_visible(app, row - 1);
        let before = lines_above(app, from, row - 1, width) as int;
        let n = lines_above(app, from, row, width) as int;
        let tail = app.lines_from(row - 1, width);
        assert(tail.len() == all.len() - before);
        if app.visible(row - 1) {
            let here = app.lines_of_row(row - 1, width);
            assert(tail == here + app.lines_from(row, width));
            assert(tail.skip(here.len() as int) =~= app.lines_from(row, width));
            assert(all.skip(n) =~= tail.skip(here.len() as int));
        }
    }
}

/// A line of a row stands below those of the rows above it.
proof fn lemma_line_at(app: AppView, from: int, row: int, line: int, width: nat)
    requires
        0 <= from <= row < app.rows.len(),
        !is_collapsed_away(app, row),
        0 <= line < app.lines_of_row(row, width).len(),
    ensures
        ({
            let y = lines_above(app, from, row, width) + line;
            let all = app.lines_from(from, width);
            y < all.len() && all[y] == app.lines_of_row(row, width)[line]
        }),
{
    let all = app.lines_from(from, width);
    let above = lines_above(app, from, row, width);
    let here = app.lines_of_row(row, width);
    lemma_lines_from(app, from, row, width);
    lemma_visible(app, row);
    let tail = all.skip(above as int);
    assert(tail == here + app.lines_from(row + 1, width));
    assert(tail.len() == all.len() - above);
    assert(tail[line] == here[line]);
    assert(tail[line] == all[above + line]);
}

/// Above the footer stand, from the scroll position on, the rows that are not hidden, in
/// order and each with all its lines, as far as there is room. Where the scroll position
/// is inside the body of an open section, the header of that section stands above them.
pub proof fn law_the_screen_shows_rows_in_order(
    app: AppView,
    row: int,
    line: int,
    width: nat,
    height: nat,
)
    requires
        app.wf(),
        app.scroll <= row < app.rows.len(),
        !is_collapsed_away(app, row),
        0 <= line < app.lines_of_row(row, width).len(),
    ensures
        ({
            let y = lines_above(app, app.scroll as int, row, width) + line;
            let body = app.body(width, height);
            &&& forall|i: int|
                #![trigger app.sections[i]]
                0 <= i < app.sections.len() && !app.sections[i].collapsed && app.sections[i].header
                    < app.scroll < app.sections[i].body.end ==> {
                    &&& height > 1 ==> body.len() > 0 && body[0] == app.lines_of_row(
                        app.sections[i].header as int,
                        width,
                    )[0]
                    &&& y + 2 < height ==> y + 1 < body.len() && body[y + 1] == app.lines_of_row(
                        row,
                        width,
                    )[line]
                }
            &&& (forall|i: int|
                0 <= i < app.sections.len() ==> !((#[trigger] app.sections[i]).header < app.scroll
                    < app.sections[i].body.end) || app.sections[i].collapsed) ==> (y + 1 < height
                ==> y < body.len() && body[y as int] == app.lines_of_row(row, width)[line])
        }),
{
    let top = app.scroll as int;
    let rest = app.lines_from(top, width);
    let above = lines_above(app, top, row, width);
    let y = above + line;
    let here = app.lines_of_row(row, width);
    lemma_line_at(app, top, row, line, width);
    let body = app.body(width, height);
    assert forall|i: int|
        #![trigger app.sections[i]]
        0 <= i < app.sections.len() && !app.sections[i].collapsed && app.sections[i].header
            < app.scroll < app.sections[i].body.end implies {
        &&& height > 1 ==> body.len() > 0 && body[0] == app.lines_of_row(
            app.sections[i].header as int,
            width,
        )[0]
        &&& y + 2 < height ==> y + 1 < body.len() && body[y + 1] == here[line]
    } by {
        assert(app.sections[i].holds(top));
        lemma_section_of(app, i, top);
        lemma_sticky(app, top, width);
        let header = app.lines_of_row(app.sections[i].header as int, width);
        assert((header + rest)[y + 1] == rest[y as int]);
    }
    if forall|i: int|
        0 <= i < app.sections.len() ==> !((#[trigger] app.sections[i]).header < app.scroll
            < app.sections[i].body.end) || app.sections[i].collapsed {
        assert(app.sticky(top) is None) by {
            if let Some(i) = app.section_of(top) {
                assert(0 <= i < app.sections.len() && app.sections[i].holds(top));
            }
        }
        assert(Seq::<LineView>::empty() + rest =~= rest);
    }
}

/// What a state looks like where everything from the row at the top on fits: the rows
/// from there on, with the header that stays above them, take no more lines than there
/// are above the footer, so that nothing is cut off.
pub proof fn law_what_fits_is_shown_whole(app: AppView, width: nat, height: nat)
    requires
        app.wf(),
        app.scroll < app.rows.len(),
    ensures
        ({
            let rest = lines_above(app, app.scroll as int, app.rows.len() as int, width);
            let top: nat = if app.sticky(app.scroll as int) is Some {
                1
            } else {
                0
            };
            &&& app.tail_fits(app.scroll as int, width, height) <==> rest + top <= height - 1 || (
            rest == 0 && height <= 1 + top)
            &&& app.tail_fits(app.scroll as int, width, height) && height > 1 ==> app.body(
                width,
                height,
            ).len() == rest + top
        }),
{
    let row = app.scroll as int;
    let n = app.rows.len() as int;
    lemma_lines_from(app, row, n, width);
    lemma_tail_lines(app, row, width);
    assert(app.lines_from(n, width).len() == 0);
    if app.sticky(row) is Some {
        lemma_sticky(app, row, width);
    }
}

/// The lines that are counted are those that are drawn.
proof fn lemma_tail_lines(app: AppView, row: int, width: nat)
    ensures
        app.tail_lines(row, width) == app.lines_from(row, width).len(),
    decreases app.rows.len() - row,
{
    if row < app.rows.len() {
        lemma_tail_lines(app, row + 1, width);
        lemma_row_lines(app, row, width);
    }
}

/// The footer is the message, where there is one, success and failure told apart by their
/// colour; otherwise it is the keys.
pub proof fn law_the_footer_tells(app: AppView, text: Seq<char>)
    ensures
        spans_text(app.with_status(text).footer().spans) == text,
        spans_text(app.with_error(text).footer().spans) == text,
        spans_text(app.without_status().footer().spans) == FOOTER@,
        app.with_status(text).footer().style.fg matches Some(Color::Rgb(r, g, b)) && b > r && b > g,
        app.with_error(text).footer().style.fg matches Some(Color::Rgb(r, g, b)) && r > g && r > b,
        app.without_status().footer().style.fg == Some(Color::DarkGray),
{
    lemma_span_text(app.with_status(text).footer().spans[0]);
    lemma_span_text(app.with_error(text).footer().spans[0]);
    lemma_span_text(app.without_status().footer().spans[0]);
    assert(app.with_status(text).footer().spans =~= seq![
        app.with_status(text).footer().spans[0],
    ]);
}

// ---------------------------------------------------------------------------
// Edges
// ---------------------------------------------------------------------------

/// A column before the first glyph of a line belongs to that glyph, and one behind the
/// last to the last; a line without glyphs has none at any column.
pub proof fn law_edges_belong_to_the_outer_glyphs(
    look: Look,
    line: Seq<PieceView>,
    start: nat,
    x: nat,
)
    requires
        look.gutter + start + total_cols(line) <= usize::MAX,
    ensures
        ({
            let glyphs = look.glyphs(line, start);
            &&& glyphs.len() == 0 ==> glyph_at(glyphs, x) is None
            &&& glyphs.len() > 0 && x < look.gutter + start ==> glyph_at(glyphs, x) == Some(
                glyphs[0],
            )
            &&& glyphs.len() > 0 && x >= look.gutter + start + total_cols(line) ==> glyph_at(
                glyphs,
                x,
            ) == Some(glyphs.last())
        }),
{
    let glyphs = look.glyphs(line, start);
    law_glyphs_lie_side_by_side(look, line, start);
    if x < look.gutter + start || x >= look.gutter + start + total_cols(line) {
        assert forall|i: int| 0 <= i < glyphs.len() implies !((#[trigger] glyphs[i]).columns.start
            <= x < glyphs[i].columns.end) by {}
        lemma_none_over(glyphs, x);
    }
}

/// Where no glyph is over a column, none is found.
proof fn lemma_none_over(glyphs: Seq<VisualGlyph>, x: nat)
    requires
        forall|i: int|
            0 <= i < glyphs.len() ==> !((#[trigger] glyphs[i]).columns.start <= x
                < glyphs[i].columns.end),
    ensures
        first_over(glyphs, x) is None,
    decreases glyphs.len(),
{
    if glyphs.len() > 0 {
        let rest = glyphs.drop_first();
        assert forall|i: int| 0 <= i < rest.len() implies !((#[trigger] rest[i]).columns.start <= x
            < rest[i].columns.end) by {
            assert(rest[i] == glyphs[i + 1]);
        }
        lemma_none_over(rest, x);
    }
}

/// Where a side of a row is absent, or over while the other goes on, the mouse hits
/// nothing; nor does it on headers, on asides, on the footer and below the last row.
pub proof fn law_where_nothing_is_drawn_nothing_is_hit(
    app: AppView,
    pane: Pane,
    x: nat,
    y: nat,
    width: nat,
    height: nat,
)
    requires
        match app.on_screen(y, width, height) {
            Some(at) => match app.rows[at.source as int] {
                RowView::Line { left, right } => {
                    let (side, w) = match pane {
                        Pane::Left => (left, app.widths(width).0),
                        Pane::Right => (right, app.widths(width).1),
                    };
                    side is None || at.segment >= side_segments(
                        side,
                        w,
                        app.gutter_w as nat,
                        None,
                    ).len()
                },
                _ => true,
            },
            None => true,
        } || y + 1 >= height,
    ensures
        app.hit_at(pane, x, y, width, height) is None,
{
}

/// A drag that leaves its pane goes on at the edge that it left it by.
pub proof fn law_drags_stop_at_the_edge_of_the_pane(
    app: AppView,
    x: nat,
    y: nat,
    width: nat,
    height: nat,
)
    ensures
        ({
            let (left_w, right_w) = app.widths(width);
            &&& left_w > 0 && x >= left_w ==> app.hit_at(Pane::Left, x, y, width, height)
                == app.hit_at(Pane::Left, (left_w - 1) as nat, y, width, height)
            &&& right_w > 0 && x <= left_w ==> app.hit_at(Pane::Right, x, y, width, height)
                == app.hit_at(Pane::Right, left_w + 1, y, width, height)
            &&& right_w > 0 && x > left_w + right_w ==> app.hit_at(Pane::Right, x, y, width, height)
                == app.hit_at(Pane::Right, left_w + right_w, y, width, height)
        }),
{
}

// ---------------------------------------------------------------------------
// The gutters
// ---------------------------------------------------------------------------

/// Whether a row shows a line with a number.
pub open spec fn has_number(row: RowView, no: u32) -> bool {
    row matches RowView::Line { left, right } && ((left matches Some(l) && l.no == no) || (
    right matches Some(r) && r.no == no))
}

/// A larger number has no fewer digits.
proof fn lemma_more_digits(n: nat, m: nat)
    requires
        n <= m,
    ensures
        decimal(n).len() <= decimal(m).len(),
        decimal(n).len() > 0,
    decreases m,
{
    if m >= 10 && n >= 10 {
        lemma_more_digits(n / 10, m / 10);
    }
}

/// The largest number is one of those shown, and none is larger.
proof fn lemma_largest(rows: Seq<RowView>, n: int)
    requires
        0 <= n <= rows.len(),
    ensures
        forall|i: int, no: u32|
            0 <= i < n && #[trigger] has_number(rows[i], no) ==> no <= largest_no(rows, n),
        largest_no(rows, n) > 0 ==> exists|i: int|
            0 <= i < n && #[trigger] has_number(rows[i], largest_no(rows, n)),
    decreases n,
{
    if n > 0 {
        lemma_largest(rows, n - 1);
        let before = largest_no(rows, n - 1);
        let now = largest_no(rows, n);
        if now > 0 {
            if now == before {
                let i = choose|i: int| 0 <= i < n - 1 && #[trigger] has_number(rows[i], before);
                assert(has_number(rows[i], now));
            } else {
                assert(has_number(rows[n - 1], now));
            }
        }
    }
}

/// When a diff is first shown, the gutters hold every line number of it in full and a
/// blank behind it, and four digits at least; they are no wider than that takes.
pub proof fn law_gutters_hold_every_number(rows: Seq<RowView>, i: int, no: u32)
    requires
        0 <= i < rows.len(),
        has_number(rows[i], no),
    ensures
        ({
            let gutter_w = AppView::initial(rows).gutter_w;
            &&& decimal(no as nat).len() + 1 <= gutter_w
            &&& gutter_w >= 5
            &&& gutter_w > 5 ==> exists|k: int, n: u32|
                0 <= k < rows.len() && #[trigger] has_number(rows[k], n) && gutter_w == decimal(
                    n as nat,
                ).len() + 1
        }),
{
    let largest = largest_no(rows, rows.len() as int);
    lemma_largest(rows, rows.len() as int);
    lemma_more_digits(no as nat, largest as nat);
    lemma_more_digits(largest as nat, u32::MAX as nat);
    assert(decimal(u32::MAX as nat).len() == 10) by {
        reveal_with_fuel(decimal, 11);
    }
    if decimal(largest as nat).len() > 4 {
        assert(largest > 0) by {
            if largest == 0 {
                assert(decimal(0).len() == 1);
            }
        }
        let k = choose|k: int| 0 <= k < rows.len() && #[trigger] has_number(rows[k], largest);
        assert(has_number(rows[k], largest));
    }
}

// ---------------------------------------------------------------------------
// Rows of a state
// ---------------------------------------------------------------------------

/// What is drawn as selected on one side of a row.
pub open spec fn drawn_selected(app: AppView, pane: Pane, row: int) -> Option<Range<usize>> {
    match app.selection {
        Some(selection) => if selection.pane == pane {
            app.selected_bytes(selection, row)
        } else {
            None
        },
        None => None,
    }
}

/// On the screen a row that shows lines is drawn in the widths of the two panes, each side
/// as far as it has lines, with what is selected in it drawn as selected: first the left
/// side, then the divider, then the right side.
pub proof fn law_rows_are_drawn_with_their_selection(app: AppView, row: int, i: int, width: nat)
    requires
        0 <= row < app.rows.len(),
        app.rows[row] is Line,
        !is_collapsed_away(app, row),
        0 <= i < app.lines_of_row(row, width).len(),
    ensures
        ({
            let (left_w, right_w) = app.widths(width);
            let gutter_w = app.gutter_w as nat;
            let spans = app.lines_of_row(row, width)[i].spans;
            let left = side_segments(
                app.rows[row]->left,
                left_w,
                gutter_w,
                drawn_selected(app, Pane::Left, row),
            );
            let right = side_segments(
                app.rows[row]->right,
                right_w,
                gutter_w,
                drawn_selected(app, Pane::Right, row),
            );
            let n = if i < left.len() {
                left[i].spans.len() as int
            } else {
                1
            };
            &&& n < spans.len()
            &&& i < left.len() ==> spans.take(n) == left[i].spans
            &&& i >= left.len() ==> spans[0].content == repeated(' ', left_w)
            &&& spans[n].content == seq!['│']
            &&& i < right.len() ==> spans.skip(n + 1) == right[i].spans
            &&& i >= right.len() ==> spans.last().content == repeated(' ', right_w) && spans.len()
                == n + 2
        }),
{
    lemma_visible(app, row);
    reveal_strlit("│");
    assert("│"@ =~= seq!['│']);
    let (left_w, right_w) = app.widths(width);
    let gutter_w = app.gutter_w as nat;
    let spans = app.lines_of_row(row, width)[i].spans;
    let chosen_l = selected_in(app.selection, Pane::Left, row as nat, app.rows[row]->left);
    let chosen_r = selected_in(app.selection, Pane::Right, row as nat, app.rows[row]->right);
    assert(chosen_l == drawn_selected(app, Pane::Left, row));
    assert(chosen_r == drawn_selected(app, Pane::Right, row));
    let left = side_segments(app.rows[row]->left, left_w, gutter_w, chosen_l);
    let right = side_segments(app.rows[row]->right, right_w, gutter_w, chosen_r);
    let a = side_spans(left, i, left_w);
    let b = side_spans(right, i, right_w);
    assert(spans == a.push(divider()) + b);
    assert(spans.take(a.len() as int) =~= a);
    assert(spans.skip(a.len() as int + 1) =~= b);
}

/// On the screen the header of a section shows whether the section is collapsed, its title
/// and its counts.
pub proof fn law_headers_show_their_sections(app: AppView, i: int, width: nat)
    requires
        app.wf(),
        0 <= i < app.sections.len(),
    ensures
        ({
            let header = app.sections[i].header;
            let line = app.lines_of_row(header as int, width);
            let text = spans_text(line[0].spans);
            let title = app.rows[header as int]->File_0;
            let counts = counts_shown(
                if app.stats.contains_key(header) {
                    Some(app.stats[header])
                } else {
                    None
                },
            );
            &&& line.len() == 1
            &&& text.len() >= 2 + title.len() + counts.len()
            &&& text[0] == if app.sections[i].collapsed {
                '▸'
            } else {
                '▾'
            }
            &&& text.subrange(2, 2 + title.len() as int) == title
            &&& text.skip(text.len() - counts.len()) == counts
        }),
{
    let header = app.sections[i].header;
    let stats = app.stats_at(header as int);
    let collapsed = app.header_is_collapsed(header as int);
    let title = app.rows[header as int]->File_0;
    assert(collapsed == app.sections[i].collapsed) by {
        if collapsed {
            let k = choose|k: int|
                0 <= k < app.sections.len() && (#[trigger] app.sections[k]).header == header
                    && app.sections[k].collapsed;
            if k < i {
                assert(app.sections[k].body.end <= app.sections[i].header);
            } else if i < k {
                assert(app.sections[i].body.end <= app.sections[k].header);
            }
        }
    }
    law_header_bars_show_title_and_counts(
        title,
        app.widths(width),
        app.gutter_w as nat,
        stats,
        app.selection,
        header as nat,
        collapsed,
    );
    let text = spans_text(app.lines_of_row(header as int, width)[0].spans);
    let counts = counts_shown(stats);
    assert(text.subrange(2, 2 + title.len() as int) =~= title);
    assert(text.skip(text.len() - counts.len()) =~= counts);
}

} // verus!
