//! What holds of lines as they are drawn.

use std::ops::Range;

use vstd::prelude::*;
use vstd::utf8::*;

use crate::bytes::byte_len;
use crate::diff::{CellView, Kind, RowView};
use crate::intraline::{
    end_start, front_end, is_word_at, law_common_end_is_kept, law_common_front_is_unmarked,
    law_emphasis_in_order, law_marks_are_words, law_unmarked_text_is_shared, unmarked, word_pieces,
};
use crate::segments::{
    law_lines_fill_the_pane, law_styling_keeps_the_text, shown, shown_text, side_segments,
    spans_text, Look,
};
use crate::style::{base_tint, emph_tint, Color, SpanView, Style};
use crate::text::{decimal, repeated};
use crate::wrap::{
    columns, display_width, hang, indent_cols, line_start, pieces_of, total_cols, wrapped,
    PieceView,
};

verus! {

// ---------------------------------------------------------------------------
// Text
// ---------------------------------------------------------------------------

/// What a cluster is drawn as: a tab as four blanks, anything else as it is.
pub open spec fn drawn_as(cluster: Seq<char>) -> Seq<char> {
    if cluster == seq!['\t'] {
        seq![' ', ' ', ' ', ' ']
    } else {
        cluster
    }
}

/// How many columns of the terminal a cluster takes as it is drawn; a blank takes one.
pub open spec fn drawn_width(cluster: Seq<char>) -> nat {
    if cluster == seq!['\t'] {
        drawn_as(cluster).len()
    } else {
        display_width(drawn_as(cluster))
    }
}

/// What some clusters are drawn as, one behind the other.
pub open spec fn drawn(line: Seq<PieceView>) -> Seq<char>
    decreases line.len(),
{
    if line.len() == 0 {
        seq![]
    } else {
        drawn(line.drop_last()) + drawn_as(line.last().text)
    }
}

/// How many columns of the terminal some clusters take as they are drawn.
pub open spec fn drawn_cols(line: Seq<PieceView>) -> nat
    decreases line.len(),
{
    if line.len() == 0 {
        0
    } else {
        drawn_cols(line.drop_last()) + drawn_width(line.last().text)
    }
}

/// How many columns of a pane are the gutter's.
pub open spec fn gutter_cols(width: nat, gutter_w: nat) -> nat {
    if gutter_w < width {
        gutter_w
    } else {
        width
    }
}

/// The clusters of a cell's text on the lines of a pane.
pub open spec fn lines_in_pane(cell: CellView, width: nat, gutter_w: nat) -> Seq<Seq<PieceView>> {
    let pieces = pieces_of(cell.text);
    let budget = (width - gutter_cols(width, gutter_w)) as nat;
    wrapped(pieces, budget, hang(pieces, budget))
}

/// Whether a piece counts for as many columns as its cluster takes.
pub open spec fn is_counted(p: PieceView) -> bool {
    p.cols == columns(p.text)
}

/// The pieces on the lines are the pieces of the text.
pub proof fn lemma_counted_lines(pieces: Seq<PieceView>, budget: nat, indent: nat)
    requires
        forall|i: int| 0 <= i < pieces.len() ==> is_counted(#[trigger] pieces[i]),
    ensures
        ({
            let lines = wrapped(pieces, budget, indent);
            lines.len() > 0 && forall|k: int, j: int|
                0 <= k < lines.len() && 0 <= j < lines[k].len() ==> is_counted(
                    #[trigger] lines[k][j],
                )
        }),
    decreases pieces.len(),
{
    let lines = wrapped(pieces, budget, indent);
    if pieces.len() > 0 {
        let front = pieces.drop_last();
        let p = pieces.last();
        assert(is_counted(pieces[pieces.len() - 1]));
        assert forall|i: int| 0 <= i < front.len() implies is_counted(#[trigger] front[i]) by {
            assert(front[i] == pieces[i]);
        }
        lemma_counted_lines(front, budget, indent);
        let before = wrapped(front, budget, indent);
        assert forall|k: int, j: int|
            0 <= k < lines.len() && 0 <= j < lines[k].len() implies is_counted(
            #[trigger] lines[k][j],
        ) by {
            if k < before.len() && j < before[k].len() {
                assert(lines[k][j] == before[k][j]);
            } else {
                assert(lines[k][j] == p);
            }
        }
    }
}

/// Text is drawn cluster by cluster, and takes the columns that it counts for.
pub proof fn lemma_drawn(line: Seq<PieceView>)
    requires
        forall|j: int| 0 <= j < line.len() ==> is_counted(#[trigger] line[j]),
    ensures
        shown_text(line) == drawn(line),
        total_cols(line) == drawn_cols(line),
    decreases line.len(),
{
    if line.len() > 0 {
        let front = line.drop_last();
        assert forall|j: int| 0 <= j < front.len() implies is_counted(#[trigger] front[j]) by {
            assert(front[j] == line[j]);
        }
        lemma_drawn(front);
        assert(is_counted(line[line.len() - 1]));
        lemma_shown(line.last());
    }
}

/// A cluster is drawn as it should be.
proof fn lemma_shown(p: PieceView)
    requires
        is_counted(p),
    ensures
        shown(p) == drawn_as(p.text),
        p.cols == drawn_width(p.text),
{
    reveal_strlit("\t");
    assert("\t"@ =~= seq!['\t']);
    if p.text == "\t"@ {
        assert(shown(p) =~= seq![' ', ' ', ' ', ' ']);
    }
}

/// The text of spans one behind the other.
pub proof fn lemma_spans_text_add(a: Seq<SpanView>, b: Seq<SpanView>)
    ensures
        spans_text(a + b) == spans_text(a) + spans_text(b),
    decreases b.len(),
{
    if b.len() == 0 {
        assert(a + b =~= a);
        assert(spans_text(a) + spans_text(b) =~= spans_text(a));
    } else {
        assert((a + b).drop_last() =~= a + b.drop_last());
        lemma_spans_text_add(a, b.drop_last());
        assert(spans_text(a + b) =~= spans_text(a) + spans_text(b));
    }
}

/// The text of one span.
pub proof fn lemma_span_text(span: SpanView)
    ensures
        spans_text(seq![span]) == span.content,
{
    reveal_with_fuel(spans_text, 2);
    assert(seq![span].drop_last() =~= Seq::<SpanView>::empty());
    assert(spans_text(seq![span]) =~= span.content);
}

/// A line of a cell is drawn as its gutter, its clusters, and blanks behind them up to
/// the end of the pane, with every tab as four blanks. Measured in what is drawn, it is
/// as wide as the pane, so that the divider stands in its place; the one exception is a
/// continuation with a single cluster wider than a tab. In the gutter of the first line
/// stands the line number, flush right before a blank; that of a continuation is blank
/// up to the indent.
pub proof fn law_lines_are_drawn_as_wide_as_their_pane(
    cell: CellView,
    width: nat,
    gutter_w: nat,
    selected: Option<Range<usize>>,
    k: int,
)
    requires
        0 <= k < side_segments(Some(cell), width, gutter_w, selected).len(),
    ensures
        ({
            let spans = side_segments(Some(cell), width, gutter_w, selected)[k].spans;
            let line = lines_in_pane(cell, width, gutter_w)[k];
            let text = spans_text(spans);
            let gutter = spans[0].content;
            let g = gutter_cols(width, gutter_w);
            let pad = text.len() - gutter.len() - drawn(line).len();
            let digits = decimal(cell.no as nat);
            &&& spans.len() > 0
            &&& pad >= 0
            &&& text == gutter + drawn(line) + repeated(' ', pad as nat)
            &&& gutter.len() + drawn_cols(line) + pad == width || (k > 0 && line.len() == 1
                && drawn_cols(line) > 4)
            &&& k == 0 ==> gutter.len() == g
            &&& k == 0 && digits.len() < g ==> gutter == repeated(
                ' ',
                (g - 1 - digits.len()) as nat,
            ) + digits + seq![' ']
            &&& k > 0 ==> gutter == repeated(
                ' ',
                g + hang(pieces_of(cell.text), (width - g) as nat),
            )
        }),
{
    let pieces = pieces_of(cell.text);
    let look = Look::of(cell, pieces, width, gutter_w, selected);
    let lines = wrapped(pieces, look.budget, look.indent);
    let line = lines[k];
    let start = line_start(k, look.indent);
    let head = look.gutter_span(k);
    let padding = look.padding(start + total_cols(line));
    let spans = look.segment(k, line).spans;
    let text = spans_text(spans);
    let g = gutter_cols(width, gutter_w);
    let digits = decimal(cell.no as nat);
    lemma_counted_lines(pieces, look.budget, look.indent);
    lemma_drawn(line);
    law_styling_keeps_the_text(look, line);
    lemma_span_text(head);
    lemma_spans_text_add(seq![head], look.runs(line));
    lemma_spans_text_add(seq![head] + look.runs(line), padding);
    law_lines_fill_the_pane(cell, pieces, width, gutter_w, selected);
    assert(lines[k] == line);
    let pad = text.len() - head.content.len() - drawn(line).len();
    if padding.len() > 0 {
        lemma_span_text(padding[0]);
        assert(padding =~= seq![padding[0]]);
    }
    assert(spans_text(padding) =~= repeated(' ', pad as nat));
    assert(drawn_cols(line) == total_cols(line));
    if line.len() == 1 {
        reveal_with_fuel(total_cols, 2);
        assert(line.drop_last() =~= Seq::<PieceView>::empty());
    }
    if k == 0 && digits.len() < g {
        assert(head.content =~= repeated(' ', (g - 1 - digits.len()) as nat) + digits + seq![' ']);
    }
}

/// The text of a cell that has been wrapped goes on below its own first character: where
/// it begins with blanks and tabs, and they and a tab more would fit the pane,
/// continuations begin as many columns to the right as those take, a tab four; otherwise
/// at the left.
pub proof fn law_continuations_keep_the_indent(pieces: Seq<PieceView>, m: int, budget: nat)
    requires
        0 <= m <= pieces.len(),
        forall|i: int|
            0 <= i < m ==> (#[trigger] pieces[i]).text == seq![' '] || pieces[i].text == seq!['\t'],
        m < pieces.len() ==> pieces[m].text != seq![' '] && pieces[m].text != seq!['\t'],
        forall|i: int| 0 <= i < m ==> is_counted(#[trigger] pieces[i]),
    ensures
        hang(pieces, budget) == if drawn_cols(pieces.take(m)) + 4 <= budget {
            drawn_cols(pieces.take(m))
        } else {
            0
        },
{
    lemma_indent(pieces, m);
    assert forall|j: int| 0 <= j < pieces.take(m).len() implies is_counted(
        #[trigger] pieces.take(m)[j],
    ) by {
        assert(pieces.take(m)[j] == pieces[j]);
    }
    lemma_drawn(pieces.take(m));
}

/// The indent is that of the blanks and tabs in front.
proof fn lemma_indent(pieces: Seq<PieceView>, m: int)
    requires
        0 <= m <= pieces.len(),
        forall|i: int|
            0 <= i < m ==> (#[trigger] pieces[i]).text == seq![' '] || pieces[i].text == seq!['\t'],
        m < pieces.len() ==> pieces[m].text != seq![' '] && pieces[m].text != seq!['\t'],
    ensures
        indent_cols(pieces) == total_cols(pieces.take(m)),
    decreases m,
{
    reveal_strlit("\t");
    reveal_strlit(" ");
    assert("\t"@ =~= seq!['\t']);
    assert(" "@ =~= seq![' ']);
    if m > 0 {
        let rest = pieces.drop_first();
        assert forall|i: int| 0 <= i < m - 1 implies (#[trigger] rest[i]).text == seq![' ']
            || rest[i].text == seq!['\t'] by {
            assert(rest[i] == pieces[i + 1]);
        }
        assert(pieces[0].text == seq![' '] || pieces[0].text == seq!['\t']);
        lemma_indent(rest, m - 1);
        assert(rest.take(m - 1) =~= pieces.take(m).drop_first());
        lemma_total_first(pieces.take(m));
    }
}

/// Columns can be added up from the front.
proof fn lemma_total_first(line: Seq<PieceView>)
    requires
        line.len() > 0,
    ensures
        total_cols(line) == line[0].cols + total_cols(line.drop_first()),
    decreases line.len(),
{
    if line.len() == 1 {
        reveal_with_fuel(total_cols, 2);
        assert(line.drop_first() =~= Seq::<PieceView>::empty());
        assert(line.drop_last() =~= Seq::<PieceView>::empty());
    } else {
        lemma_total_first(line.drop_last());
        assert(line.drop_last().drop_first() =~= line.drop_first().drop_last());
    }
}

// ---------------------------------------------------------------------------
// Emphasis and selection
// ---------------------------------------------------------------------------

/// The styles of the characters of some spans, one by one.
pub open spec fn char_styles(spans: Seq<SpanView>) -> Seq<Style>
    decreases spans.len(),
{
    if spans.len() == 0 {
        seq![]
    } else {
        char_styles(spans.drop_last()) + Seq::new(
            spans.last().content.len(),
            |i: int| spans.last().style,
        )
    }
}

/// Whether ranges ascend and do not overlap.
pub open spec fn in_order(ranges: Seq<(usize, usize)>) -> bool {
    &&& forall|i: int| 0 <= i < ranges.len() ==> (#[trigger] ranges[i]).0 <= ranges[i].1
    &&& forall|i: int, j: int|
        0 <= i < j < ranges.len() ==> (#[trigger] ranges[i]).1 <= (#[trigger] ranges[j]).0
}

/// Whether a byte lies in one of some ranges.
pub open spec fn in_some(ranges: Seq<(usize, usize)>, at: nat) -> bool {
    exists|i: int| 0 <= i < ranges.len() && (#[trigger] ranges[i]).0 <= at < ranges[i].1
}

/// How a cluster of a cell is to be drawn, by the byte where it begins: in the emphasis
/// tint in the emphasised ranges, in the base tint elsewhere, reversed where it is
/// selected.
pub open spec fn style_at(cell: CellView, selected: Option<Range<usize>>, at: nat) -> Style {
    let tint = if in_some(cell.emph, at) {
        emph_tint(cell.kind)
    } else {
        base_tint(cell.kind)
    };
    Style {
        reversed: match selected {
            Some(range) => range.start <= at < range.end,
            None => false,
        },
        ..tint
    }
}

/// The styles of the characters of some clusters, one by one.
pub open spec fn styles_of(
    cell: CellView,
    selected: Option<Range<usize>>,
    line: Seq<PieceView>,
) -> Seq<Style>
    decreases line.len(),
{
    if line.len() == 0 {
        seq![]
    } else {
        styles_of(cell, selected, line.drop_last()) + Seq::new(
            drawn_as(line.last().text).len(),
            |i: int| style_at(cell, selected, line.last().start),
        )
    }
}

/// A byte is emphasised exactly if it lies in one of the ranges.
proof fn lemma_emphasised(look: Look, at: nat)
    requires
        in_order(look.cell.emph),
    ensures
        look.emphasised(at) == in_some(look.cell.emph, at),
        look.text_style(look.emphasised(at), look.is_selected(at)) == style_at(
            look.cell,
            look.selected,
            at,
        ),
{
    let emph = look.cell.emph;
    if in_some(emph, at) {
        let i = choose|i: int| 0 <= i < emph.len() && (#[trigger] emph[i]).0 <= at < emph[i].1;
        assert forall|j: int| 0 <= j <= i implies (#[trigger] emph[j]).0 <= at by {
            if j < i {
                assert(emph[j].1 <= emph[i].0);
            }
        }
        assert(at < look.cell.emph[i].1);
    }
}

/// Every cluster of a line is drawn in the style that its first byte calls for.
proof fn lemma_runs_styled(look: Look, line: Seq<PieceView>)
    requires
        in_order(look.cell.emph),
        forall|j: int| 0 <= j < line.len() ==> is_counted(#[trigger] line[j]),
    ensures
        char_styles(look.runs(line)) == styles_of(look.cell, look.selected, line),
        line.len() > 0 ==> look.runs(line).len() > 0 && look.runs(line).last().style == style_at(
            look.cell,
            look.selected,
            line.last().start,
        ),
    decreases line.len(),
{
    if line.len() > 0 {
        let front = line.drop_last();
        let p = line.last();
        let before = look.runs(front);
        let after = look.runs(line);
        assert forall|j: int| 0 <= j < front.len() implies is_counted(#[trigger] front[j]) by {
            assert(front[j] == line[j]);
        }
        lemma_runs_styled(look, front);
        assert(is_counted(line[line.len() - 1]));
        lemma_shown(p);
        lemma_emphasised(look, p.start);
        let want = style_at(look.cell, look.selected, p.start);
        if line.len() > 1 && look.alike(line[line.len() - 2], p) {
            let q = line[line.len() - 2];
            assert(front.last() == q);
            lemma_emphasised(look, q.start);
            assert(before.last().style == want);
            assert(after.drop_last() =~= before.drop_last());
            assert(after.last().content == before.last().content + shown(p));
            assert(char_styles(after) =~= char_styles(before) + Seq::new(
                drawn_as(p.text).len(),
                |i: int| want,
            ));
        } else {
            assert(after.drop_last() =~= before);
            assert(char_styles(after) =~= char_styles(before) + Seq::new(
                drawn_as(p.text).len(),
                |i: int| want,
            ));
        }
        assert(styles_of(look.cell, look.selected, line) =~= styles_of(
            look.cell,
            look.selected,
            front,
        ) + Seq::new(drawn_as(p.text).len(), |i: int| want));
    }
}

/// The styles of spans one behind the other.
proof fn lemma_char_styles_add(a: Seq<SpanView>, b: Seq<SpanView>)
    ensures
        char_styles(a + b) == char_styles(a) + char_styles(b),
    decreases b.len(),
{
    if b.len() == 0 {
        assert(a + b =~= a);
        assert(char_styles(a) + char_styles(b) =~= char_styles(a));
    } else {
        assert((a + b).drop_last() =~= a + b.drop_last());
        lemma_char_styles_add(a, b.drop_last());
        assert(char_styles(a + b) =~= char_styles(a) + char_styles(b));
    }
}

/// Every character has a style.
proof fn lemma_char_styles_len(spans: Seq<SpanView>)
    ensures
        char_styles(spans).len() == spans_text(spans).len(),
    decreases spans.len(),
{
    if spans.len() > 0 {
        lemma_char_styles_len(spans.drop_last());
    }
}

/// The styles of the characters of a front part come first.
proof fn lemma_styles_of_part(
    cell: CellView,
    selected: Option<Range<usize>>,
    line: Seq<PieceView>,
    j: int,
)
    requires
        0 <= j < line.len(),
    ensures
        styles_of(cell, selected, line).len() == drawn(line).len(),
        drawn(line.take(j)).len() + drawn_as(line[j].text).len() <= drawn(line).len(),
        forall|c: int|
            0 <= c < drawn_as(line[j].text).len() ==> #[trigger] styles_of(
                cell,
                selected,
                line,
            )[drawn(line.take(j)).len() + c] == style_at(cell, selected, line[j].start) && drawn(
                line,
            )[drawn(line.take(j)).len() + c] == drawn_as(line[j].text)[c],
    decreases line.len(),
{
    let front = line.drop_last();
    if j == line.len() - 1 {
        assert(line.take(j) =~= front);
        if front.len() > 0 {
            lemma_styles_of_part(cell, selected, front, 0);
        }
    } else {
        lemma_styles_of_part(cell, selected, front, j);
        assert(front.take(j) =~= line.take(j));
        assert(front[j] == line[j]);
        assert forall|c: int| 0 <= c < drawn_as(line[j].text).len() implies #[trigger] styles_of(
            cell,
            selected,
            line,
        )[drawn(line.take(j)).len() + c] == style_at(cell, selected, line[j].start) && drawn(
            line,
        )[drawn(line.take(j)).len() + c] == drawn_as(line[j].text)[c] by {
            assert(styles_of(cell, selected, front)[drawn(front.take(j)).len() + c] == style_at(
                cell,
                selected,
                line[j].start,
            ));
        }
    }
}

/// Wherever in its pane a cluster is drawn, all of it is in the emphasis tint exactly if
/// its first byte lies in one of the emphasised ranges of the cell, whichever of them,
/// and in the base tint otherwise; and reversed exactly if that byte is selected.
pub proof fn law_clusters_are_styled_by_their_first_byte(
    cell: CellView,
    width: nat,
    gutter_w: nat,
    selected: Option<Range<usize>>,
    k: int,
    j: int,
    c: int,
)
    requires
        in_order(cell.emph),
        0 <= k < side_segments(Some(cell), width, gutter_w, selected).len(),
        0 <= j < lines_in_pane(cell, width, gutter_w)[k].len(),
        0 <= c < drawn_as(lines_in_pane(cell, width, gutter_w)[k][j].text).len(),
    ensures
        ({
            let spans = side_segments(Some(cell), width, gutter_w, selected)[k].spans;
            let line = lines_in_pane(cell, width, gutter_w)[k];
            let at = spans[0].content.len() + drawn(line.take(j)).len() + c;
            &&& at < spans_text(spans).len() == char_styles(spans).len()
            &&& spans_text(spans)[at] == drawn_as(line[j].text)[c]
            &&& char_styles(spans)[at] == style_at(cell, selected, line[j].start)
        }),
{
    let pieces = pieces_of(cell.text);
    let look = Look::of(cell, pieces, width, gutter_w, selected);
    let lines = wrapped(pieces, look.budget, look.indent);
    let line = lines[k];
    let head = look.gutter_span(k);
    let padding = look.padding(line_start(k, look.indent) + total_cols(line));
    let spans = look.segment(k, line).spans;
    let at = head.content.len() + drawn(line.take(j)).len() + c;
    law_lines_are_drawn_as_wide_as_their_pane(cell, width, gutter_w, selected, k);
    lemma_counted_lines(pieces, look.budget, look.indent);
    lemma_runs_styled(look, line);
    lemma_char_styles_add(seq![head], look.runs(line));
    lemma_char_styles_add(seq![head] + look.runs(line), padding);
    lemma_char_styles_len(spans);
    lemma_char_styles_len(seq![head]);
    lemma_span_text(head);
    lemma_styles_of_part(cell, selected, line, j);
    assert(styles_of(cell, selected, line)[drawn(line.take(j)).len() + c] == style_at(
        cell,
        selected,
        line[j].start,
    ));
}

/// The gutter of a line and the blanks behind its text are in the tint of the line, up to
/// the end of the pane, and the line number is dim.
pub proof fn law_lines_are_tinted_from_end_to_end(
    cell: CellView,
    width: nat,
    gutter_w: nat,
    selected: Option<Range<usize>>,
    k: int,
    at: int,
)
    requires
        0 <= k < side_segments(Some(cell), width, gutter_w, selected).len(),
    ensures
        ({
            let spans = side_segments(Some(cell), width, gutter_w, selected)[k].spans;
            let line = lines_in_pane(cell, width, gutter_w)[k];
            let styles = char_styles(spans);
            let gutter = spans[0].content.len();
            &&& 0 <= at < gutter ==> styles[at] == (Style {
                fg: Some(Color::DarkGray),
                ..base_tint(cell.kind)
            })
            &&& gutter + drawn(line).len() <= at < styles.len() ==> styles[at] == base_tint(
                cell.kind,
            )
        }),
{
    let pieces = pieces_of(cell.text);
    let look = Look::of(cell, pieces, width, gutter_w, selected);
    let lines = wrapped(pieces, look.budget, look.indent);
    let line = lines[k];
    let head = look.gutter_span(k);
    let padding = look.padding(line_start(k, look.indent) + total_cols(line));
    lemma_counted_lines(pieces, look.budget, look.indent);
    lemma_drawn(line);
    law_styling_keeps_the_text(look, line);
    lemma_char_styles_add(seq![head], look.runs(line));
    lemma_char_styles_add(seq![head] + look.runs(line), padding);
    lemma_char_styles_len(seq![head]);
    lemma_char_styles_len(look.runs(line));
    lemma_span_text(head);
    lemma_one_style(head);
    if padding.len() > 0 {
        assert(padding =~= seq![padding[0]]);
        lemma_one_style(padding[0]);
    }
}

/// The characters of one span have its style.
proof fn lemma_one_style(span: SpanView)
    ensures
        char_styles(seq![span]).len() == span.content.len(),
        forall|i: int|
            0 <= i < span.content.len() ==> #[trigger] char_styles(seq![span])[i] == span.style,
{
    reveal_with_fuel(char_styles, 2);
    assert(seq![span].drop_last() =~= Seq::<SpanView>::empty());
}

/// An absent side is blank in the whole width of its pane, and has a tint of its own,
/// which no line has.
pub proof fn law_absent_sides_are_told_from_blank_lines(
    width: nat,
    gutter_w: nat,
    selected: Option<Range<usize>>,
    at: int,
)
    ensures
        ({
            let segments = side_segments(None, width, gutter_w, selected);
            let styles = char_styles(segments[0].spans);
            &&& segments.len() == 1
            &&& spans_text(segments[0].spans) == repeated(' ', width)
            &&& segments[0].glyphs.len() == 0
            &&& 0 <= at < width ==> styles[at].bg is Some && forall|kind: Kind|
                styles[at].bg != (#[trigger] base_tint(kind)).bg && styles[at].bg != emph_tint(
                    kind,
                ).bg
        }),
{
    let span = side_segments(None, width, gutter_w, selected)[0].spans[0];
    lemma_span_text(span);
    lemma_one_style(span);
}

/// A changed word is told from the rest of its line, and a deletion from an addition:
/// the tints of deletions are red and those of additions green, those of changed words
/// are stronger and bold, and context has none.
pub proof fn law_tints_tell_changes_apart()
    ensures
        base_tint(Kind::Del).bg matches Some(Color::Rgb(r, g, b)) && r > g && r > b,
        base_tint(Kind::Add).bg matches Some(Color::Rgb(r, g, b)) && g > r && g > b,
        emph_tint(Kind::Del).bg matches Some(Color::Rgb(r, g, b)) && r > g && r > b && (base_tint(
            Kind::Del,
        ).bg matches Some(Color::Rgb(r0, _, _)) && r >= 2 * r0),
        emph_tint(Kind::Add).bg matches Some(Color::Rgb(r, g, b)) && g > r && g > b && (base_tint(
            Kind::Add,
        ).bg matches Some(Color::Rgb(_, g0, _)) && 2 * g > 3 * g0),
        emph_tint(Kind::Del).bold && emph_tint(Kind::Add).bold,
        !base_tint(Kind::Del).bold && !base_tint(Kind::Add).bold,
        forall|kind: Kind|
            (#[trigger] base_tint(kind)).fg is None && !base_tint(kind).reversed,
        forall|kind: Kind|
            (#[trigger] emph_tint(kind)).fg is None && !emph_tint(kind).reversed,
        base_tint(Kind::Ctx).bg is None && !base_tint(Kind::Ctx).bold,
        emph_tint(Kind::Ctx) == base_tint(Kind::Ctx),
{
}

/// The emphasis that a deletion beside an addition carries ascends and does not overlap,
/// so that every changed word of either is drawn as one; no other cell carries any.
pub proof fn law_emphasis_of_rows_is_in_order(row: RowView)
    requires
        row.emphasised(),
        row matches RowView::Line { left: Some(l), .. } ==> byte_len(l.text) <= usize::MAX,
        row matches RowView::Line { right: Some(r), .. } ==> byte_len(r.text) <= usize::MAX,
    ensures
        row matches RowView::Line { left: Some(l), .. } ==> in_order(l.emph),
        row matches RowView::Line { right: Some(r), .. } ==> in_order(r.emph),
        row matches RowView::Line { left: Some(l), right: None } ==> l.emph.len() == 0,
        row matches RowView::Line { left: None, right: Some(r) } ==> r.emph.len() == 0,
        row matches RowView::Line { left: Some(l), right: Some(r) } ==> l.kind == Kind::Ctx
            ==> l.emph.len() == 0 && r.emph.len() == 0,
{
    if let RowView::Line { left: Some(l), right: Some(r) } = row {
        if l.kind == Kind::Del && r.kind == Kind::Add {
            law_emphasis_in_order(l.text, r.text, l.emph, r.emph);
        }
    }
}

/// A deletion beside an addition carries emphasis that tells what differs: outside it
/// the two lines are the same, so that two different lines carry some and two equal ones
/// none; it covers whole words, none of which the lines have in common at their front.
pub proof fn law_pairs_are_emphasised_where_they_differ(l: CellView, r: CellView)
    requires
        (RowView::Line { left: Some(l), right: Some(r) }).emphasised(),
        l.kind == Kind::Del,
        r.kind == Kind::Add,
        byte_len(l.text) <= usize::MAX,
        byte_len(r.text) <= usize::MAX,
    ensures
        unmarked(encode_utf8(l.text), l.emph) == unmarked(encode_utf8(r.text), r.emph),
        l.text != r.text <==> l.emph.len() > 0 || r.emph.len() > 0,
        forall|i: int|
            0 <= i < l.emph.len() ==> is_word_at(word_pieces(l.text), #[trigger] l.emph[i]),
        forall|i: int|
            0 <= i < r.emph.len() ==> is_word_at(word_pieces(r.text), #[trigger] r.emph[i]),
        forall|i: int|
            0 <= i < l.emph.len() ==> front_end(l.text, r.text) <= (#[trigger] l.emph[i]).0
                && l.emph[i].1 <= end_start(l.text, r.text),
        forall|i: int|
            0 <= i < r.emph.len() ==> front_end(r.text, l.text) <= (#[trigger] r.emph[i]).0,
{
    law_unmarked_text_is_shared(l.text, r.text, l.emph, r.emph);
    law_marks_are_words(l.text, r.text, l.emph, r.emph);
    law_common_front_is_unmarked(l.text, r.text, l.emph, r.emph);
    law_common_end_is_kept(l.text, r.text, l.emph, r.emph);
    if l.emph.len() == 0 && r.emph.len() == 0 {
        encode_utf8_decode_utf8(l.text);
        encode_utf8_decode_utf8(r.text);
    }
}

} // verus!
