//! One pane of a row as visual lines, with the columns and the source bytes of
//! every visible glyph.

use std::ops::Range;

use vstd::prelude::*;

use crate::bytes::{boundary, byte_len, len_of};
use crate::diff::{Cell, CellView, Kind, Row, RowView};
use crate::style::{
    base_style, base_tint, dead, emph_style, emph_tint, lemma_span_views_push, span_views, Color,
    Span, SpanView, Style,
};
use crate::text::{chars_of, decimal, decimal_string, push_all, repeated, spaces, string_of};
use crate::wrap::{
    concat, hang, hang_of, law_lines_fit, lemma_lines_ordered, lemma_piece_part,
    lemma_wrapped_nonempty, line_start, ordered, part_of, piece_texts, piece_views, pieces,
    pieces_of, tile, total_cols, used_cols, wrapped, Piece, PieceView,
};

verus! {

/// A visible glyph: the columns of the pane it covers, and the bytes of the
/// source it stands for.
#[derive(Debug)]
pub struct VisualGlyph {
    pub columns: Range<usize>,
    pub bytes: Range<usize>,
}

/// One visual line of a pane.
#[derive(Debug)]
pub struct CellSegment {
    pub spans: Vec<Span>,
    pub glyphs: Vec<VisualGlyph>,
}

/// A segment, by its contents.
pub struct SegmentView {
    pub spans: Seq<SpanView>,
    pub glyphs: Seq<VisualGlyph>,
}

impl View for CellSegment {
    type V = SegmentView;

    open spec fn view(&self) -> SegmentView {
        SegmentView { spans: span_views(self.spans@), glyphs: self.glyphs@ }
    }
}

/// The segments, by their contents.
pub open spec fn segment_views(segments: Seq<CellSegment>) -> Seq<SegmentView> {
    segments.map_values(|s: CellSegment| s@)
}

/// A column number, at most the largest there is.
pub open spec fn clip(n: nat) -> usize {
    if n <= usize::MAX {
        n as usize
    } else {
        usize::MAX
    }
}

/// What a piece looks like: a tab is four spaces.
pub open spec fn shown(p: PieceView) -> Seq<char> {
    if p.text == "\t"@ {
        repeated(' ', 4)
    } else {
        p.text
    }
}

/// The absent side of a row.
pub open spec fn dead_spans(width: nat) -> Seq<SpanView> {
    seq![SpanView { content: repeated(' ', width), style: dead() }]
}

/// A line number, flush right in front of a space, cut to the gutter.
pub open spec fn number_gutter(no: u32, gutter: nat) -> Seq<char> {
    let digits = decimal(no as nat);
    let room = if gutter > 0 {
        (gutter - 1) as nat
    } else {
        0
    };
    let pad = if digits.len() < room {
        (room - digits.len()) as nat
    } else {
        0
    };
    let full = (repeated(' ', pad) + digits).push(' ');
    if gutter < full.len() {
        full.take(gutter as int)
    } else {
        full
    }
}

/// What decides how a cell looks in its pane.
pub struct Look {
    pub cell: CellView,
    /// the columns for the line number
    pub gutter: nat,
    /// the columns for the text
    pub budget: nat,
    /// where continuation lines begin
    pub indent: nat,
    /// the selected bytes
    pub selected: Option<Range<usize>>,
}

impl Look {
    /// The look of a cell in a pane.
    pub open spec fn of(
        cell: CellView,
        pieces: Seq<PieceView>,
        width: nat,
        gutter_w: nat,
        selected: Option<Range<usize>>,
    ) -> Look {
        let gutter = if gutter_w < width {
            gutter_w
        } else {
            width
        };
        let budget = (width - gutter) as nat;
        Look { cell, gutter, budget, indent: hang(pieces, budget), selected }
    }

    /// Whether a byte is emphasised: it lies in one of the ranges up to the
    /// first that begins behind it.
    pub open spec fn emphasised(self, at: nat) -> bool {
        exists|i: int|
            0 <= i < self.cell.emph.len() && at < (#[trigger] self.cell.emph[i]).1 && (forall|
                j: int,
            |
                0 <= j <= i ==> (#[trigger] self.cell.emph[j]).0 <= at)
    }

    /// Whether a byte is selected.
    pub open spec fn is_selected(self, at: nat) -> bool {
        self.selected matches Some(range) && range.start <= at < range.end
    }

    /// The style of text, by whether it is emphasised and selected.
    pub open spec fn text_style(self, emphasised: bool, selected: bool) -> Style {
        let style = if emphasised {
            emph_tint(self.cell.kind)
        } else {
            base_tint(self.cell.kind)
        };
        if selected {
            Style { reversed: true, ..style }
        } else {
            style
        }
    }

    /// The style of the gutter.
    pub open spec fn gutter_style(self) -> Style {
        Style { fg: Some(Color::DarkGray), ..base_tint(self.cell.kind) }
    }

    /// Whether two pieces are emphasised alike and selected alike.
    pub open spec fn alike(self, p: PieceView, q: PieceView) -> bool {
        self.emphasised(p.start) == self.emphasised(q.start) && self.is_selected(p.start)
            == self.is_selected(q.start)
    }

    /// The text of a line in spans: one for each longest run of pieces that are
    /// alike.
    pub open spec fn runs(self, line: Seq<PieceView>) -> Seq<SpanView>
        decreases line.len(),
    {
        if line.len() == 0 {
            seq![]
        } else {
            let before = self.runs(line.drop_last());
            let p = line.last();
            if line.len() > 1 && self.alike(line[line.len() - 2], p) {
                before.update(
                    before.len() - 1,
                    SpanView { content: before.last().content + shown(p), ..before.last() },
                )
            } else {
                before.push(
                    SpanView {
                        content: shown(p),
                        style: self.text_style(self.emphasised(p.start), self.is_selected(p.start)),
                    },
                )
            }
        }
    }

    /// The visible glyphs of a line that begins at column `start` of the text. A
    /// piece without columns belongs to the glyph before it.
    pub open spec fn glyphs(self, line: Seq<PieceView>, start: nat) -> Seq<VisualGlyph>
        decreases line.len(),
    {
        if line.len() == 0 {
            seq![]
        } else {
            let before = self.glyphs(line.drop_last(), start);
            let p = line.last();
            let col = self.gutter + start + total_cols(line.drop_last());
            if p.cols > 0 {
                before.push(
                    VisualGlyph {
                        columns: Range { start: clip(col), end: clip(col + p.cols) },
                        bytes: Range { start: p.start as usize, end: p.end as usize },
                    },
                )
            } else if before.len() > 0 {
                before.update(
                    before.len() - 1,
                    VisualGlyph {
                        bytes: Range { start: before.last().bytes.start, end: p.end as usize },
                        ..before.last()
                    },
                )
            } else {
                before
            }
        }
    }

    /// What stands before the text of the `k`-th line: the line number, or blanks
    /// up to the indent.
    pub open spec fn gutter_span(self, k: int) -> SpanView {
        SpanView {
            content: if k == 0 {
                number_gutter(self.cell.no, self.gutter)
            } else {
                repeated(' ', self.gutter + self.indent)
            },
            style: self.gutter_style(),
        }
    }

    /// What fills a line up to the end of the pane.
    pub open spec fn padding(self, used: nat) -> Seq<SpanView> {
        if used < self.budget {
            seq![
                SpanView {
                    content: repeated(' ', (self.budget - used) as nat),
                    style: base_tint(self.cell.kind),
                },
            ]
        } else {
            seq![]
        }
    }

    /// The `k`-th line as a segment.
    pub open spec fn segment(self, k: int, line: Seq<PieceView>) -> SegmentView {
        let start = line_start(k, self.indent);
        SegmentView {
            spans: seq![self.gutter_span(k)] + self.runs(line) + self.padding(
                start + total_cols(line),
            ),
            glyphs: self.glyphs(line, start),
        }
    }

    /// The lines as segments.
    pub open spec fn segments(self, lines: Seq<Seq<PieceView>>) -> Seq<SegmentView> {
        Seq::new(lines.len(), |k: int| self.segment(k, lines[k]))
    }
}

/// The segments of a cell whose text falls into the given pieces.
pub open spec fn segments_of(
    cell: CellView,
    pieces: Seq<PieceView>,
    width: nat,
    gutter_w: nat,
    selected: Option<Range<usize>>,
) -> Seq<SegmentView> {
    let look = Look::of(cell, pieces, width, gutter_w, selected);
    look.segments(wrapped(pieces, look.budget, look.indent))
}

/// The segments of one side of a row; the absent side is one dead line.
pub open spec fn side_segments(
    side: Option<CellView>,
    width: nat,
    gutter_w: nat,
    selected: Option<Range<usize>>,
) -> Seq<SegmentView> {
    match side {
        Some(cell) => segments_of(cell, pieces_of(cell.text), width, gutter_w, selected),
        None => seq![SegmentView { spans: dead_spans(width), glyphs: seq![] }],
    }
}

/// The absent side of a row, and what the shorter side lacks where the other
/// wraps taller.
pub fn dead_fill(width: usize) -> (spans: Vec<Span>)
    ensures
        span_views(spans@) == dead_spans(width as nat),
{
    let mut r: Vec<Span> = Vec::new();
    r.push(Span { content: spaces(width), style: dead() });
    assert(span_views(r@) =~= dead_spans(width as nat));
    r
}

/// A line number in the gutter.
fn gutter_text(no: u32, gutter: usize) -> (s: String)
    ensures
        s@ == number_gutter(no, gutter as nat),
{
    let digits = decimal_string(no as u128);
    let len: usize = chars_of(digits.as_str()).len();
    let room: usize = gutter.saturating_sub(1);
    let mut full = spaces(room.saturating_sub(len));
    push_all(&mut full, digits.as_str());
    full.push(' ');
    let chars = chars_of(full.as_str());
    if gutter < chars.len() {
        let s = string_of(&chars, 0, gutter);
        assert(s@ =~= chars@.take(gutter as int));
        s
    } else {
        full
    }
}

/// Whether a byte is emphasised.
fn in_emph(emph: &Vec<(usize, usize)>, at: usize, Ghost(look): Ghost<Look>) -> (b: bool)
    requires
        look.cell.emph == emph@,
    ensures
        b == look.emphasised(at as nat),
{
    let mut i: usize = 0;
    while i < emph.len() && emph[i].0 <= at
        invariant
            look.cell.emph == emph@,
            i <= emph@.len(),
            forall|j: int| 0 <= j < i ==> (#[trigger] emph@[j]).0 <= at,
            forall|j: int| 0 <= j < i ==> (#[trigger] emph@[j]).1 <= at,
        decreases emph@.len() - i,
    {
        if at < emph[i].1 {
            assert(look.cell.emph[i as int].1 > at);
            return true;
        }
        i += 1;
    }
    proof {
        if look.emphasised(at as nat) {
            let k = choose|k: int|
                0 <= k < look.cell.emph.len() && (at as nat) < (#[trigger] look.cell.emph[k]).1 && (
                forall|j: int| 0 <= j <= k ==> (#[trigger] look.cell.emph[j]).0 <= at as nat);
            if k < i {
                assert(emph@[k].1 <= at);
            } else {
                assert(look.cell.emph[i as int].0 <= at);
            }
        }
    }
    false
}

/// A column number, at most the largest there is.
fn clipped(n: u128) -> (c: usize)
    ensures
        c == clip(n as nat),
{
    if n <= usize::MAX as u128 {
        n as usize
    } else {
        usize::MAX
    }
}

/// A run of text that is still growing.
spec fn growing(text: Seq<char>, style: Style) -> Seq<SpanView> {
    if text.len() == 0 {
        seq![]
    } else {
        seq![SpanView { content: text, style }]
    }
}

/// A piece that looks like the one before it lengthens the last run.
proof fn lemma_run_goes_on(
    look: Look,
    line: Seq<PieceView>,
    p: PieceView,
    head: Seq<SpanView>,
    spans: Seq<SpanView>,
    text: Seq<char>,
    style: Style,
)
    requires
        line.len() > 0,
        look.alike(line.last(), p),
        text.len() > 0,
        spans + growing(text, style) == head + look.runs(line),
    ensures
        spans + growing(text + shown(p), style) == head + look.runs(line.push(p)),
{
    let longer = line.push(p);
    let old_runs = look.runs(line);
    assert(longer.drop_last() =~= line);
    assert(longer[longer.len() - 2] == line.last());
    lemma_runs_nonempty(look, line);
    assert((spans + growing(text, style)).last() == SpanView { content: text, style });
    assert((head + old_runs).last() == old_runs.last());
    assert forall|i: int| 0 <= i < spans.len() implies spans[i] == (head + old_runs)[i] by {
        assert((spans + growing(text, style))[i] == spans[i]);
    }
    assert(spans + growing(text + shown(p), style) =~= head + look.runs(longer));
}

/// A piece that looks otherwise than the one before it begins a run.
proof fn lemma_run_begins(look: Look, line: Seq<PieceView>, p: PieceView, head: Seq<SpanView>)
    requires
        line.len() > 0 ==> !look.alike(line.last(), p),
        p.text.len() > 0,
    ensures
        head + look.runs(line) + growing(
            shown(p),
            look.text_style(look.emphasised(p.start), look.is_selected(p.start)),
        ) == head + look.runs(line.push(p)),
{
    let longer = line.push(p);
    assert(longer.drop_last() =~= line);
    if line.len() > 0 {
        assert(longer[longer.len() - 2] == line.last());
    }
    assert(shown(p).len() > 0);
    assert(head + look.runs(line) + growing(
        shown(p),
        look.text_style(look.emphasised(p.start), look.is_selected(p.start)),
    ) =~= head + look.runs(longer));
}

/// A line with pieces on it has text.
proof fn lemma_runs_nonempty(look: Look, line: Seq<PieceView>)
    requires
        line.len() > 0,
    ensures
        look.runs(line).len() > 0,
    decreases line.len(),
{
    if line.len() > 1 {
        lemma_runs_nonempty(look, line.drop_last());
    }
}

/// Ends a run of text: it becomes a span unless it is empty.
fn flush_run(spans: &mut Vec<Span>, cur: &mut String, style: Style)
    ensures
        span_views(final(spans)@) == span_views(old(spans)@) + growing(old(cur)@, style),
        final(cur)@.len() == 0,
{
    let mut run = String::new();
    std::mem::swap(&mut run, cur);
    if !run.as_str().is_empty() {
        let span = Span { content: run, style };
        proof {
            lemma_span_views_push(spans@, span);
        }
        spans.push(span);
    }
    assert(span_views(spans@) =~= span_views(old(spans)@) + growing(old(cur)@, style));
}

/// The style of text in a cell of the given kind.
fn run_style(kind: Kind, emphasised: bool, selected: bool, Ghost(look): Ghost<Look>) -> (s: Style)
    requires
        look.cell.kind == kind,
    ensures
        s == look.text_style(emphasised, selected),
{
    let style = if emphasised {
        emph_style(kind)
    } else {
        base_style(kind)
    };
    if selected {
        Style { reversed: true, ..style }
    } else {
        style
    }
}

/// Adds a piece to the glyphs of its line.
fn push_glyph(
    glyphs: &mut Vec<VisualGlyph>,
    piece: &Piece,
    col: u128,
    Ghost(look): Ghost<Look>,
    Ghost(line): Ghost<Seq<PieceView>>,
    Ghost(start): Ghost<nat>,
)
    requires
        old(glyphs)@ == look.glyphs(line, start),
        col == look.gutter + start + total_cols(line),
        col <= 0xffff_ffff_ffff_ffff_ffff,
    ensures
        final(glyphs)@ == look.glyphs(line.push(piece@), start),
{
    assert(line.push(piece@).drop_last() =~= line);
    if piece.cols > 0 {
        glyphs.push(
            VisualGlyph {
                columns: clipped(col)..clipped(col + piece.cols as u128),
                bytes: piece.start..piece.end,
            },
        );
    } else if let Some(last) = glyphs.pop() {
        let ghost before = look.glyphs(line, start);
        let glyph = VisualGlyph { columns: last.columns, bytes: last.bytes.start..piece.end };
        glyphs.push(glyph);
        assert(glyphs@ =~= before.update(before.len() - 1, glyph));
    }
}

/// Fills a line up to the end of its pane and makes it a segment.
fn close_segment(
    spans: Vec<Span>,
    glyphs: Vec<VisualGlyph>,
    used: u128,
    budget: usize,
    kind: Kind,
    Ghost(look): Ghost<Look>,
    Ghost(k): Ghost<int>,
    Ghost(line): Ghost<Seq<PieceView>>,
) -> (segment: CellSegment)
    requires
        look.cell.kind == kind,
        look.budget == budget,
        span_views(spans@) == seq![look.gutter_span(k)] + look.runs(line),
        glyphs@ == look.glyphs(line, line_start(k, look.indent)),
        used == line_start(k, look.indent) + total_cols(line),
    ensures
        segment@ == look.segment(k, line),
{
    let mut spans = spans;
    let ghost before = spans@;
    if used < budget as u128 {
        let span = Span { content: spaces(budget - used as usize), style: base_style(kind) };
        proof {
            lemma_span_views_push(spans@, span);
        }
        spans.push(span);
    }
    assert(span_views(spans@) =~= look.segment(k, line).spans);
    CellSegment { spans, glyphs }
}

/// The segments of a cell whose text falls into the given pieces.
#[verifier::rlimit(40)]
pub fn segments_from(
    cell: &Cell,
    pieces: &Vec<Piece>,
    width: usize,
    gutter_w: usize,
    selected: &Option<Range<usize>>,
) -> (r: Vec<CellSegment>)
    requires
        forall|i: int| 0 <= i < pieces@.len() ==> (#[trigger] pieces@[i]).text@.len() > 0,
    ensures
        segment_views(r@) == segments_of(
            cell@,
            piece_views(pieces@),
            width as nat,
            gutter_w as nat,
            *selected,
        ),
{
    let gutter: usize = if gutter_w < width {
        gutter_w
    } else {
        width
    };
    let budget: usize = width - gutter;
    let indent: usize = hang_of(pieces, budget);
    let ghost all = piece_views(pieces@);
    let ghost look = Look::of(cell@, all, width as nat, gutter_w as nat, *selected);
    let base = base_style(cell.kind);
    let gutter_style = Style { fg: Some(Color::DarkGray), ..base };
    let tab = "\t".to_owned();

    let mut segs: Vec<CellSegment> = Vec::new();
    let mut spans: Vec<Span> = Vec::new();
    let mut glyphs: Vec<VisualGlyph> = Vec::new();
    let mut used: u128 = 0;
    let mut cur = String::new();
    let mut cur_emph = false;
    let mut cur_selected = false;
    let mut i: usize = 0;
    spans.push(Span { content: gutter_text(cell.no, gutter), style: gutter_style });
    let ghost mut lines = wrapped(all.take(0), look.budget, look.indent);
    proof {
        assert(lines =~= seq![Seq::<PieceView>::empty()]);
        assert(span_views(spans@) =~= seq![look.gutter_span(0)]);
        assert(span_views(spans@) + growing(cur@, look.text_style(false, false)) =~= seq![
            look.gutter_span(0),
        ] + look.runs(lines.last()));
        assert(segment_views(segs@) =~= look.segments(lines.drop_last()));
    }
    while i < pieces.len()
        invariant
            forall|j: int| 0 <= j < pieces@.len() ==> (#[trigger] pieces@[j]).text@.len() > 0,
            all == piece_views(pieces@),
            look == Look::of(cell@, all, width as nat, gutter_w as nat, *selected),
            look.gutter == gutter,
            look.budget == budget,
            look.indent == indent,
            gutter + budget == width,
            indent <= budget,
            gutter_style == look.gutter_style(),
            tab@ == "\t"@,
            i <= pieces@.len(),
            lines == wrapped(all.take(i as int), look.budget, look.indent),
            lines.len() > 0,
            segment_views(segs@) == look.segments(lines.drop_last()),
            used == used_cols(lines, look.indent),
            used <= 2 * usize::MAX as u128,
            glyphs@ == look.glyphs(lines.last(), line_start(lines.len() - 1, look.indent)),
            span_views(spans@) + growing(cur@, look.text_style(cur_emph, cur_selected)) == seq![
                look.gutter_span(lines.len() - 1),
            ] + look.runs(lines.last()),
            cur@.len() == 0 <==> lines.last().len() == 0,
            lines.last().len() > 0 ==> cur_emph == look.emphasised(lines.last().last().start)
                && cur_selected == look.is_selected(lines.last().last().start),
        decreases pieces@.len() - i,
    {
        let piece = &pieces[i];
        let ghost p = piece@;
        proof {
            assert(all.take(i + 1).drop_last() =~= all.take(i as int));
            assert(all.take(i + 1).last() == p);
        }
        if piece.cols > budget {
            // wider than the whole pane: dropped
            i += 1;
            continue ;
        }
        if used + piece.cols as u128 > budget as u128 && used > 0 {
            // the line is full: start a continuation
            let ghost k = lines.len() - 1;
            let style = run_style(cell.kind, cur_emph, cur_selected, Ghost(look));
            flush_run(&mut spans, &mut cur, style);
            let mut done: Vec<Span> = Vec::new();
            let mut done_glyphs: Vec<VisualGlyph> = Vec::new();
            std::mem::swap(&mut done, &mut spans);
            std::mem::swap(&mut done_glyphs, &mut glyphs);
            let segment = close_segment(
                done,
                done_glyphs,
                used,
                budget,
                cell.kind,
                Ghost(look),
                Ghost(k),
                Ghost(lines.last()),
            );
            let ghost before = segs@;
            segs.push(segment);
            spans.push(Span { content: spaces(gutter + indent), style: gutter_style });
            used = indent as u128;
            proof {
                let more = lines.push(Seq::<PieceView>::empty());
                assert(segment_views(segs@) =~= segment_views(before).push(segment@));
                assert(more.drop_last() =~= lines);
                assert(look.segments(lines) =~= look.segments(lines.drop_last()).push(segment@));
                assert(span_views(spans@) =~= seq![look.gutter_span(more.len() - 1)]);
                lines = more;
                assert(span_views(spans@) + growing(
                    cur@,
                    look.text_style(cur_emph, cur_selected),
                ) =~= seq![look.gutter_span(lines.len() - 1)] + look.runs(lines.last()));
            }
        }
        let ghost line = lines.last();
        let ghost longer = line.push(p);
        let ghost head = seq![look.gutter_span(lines.len() - 1)];
        proof {
            assert(longer.drop_last() =~= line);
            lines = lines.update(lines.len() - 1, longer);
            assert(lines =~= wrapped(all.take(i + 1), look.budget, look.indent));
            assert(look.segments(lines.drop_last()) =~= segment_views(segs@));
        }
        let in_emph = in_emph(&cell.emph, piece.start, Ghost(look));
        let in_selected = match selected {
            Some(range) => range.start <= piece.start && piece.start < range.end,
            None => false,
        };
        if in_emph != cur_emph || in_selected != cur_selected {
            let style = run_style(cell.kind, cur_emph, cur_selected, Ghost(look));
            flush_run(&mut spans, &mut cur, style);
        }
        let ghost before = cur@;
        cur_emph = in_emph;
        cur_selected = in_selected;
        push_glyph(
            &mut glyphs,
            piece,
            gutter as u128 + used,
            Ghost(look),
            Ghost(line),
            Ghost(line_start(lines.len() - 1, look.indent)),
        );
        if piece.text == tab {
            push_all(&mut cur, spaces(4).as_str());
        } else {
            push_all(&mut cur, piece.text.as_str());
        }
        used = used + piece.cols as u128;
        proof {
            assert(cur@ == before + shown(p));
            let style = look.text_style(cur_emph, cur_selected);
            if before.len() > 0 {
                lemma_run_goes_on(look, line, p, head, span_views(spans@), before, style);
            } else {
                assert(span_views(spans@) =~= head + look.runs(line));
                lemma_run_begins(look, line, p, head);
                assert(cur@ =~= shown(p));
            }
        }
        i += 1;
    }
    let ghost k = lines.len() - 1;
    let style = run_style(cell.kind, cur_emph, cur_selected, Ghost(look));
    flush_run(&mut spans, &mut cur, style);
    let segment = close_segment(
        spans,
        glyphs,
        used,
        budget,
        cell.kind,
        Ghost(look),
        Ghost(k),
        Ghost(lines.last()),
    );
    let ghost before = segs@;
    segs.push(segment);
    proof {
        assert(all.take(i as int) =~= all);
        assert(segment_views(segs@) =~= segment_views(before).push(segment@));
        assert(look.segments(lines) =~= look.segments(lines.drop_last()).push(segment@));
    }
    segs
}

/// One pane of a row as visual lines, wrapped at the pane's width; the first
/// carries the line number, continuations get a blank gutter.
pub fn cell_segments(
    cell: Option<&Cell>,
    width: usize,
    gutter_w: usize,
    selected: Option<Range<usize>>,
) -> (r: Vec<CellSegment>)
    ensures
        segment_views(r@) == side_segments(
            match cell {
                Some(c) => Some(c@),
                None => None,
            },
            width as nat,
            gutter_w as nat,
            selected,
        ),
        cell matches Some(c) ==> forall|k: int|
            0 <= k < r@.len() ==> glyphs_in_text(c.text@, (#[trigger] r@[k]).glyphs@),
{
    match cell {
        None => {
            let mut r: Vec<CellSegment> = Vec::new();
            r.push(CellSegment { spans: dead_fill(width), glyphs: Vec::new() });
            assert(segment_views(r@) =~= side_segments(
                None,
                width as nat,
                gutter_w as nat,
                selected,
            ));
            r
        },
        Some(c) => {
            let found = pieces(c.text.as_str());
            assert forall|i: int| 0 <= i < found@.len() implies (#[trigger] found@[i]).text@.len()
                > 0 by {
                assert(piece_views(found@)[i] == found@[i]@);
            }
            let len: usize = len_of(c.text.as_str());
            let r = segments_from(c, &found, width, gutter_w, &selected);
            proof {
                let pieces = piece_views(found@);
                assert(len == byte_len(c@.text));
                law_glyphs_in_text(c@, pieces, width as nat, gutter_w as nat, selected);
                assert forall|k: int| 0 <= k < r@.len() implies glyphs_in_text(
                    c.text@,
                    (#[trigger] r@[k]).glyphs@,
                ) by {
                    assert(segment_views(r@)[k] == r@[k]@);
                }
            }
            r
        },
    }
}

/// How many lines a row takes: the taller of its sides.
pub open spec fn row_lines(row: RowView, left_w: nat, right_w: nat, gutter_w: nat) -> nat {
    match row {
        RowView::Line { left, right } => {
            let l = side_segments(left, left_w, gutter_w, None).len();
            let r = side_segments(right, right_w, gutter_w, None).len();
            if l < r {
                r
            } else {
                l
            }
        },
        _ => 1,
    }
}

/// How many lines a row takes.
pub fn row_height(row: &Row, left_w: usize, right_w: usize, gutter_w: usize) -> (n: usize)
    ensures
        n == row_lines(row@, left_w as nat, right_w as nat, gutter_w as nat),
{
    match row {
        Row::Line { left, right } => {
            let ls = cell_segments(left.as_ref(), left_w, gutter_w, None);
            let rs = cell_segments(right.as_ref(), right_w, gutter_w, None);
            let l: usize = ls.len();
            let r: usize = rs.len();
            assert(segment_views(ls@).len() == l);
            assert(segment_views(rs@).len() == r);
            if l < r {
                r
            } else {
                l
            }
        },
        _ => 1,
    }
}

/// Selecting text does not change how many lines a side of a row takes, and it
/// takes at least one.
pub proof fn law_selection_keeps_height(
    side: Option<CellView>,
    width: nat,
    gutter_w: nat,
    selected: Option<Range<usize>>,
)
    ensures
        side_segments(side, width, gutter_w, selected).len() == side_segments(
            side,
            width,
            gutter_w,
            None,
        ).len(),
        side_segments(side, width, gutter_w, selected).len() > 0,
{
    if let Some(cell) = side {
        let pieces = pieces_of(cell.text);
        let look = Look::of(cell, pieces, width, gutter_w, selected);
        lemma_wrapped_nonempty(pieces, look.budget, look.indent);
    }
}

/// The text of some spans.
pub open spec fn spans_text(spans: Seq<SpanView>) -> Seq<char>
    decreases spans.len(),
{
    if spans.len() == 0 {
        seq![]
    } else {
        spans_text(spans.drop_last()) + spans.last().content
    }
}

/// What some pieces look like, one behind the other.
pub open spec fn shown_text(line: Seq<PieceView>) -> Seq<char>
    decreases line.len(),
{
    if line.len() == 0 {
        seq![]
    } else {
        shown_text(line.drop_last()) + shown(line.last())
    }
}

/// Emphasis and selection change the style of a line and nothing of its text.
pub proof fn law_styling_keeps_the_text(look: Look, line: Seq<PieceView>)
    ensures
        spans_text(look.runs(line)) == shown_text(line),
    decreases line.len(),
{
    if line.len() > 0 {
        let front = line.drop_last();
        let before = look.runs(front);
        let after = look.runs(line);
        let p = line.last();
        law_styling_keeps_the_text(look, front);
        if line.len() > 1 && look.alike(line[line.len() - 2], p) {
            lemma_runs_nonempty(look, front);
            assert(after.drop_last() =~= before.drop_last());
            assert(spans_text(after) =~= spans_text(before) + shown(p));
        } else {
            assert(after.drop_last() =~= before);
        }
    }
}

/// The divider does not drift: every line of a cell takes the columns of its pane,
/// gutter, text and blanks together, unless it is a continuation that holds a
/// single cluster wider than a tab.
pub proof fn law_lines_fill_the_pane(
    cell: CellView,
    pieces: Seq<PieceView>,
    width: nat,
    gutter_w: nat,
    selected: Option<Range<usize>>,
)
    ensures
        ({
            let look = Look::of(cell, pieces, width, gutter_w, selected);
            let lines = wrapped(pieces, look.budget, look.indent);
            forall|k: int|
                0 <= k < lines.len() ==> {
                    let line = #[trigger] lines[k];
                    let used = line_start(k, look.indent) + total_cols(line);
                    look.gutter_span(k).content.len() + total_cols(line) + spans_text(
                        look.padding(used),
                    ).len() == width || (k > 0 && line.len() == 1 && line[0].cols > 4)
                }
        }),
{
    let look = Look::of(cell, pieces, width, gutter_w, selected);
    let lines = wrapped(pieces, look.budget, look.indent);
    law_lines_fit(pieces, look.budget);
    assert forall|k: int| 0 <= k < lines.len() implies {
        let line = #[trigger] lines[k];
        let used = line_start(k, look.indent) + total_cols(line);
        look.gutter_span(k).content.len() + total_cols(line) + spans_text(
            look.padding(used),
        ).len() == width || (k > 0 && line.len() == 1 && line[0].cols > 4)
    } by {
        let line = lines[k];
        let used = line_start(k, look.indent) + total_cols(line);
        reveal_with_fuel(spans_text, 2);
        if used < look.budget {
            assert(look.padding(used).drop_last() =~= Seq::<SpanView>::empty());
        }
        assert(number_gutter(cell.no, look.gutter).len() == look.gutter);
    }
}

/// The glyphs of a line lie side by side, in order and without a gap, from where the
/// line begins right of the gutter to where it ends.
pub proof fn law_glyphs_lie_side_by_side(look: Look, line: Seq<PieceView>, start: nat)
    requires
        look.gutter + start + total_cols(line) <= usize::MAX,
    ensures
        ({
            let glyphs = look.glyphs(line, start);
            &&& forall|i: int|
                0 <= i < glyphs.len() ==> {
                    let columns = (#[trigger] glyphs[i]).columns;
                    look.gutter + start <= columns.start < columns.end <= look.gutter + start
                        + total_cols(line)
                }
            &&& forall|i: int, j: int|
                0 <= i < j < glyphs.len() ==> (#[trigger] glyphs[i]).columns.end <= (
                #[trigger] glyphs[j]).columns.start
            &&& forall|i: int, j: int|
                0 <= i < glyphs.len() && j == i + 1 && j < glyphs.len() ==> (
                #[trigger] glyphs[i]).columns.end == (#[trigger] glyphs[j]).columns.start
            &&& glyphs.len() > 0 ==> glyphs[0].columns.start == look.gutter + start
                && glyphs.last().columns.end == look.gutter + start + total_cols(line)
            &&& glyphs.len() == 0 ==> total_cols(line) == 0
        }),
    decreases line.len(),
{
    if line.len() > 0 {
        let front = line.drop_last();
        law_glyphs_lie_side_by_side(look, front, start);
        let before = look.glyphs(front, start);
        let glyphs = look.glyphs(line, start);
        assert forall|i: int| 0 <= i < glyphs.len() implies {
            let columns = (#[trigger] glyphs[i]).columns;
            look.gutter + start <= columns.start < columns.end <= look.gutter + start
                + total_cols(line)
        } by {
            if i < before.len() {
                assert(before[i].columns == glyphs[i].columns);
            }
        }
        assert forall|i: int, j: int| 0 <= i < j < glyphs.len() implies (
        #[trigger] glyphs[i]).columns.end <= (#[trigger] glyphs[j]).columns.start by {
            assert(before[i].columns == glyphs[i].columns);
            if j < before.len() {
                assert(before[j].columns == glyphs[j].columns);
            }
        }
        assert forall|i: int, j: int|
            0 <= i < glyphs.len() && j == i + 1 && j < glyphs.len() implies (
        #[trigger] glyphs[i]).columns.end == (#[trigger] glyphs[j]).columns.start by {
            assert(before[i].columns == glyphs[i].columns);
            if j < before.len() {
                assert(before[j].columns == glyphs[j].columns);
            }
        }
        if before.len() > 0 {
            assert(before[0].columns == glyphs[0].columns);
        }
    }
}

/// Whether byte ranges lie one behind the other, without a gap, from `from` to `to`,
/// and none is empty.
pub open spec fn adjoin(ranges: Seq<Range<usize>>, from: nat, to: nat) -> bool
    decreases ranges.len(),
{
    if ranges.len() == 0 {
        from == to
    } else {
        let last = ranges.last();
        &&& last.start < last.end
        &&& last.end == to
        &&& adjoin(ranges.drop_last(), from, last.start as nat)
    }
}

/// The bytes of some glyphs.
pub open spec fn glyph_bytes(glyphs: Seq<VisualGlyph>) -> Seq<Range<usize>> {
    glyphs.map_values(|g: VisualGlyph| g.bytes)
}

impl Look {
    /// Whether a piece fits on a continuation, by itself.
    pub open spec fn fits_behind_indent(self, p: PieceView) -> bool {
        self.indent + p.cols <= self.budget
    }

    /// The bytes of the glyphs on all the lines, from top to bottom.
    pub open spec fn bytes_on(self, lines: Seq<Seq<PieceView>>) -> Seq<Range<usize>>
        decreases lines.len(),
    {
        if lines.len() == 0 {
            seq![]
        } else {
            self.bytes_on(lines.drop_last()) + glyph_bytes(
                self.glyphs(lines.last(), line_start(lines.len() - 1, self.indent)),
            )
        }
    }
}

/// Where no cluster is dropped, and every one that has no columns follows one that
/// fits behind the indent, the glyphs of a cell share its text out among them: every
/// byte belongs to one glyph, in order.
pub proof fn law_glyphs_share_out_the_text(
    cell: CellView,
    pieces: Seq<PieceView>,
    width: nat,
    gutter_w: nat,
    selected: Option<Range<usize>>,
)
    requires
        tile(cell.text, pieces),
        byte_len(cell.text) <= usize::MAX,
        forall|i: int|
            0 <= i < pieces.len() ==> (#[trigger] pieces[i]).cols <= Look::of(
                cell,
                pieces,
                width,
                gutter_w,
                selected,
            ).budget,
        forall|i: int|
            0 <= i < pieces.len() && (#[trigger] pieces[i]).cols == 0 ==> i > 0 && Look::of(
                cell,
                pieces,
                width,
                gutter_w,
                selected,
            ).fits_behind_indent(pieces[i - 1]),
    ensures
        ({
            let look = Look::of(cell, pieces, width, gutter_w, selected);
            let lines = wrapped(pieces, look.budget, look.indent);
            adjoin(look.bytes_on(lines), 0, byte_len(cell.text))
        }),
{
    let look = Look::of(cell, pieces, width, gutter_w, selected);
    let texts = piece_texts(pieces);
    let n = pieces.len() as int;
    lemma_shared_out(cell.text, pieces, look, n);
    assert(pieces.take(n) =~= pieces);
    assert(texts.take(n) =~= texts);
}

/// The same of the first pieces of a text.
proof fn lemma_shared_out(text: Seq<char>, pieces: Seq<PieceView>, look: Look, n: int)
    requires
        tile(text, pieces),
        byte_len(text) <= usize::MAX,
        0 <= n <= pieces.len(),
        forall|i: int| 0 <= i < pieces.len() ==> (#[trigger] pieces[i]).cols <= look.budget,
        forall|i: int|
            0 <= i < pieces.len() && (#[trigger] pieces[i]).cols == 0 ==> i > 0
                && look.fits_behind_indent(pieces[i - 1]),
    ensures
        ({
            let lines = wrapped(pieces.take(n), look.budget, look.indent);
            let glyphs = look.glyphs(lines.last(), line_start(lines.len() - 1, look.indent));
            &&& adjoin(
                look.bytes_on(lines),
                0,
                byte_len(concat(piece_texts(pieces).take(n))),
            )
            &&& n > 0 ==> glyphs.len() > 0
            &&& used_cols(lines, look.indent) <= look.budget || (n > 0 && !look.fits_behind_indent(
                pieces[n - 1],
            ))
        }),
    decreases n,
{
    let lines = wrapped(pieces.take(n), look.budget, look.indent);
    let texts = piece_texts(pieces);
    if n == 0 {
        assert(lines.drop_last() =~= Seq::<Seq<PieceView>>::empty());
        reveal_with_fuel(Look::bytes_on, 2);
        assert(look.bytes_on(lines) =~= Seq::<Range<usize>>::empty());
        assert(texts.take(0) =~= Seq::<Seq<char>>::empty());
        assert(byte_len(Seq::<char>::empty()) == 0);
    } else {
        let before = wrapped(pieces.take(n - 1), look.budget, look.indent);
        let p = pieces[n - 1];
        assert(pieces.take(n).drop_last() =~= pieces.take(n - 1));
        assert(pieces.take(n).last() == p);
        lemma_shared_out(text, pieces, look, n - 1);
        lemma_wrapped_nonempty(pieces.take(n - 1), look.budget, look.indent);
        lemma_piece_part(text, pieces, n - 1);
        assert(p.end <= byte_len(text));
        let old_bytes = look.bytes_on(before);
        let bytes = look.bytes_on(lines);
        if lines.len() > before.len() {
            lemma_bytes_on_new_line(look, before, p);
            assert(bytes.drop_last() =~= old_bytes);
            assert(total_cols(seq![p]) == p.cols) by {
                reveal_with_fuel(total_cols, 2);
                assert(seq![p].drop_last() =~= Seq::<PieceView>::empty());
            }
        } else {
            lemma_bytes_on_longer_line(look, before, p);
            assert(before.last().push(p).drop_last() =~= before.last());
            if p.cols > 0 {
                assert(bytes.drop_last() =~= old_bytes);
            } else {
                assert(bytes.drop_last() =~= old_bytes.drop_last());
            }
        }
    }
}

/// The bytes of a piece.
spec fn piece_bytes(p: PieceView) -> Range<usize> {
    Range { start: p.start as usize, end: p.end as usize }
}

/// A piece on a line of its own adds a glyph.
proof fn lemma_bytes_on_new_line(look: Look, before: Seq<Seq<PieceView>>, p: PieceView)
    requires
        p.cols > 0,
    ensures
        look.bytes_on(before.push(seq![p])) == look.bytes_on(before).push(piece_bytes(p)),
        look.glyphs(seq![p], line_start(before.len() as int, look.indent)).len() == 1,
{
    let lines = before.push(seq![p]);
    let glyphs = look.glyphs(seq![p], line_start(before.len() as int, look.indent));
    assert(lines.drop_last() =~= before);
    assert(seq![p].drop_last() =~= Seq::<PieceView>::empty());
    reveal_with_fuel(Look::glyphs, 2);
    assert(glyph_bytes(glyphs) =~= seq![piece_bytes(p)]);
    assert(look.bytes_on(lines) =~= look.bytes_on(before).push(piece_bytes(p)));
}

/// A piece behind others adds a glyph, or lengthens the last one where it has no
/// columns.
proof fn lemma_bytes_on_longer_line(look: Look, before: Seq<Seq<PieceView>>, p: PieceView)
    requires
        before.len() > 0,
        p.cols > 0 || look.glyphs(
            before.last(),
            line_start(before.len() - 1, look.indent),
        ).len() > 0,
    ensures
        ({
            let lines = before.update(before.len() - 1, before.last().push(p));
            let old_bytes = look.bytes_on(before);
            let start = line_start(before.len() - 1, look.indent);
            &&& p.cols > 0 ==> look.bytes_on(lines) == old_bytes.push(piece_bytes(p))
            &&& p.cols == 0 ==> old_bytes.len() > 0 && look.bytes_on(lines) == old_bytes.update(
                old_bytes.len() - 1,
                Range { start: old_bytes.last().start, end: p.end as usize },
            )
            &&& look.glyphs(before.last().push(p), start).len() > 0
        }),
{
    let k = before.len() - 1;
    let start = line_start(k, look.indent);
    let line = before.last().push(p);
    let lines = before.update(k, line);
    let upper = look.bytes_on(before.drop_last());
    let old_glyphs = look.glyphs(before.last(), start);
    let glyphs = look.glyphs(line, start);
    assert(lines.drop_last() =~= before.drop_last());
    assert(line.drop_last() =~= before.last());
    if p.cols > 0 {
        assert(glyph_bytes(glyphs) =~= glyph_bytes(old_glyphs).push(piece_bytes(p)));
        assert(look.bytes_on(lines) =~= look.bytes_on(before).push(piece_bytes(p)));
    } else {
        let old_bytes = look.bytes_on(before);
        let longer = Range { start: old_bytes.last().start, end: p.end as usize };
        assert(old_bytes.last() == old_glyphs.last().bytes);
        assert(look.bytes_on(lines) =~= old_bytes.update(old_bytes.len() - 1, longer));
    }
}

/// Whether the glyphs stand for pieces of the text.
pub open spec fn glyphs_in_text(text: Seq<char>, glyphs: Seq<VisualGlyph>) -> bool {
    forall|i: int|
        0 <= i < glyphs.len() ==> {
            let bytes = (#[trigger] glyphs[i]).bytes;
            &&& bytes.start < bytes.end
            &&& boundary(text, bytes.start as int)
            &&& boundary(text, bytes.end as int)
        }
}

/// Every glyph of a cell stands for whole characters of the cell's text.
pub proof fn law_glyphs_in_text(
    cell: CellView,
    pieces: Seq<PieceView>,
    width: nat,
    gutter_w: nat,
    selected: Option<Range<usize>>,
)
    requires
        tile(cell.text, pieces),
        byte_len(cell.text) <= usize::MAX,
    ensures
        forall|k: int|
            0 <= k < segments_of(cell, pieces, width, gutter_w, selected).len() ==> glyphs_in_text(
                cell.text,
                (#[trigger] segments_of(cell, pieces, width, gutter_w, selected)[k]).glyphs,
            ),
{
    let look = Look::of(cell, pieces, width, gutter_w, selected);
    let lines = wrapped(pieces, look.budget, look.indent);
    let segments = segments_of(cell, pieces, width, gutter_w, selected);
    assert(pieces.take(pieces.len() as int) =~= pieces);
    lemma_lines_ordered(cell.text, pieces, pieces.len() as int, look.budget, look.indent);
    assert forall|k: int| 0 <= k < segments.len() implies glyphs_in_text(
        cell.text,
        (#[trigger] segments[k]).glyphs,
    ) by {
        assert(ordered(cell.text, lines[k]));
        lemma_line_glyphs(cell.text, look, lines[k], line_start(k, look.indent));
    }
}

proof fn lemma_line_glyphs(text: Seq<char>, look: Look, line: Seq<PieceView>, start: nat)
    requires
        ordered(text, line),
        byte_len(text) <= usize::MAX,
    ensures
        glyphs_in_text(text, look.glyphs(line, start)),
        line.len() == 0 ==> look.glyphs(line, start).len() == 0,
        forall|i: int|
            0 <= i < look.glyphs(line, start).len() ==> (#[trigger] look.glyphs(
                line,
                start,
            )[i]).bytes.end <= line.last().end,
    decreases line.len(),
{
    if line.len() > 0 {
        let front = line.drop_last();
        assert(ordered(text, front));
        lemma_line_glyphs(text, look, front, start);
        let before = look.glyphs(front, start);
        let glyphs = look.glyphs(line, start);
        let p = line.last();
        assert(part_of(text, p));
        if front.len() > 0 {
            assert(front.last() == line[line.len() - 2]);
            assert(front.last().end <= p.start);
        }
        assert forall|i: int| 0 <= i < glyphs.len() implies {
            let bytes = (#[trigger] glyphs[i]).bytes;
            &&& bytes.start < bytes.end
            &&& boundary(text, bytes.start as int)
            &&& boundary(text, bytes.end as int)
            &&& bytes.end <= p.end
        } by {
            if i < before.len() {
                assert(before[i].bytes.end <= front.last().end);
            }
        }
    }
}

} // verus!
