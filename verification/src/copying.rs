//! What holds of copied text.

use vstd::prelude::*;

use crate::bytes::{byte_len, byte_slice};
use crate::diff::RowView;
use crate::events::{copied_message, line_count};
use crate::reading::ended;
use crate::render::selected_in;
use crate::selection::{Hit, Pane, Selection};
use crate::state::AppView;
use crate::text::{decimal, joined};

verus! {

/// The line of a file that a row shows in a pane.
pub open spec fn line_in(app: AppView, pane: Pane, row: int) -> Option<Seq<char>> {
    match (pane, app.rows[row]) {
        (Pane::Left, RowView::Line { left: Some(cell), .. }) => Some(cell.text),
        (Pane::Right, RowView::Line { right: Some(cell), .. }) => Some(cell.text),
        _ => None,
    }
}

/// Whether a row lies below the header of a collapsed section, in that section.
pub open spec fn is_collapsed_away(app: AppView, row: int) -> bool {
    exists|i: int|
        0 <= i < app.sections.len() && (#[trigger] app.sections[i]).collapsed
            && app.sections[i].header < row < app.sections[i].body.end
}

/// Whether a row shows a line of a file in a pane.
pub open spec fn shows_line(app: AppView, pane: Pane) -> spec_fn(int) -> bool {
    |row: int| !is_collapsed_away(app, row) && line_in(app, pane, row) is Some
}

/// The numbers from `from` up to `to`.
pub open spec fn numbers(from: int, to: int) -> Seq<int> {
    Seq::new(
        if from < to {
            (to - from) as nat
        } else {
            0
        },
        |i: int| from + i,
    )
}

/// Those of the rows from `from` up to `to` that show a line of a file in a pane.
pub open spec fn lines_shown(app: AppView, pane: Pane, from: int, to: int) -> Seq<int> {
    numbers(from, to).filter(shows_line(app, pane))
}

/// The piece of a row's line between two glyphs: from the first one on, where it stands
/// in the row, and up to the end of the last one, where that does.
pub open spec fn piece_between(app: AppView, pane: Pane, from: Hit, to: Hit, row: int) -> Seq<
    char,
> {
    let line = line_in(app, pane, row)->0;
    byte_slice(
        line,
        if row == from.row {
            from.start as int
        } else {
            0
        },
        if row == to.row {
            to.end as int
        } else {
            byte_len(line) as int
        },
    )
}

/// The pieces of the rows between two glyphs, one for every row that shows a line.
pub open spec fn pieces_between(app: AppView, pane: Pane, from: Hit, to: Hit) -> Seq<Seq<char>> {
    lines_shown(app, pane, from.row as int, to.row + 1).map_values(
        |row: int| piece_between(app, pane, from, to, row),
    )
}

/// Whether one glyph stands before another.
pub open spec fn stands_before(from: Hit, to: Hit) -> bool {
    from.row < to.row || (from.row == to.row && from.start < to.start)
}

/// Whether the lines that are shown in a pane have lengths that can be held.
pub open spec fn lines_held(app: AppView, pane: Pane) -> bool {
    forall|row: int|
        0 <= row < app.rows.len() ==> (#[trigger] line_in(app, pane, row) matches Some(line)
            ==> byte_len(line) <= usize::MAX)
}

/// One number more.
proof fn lemma_shown_push(app: AppView, pane: Pane, from: int, to: int)
    requires
        from < to,
    ensures
        lines_shown(app, pane, from, to) == if shows_line(app, pane)(to - 1) {
            lines_shown(app, pane, from, to - 1).push(to - 1)
        } else {
            lines_shown(app, pane, from, to - 1)
        },
{
    reveal(Seq::filter);
    assert(numbers(from, to).drop_last() =~= numbers(from, to - 1));
    assert(numbers(from, to).last() == to - 1);
}

/// The selected parts are the pieces of the rows, one by one.
proof fn lemma_parts(app: AppView, pane: Pane, from: Hit, to: Hit, end: int)
    requires
        app.is_text(pane, from),
        app.is_text(pane, to),
        stands_before(from, to),
        lines_held(app, pane),
        from.row <= end <= to.row + 1,
    ensures
        app.selected_parts(
            Selection { pane, anchor: from, head: to, dragged: true },
            from.row as int,
            end,
        ) == lines_shown(app, pane, from.row as int, end).map_values(
            |row: int| piece_between(app, pane, from, to, row),
        ),
    decreases end,
{
    let selection = Selection { pane, anchor: from, head: to, dragged: true };
    let piece = |row: int| piece_between(app, pane, from, to, row);
    let start = from.row as int;
    let parts = app.selected_parts(selection, start, end);
    let shown = lines_shown(app, pane, start, end);
    if end == start {
        reveal(Seq::filter);
        assert(parts =~= shown.map_values(piece));
    } else {
        let row = end - 1;
        lemma_parts(app, pane, from, to, row);
        lemma_shown_push(app, pane, start, end);
        let before = lines_shown(app, pane, start, row);
        assert(selection.first() == from && selection.last() == to);
        assert(app.visible(row) == !is_collapsed_away(app, row)) by {
            if is_collapsed_away(app, row) {
                let i = choose|i: int|
                    0 <= i < app.sections.len() && (#[trigger] app.sections[i]).collapsed
                        && app.sections[i].header < row < app.sections[i].body.end;
                assert(app.sections[i].hides(row));
            }
        }
        assert(line_in(app, pane, row) is Some == app.cell_at(pane, row) is Some);
        if shows_line(app, pane)(row) {
            let line = line_in(app, pane, row)->0;
            assert(app.cell_at(pane, row)->0.text == line);
            assert(byte_len(line) <= usize::MAX);
            assert(app.selected_bytes(selection, row) is Some);
            assert(parts == app.selected_parts(selection, start, row).push(piece(row)));
            assert(parts =~= shown.map_values(piece));
        } else {
            assert(app.selected_bytes(selection, row) is None);
            assert(parts =~= shown.map_values(piece));
        }
    }
}

/// One line more is at the end.
proof fn lemma_ended_push(lines: Seq<Seq<char>>, line: Seq<char>, end: Seq<char>)
    ensures
        ended(lines.push(line), end) == ended(lines, end) + line + end,
    decreases lines.len(),
{
    let all = lines.push(line);
    if lines.len() == 0 {
        assert(all.drop_first() =~= lines);
        assert(ended(lines, end) =~= Seq::<char>::empty());
        assert(ended(all, end) =~= ended(lines, end) + line + end);
    } else {
        assert(all.drop_first() =~= lines.drop_first().push(line));
        lemma_ended_push(lines.drop_first(), line, end);
        assert(ended(all, end) =~= ended(lines, end) + line + end);
    }
}

/// Lines joined by a separator are the lines with one behind each, but for the last.
proof fn lemma_joined_ended(parts: Seq<Seq<char>>, sep: Seq<char>)
    requires
        parts.len() > 0,
    ensures
        joined(parts, sep) + sep == ended(parts, sep),
    decreases parts.len(),
{
    let front = parts.drop_last();
    assert(front.push(parts.last()) =~= parts);
    lemma_ended_push(front, parts.last(), sep);
    if parts.len() == 1 {
        assert(front =~= Seq::<Seq<char>>::empty());
        assert(ended(front, sep) =~= Seq::<char>::empty());
        assert(joined(parts, sep) + sep =~= ended(parts, sep));
    } else {
        lemma_joined_ended(front, sep);
        assert(joined(parts, sep) + sep =~= ended(parts, sep));
    }
}

/// What is copied between two glyphs of a pane is the lines of the files that are shown
/// there, as they are in the files: exactly one for every row between the two that shows
/// a line in the pane, blank ones as well, in order, each on a line of its own. The first
/// one is cut in front of the first glyph, and the last one behind the last glyph.
pub proof fn law_every_line_between_is_copied(app: AppView, pane: Pane, from: Hit, to: Hit)
    requires
        app.is_text(pane, from),
        app.is_text(pane, to),
        stands_before(from, to),
        lines_held(app, pane),
    ensures
        ({
            let selection = Selection { pane, anchor: from, head: to, dragged: true };
            let pieces = pieces_between(app, pane, from, to);
            let copied = (AppView { selection: Some(selection), ..app }).text_to_copy();
            &&& copied is None <==> pieces.len() == 0 || (pieces.len() == 1 && pieces[0].len() == 0)
            &&& copied matches Some(text) ==> text + seq!['\n'] == ended(pieces, seq!['\n'])
            &&& app.selected_parts(selection, from.row as int, to.row + 1).len() == lines_shown(
                app,
                pane,
                from.row as int,
                to.row + 1,
            ).len()
        }),
{
    let selection = Selection { pane, anchor: from, head: to, dragged: true };
    let with = AppView { selection: Some(selection), ..app };
    let pieces = pieces_between(app, pane, from, to);
    assert forall|row: int|
        0 <= row < with.rows.len() implies (#[trigger] line_in(with, pane, row) matches Some(line)
        ==> byte_len(line) <= usize::MAX) by {
        assert(line_in(with, pane, row) == line_in(app, pane, row));
    }
    lemma_parts(with, pane, from, to, to.row + 1);
    lemma_parts(app, pane, from, to, to.row + 1);
    lemma_same_lines_shown(app, with, pane, from, to, to.row + 1);
    assert(selection.first() == from && selection.last() == to);
    reveal_strlit("\n");
    assert("\n"@ =~= seq!['\n']);
    if pieces.len() > 0 {
        lemma_joined_ended(pieces, "\n"@);
    }
    if pieces.len() > 1 {
        assert(joined(pieces, "\n"@).len() > 0);
    }
}

/// What is copied does not depend on what else is going on.
proof fn lemma_same_lines_shown(a: AppView, b: AppView, pane: Pane, from: Hit, to: Hit, end: int)
    requires
        a.rows == b.rows,
        a.sections == b.sections,
    ensures
        lines_shown(a, pane, from.row as int, end).map_values(
            |row: int| piece_between(a, pane, from, to, row),
        ) == lines_shown(b, pane, from.row as int, end).map_values(
            |row: int| piece_between(b, pane, from, to, row),
        ),
    decreases end - from.row,
{
    let start = from.row as int;
    let pa = |row: int| piece_between(a, pane, from, to, row);
    let pb = |row: int| piece_between(b, pane, from, to, row);
    if end <= start {
        reveal(Seq::filter);
        assert(lines_shown(a, pane, start, end).map_values(pa) =~= lines_shown(
            b,
            pane,
            start,
            end,
        ).map_values(pb));
    } else {
        lemma_same_lines_shown(a, b, pane, from, to, end - 1);
        lemma_shown_push(a, pane, start, end);
        lemma_shown_push(b, pane, start, end);
        assert(line_in(a, pane, end - 1) == line_in(b, pane, end - 1));
        assert(pa(end - 1) == pb(end - 1));
        assert(shows_line(a, pane)(end - 1) == shows_line(b, pane)(end - 1));
        let sa = lines_shown(a, pane, start, end - 1);
        let sb = lines_shown(b, pane, start, end - 1);
        assert(sa.push(end - 1).map_values(pa) =~= sa.map_values(pa).push(pa(end - 1)));
        assert(sb.push(end - 1).map_values(pb) =~= sb.map_values(pb).push(pb(end - 1)));
    }
}

/// Whether a text holds no line feed.
pub open spec fn is_one_line(s: Seq<char>) -> bool {
    forall|i: int| 0 <= i < s.len() ==> #[trigger] s[i] != '\n'
}

/// A text without line feeds has none.
proof fn lemma_no_newlines(s: Seq<char>)
    requires
        is_one_line(s),
    ensures
        s.filter(|c: char| c == '\n').len() == 0,
    decreases s.len(),
{
    reveal(Seq::filter);
    if s.len() > 0 {
        assert(s[s.len() - 1] != '\n');
        lemma_no_newlines(s.drop_last());
    }
}

/// As many lines have as many ends.
proof fn lemma_newlines_of(lines: Seq<Seq<char>>)
    requires
        forall|i: int| 0 <= i < lines.len() ==> is_one_line(#[trigger] lines[i]),
    ensures
        ended(lines, seq!['\n']).filter(|c: char| c == '\n').len() == lines.len(),
    decreases lines.len(),
{
    let newline = |c: char| c == '\n';
    if lines.len() == 0 {
        reveal(Seq::filter);
    } else {
        let rest = lines.drop_first();
        assert forall|i: int| 0 <= i < rest.len() implies is_one_line(#[trigger] rest[i]) by {
            assert(rest[i] == lines[i + 1]);
        }
        lemma_newlines_of(rest);
        lemma_no_newlines(lines[0]);
        let end = seq!['\n'];
        Seq::filter_distributes_over_add(lines[0] + end, ended(rest, end), newline);
        Seq::filter_distributes_over_add(lines[0], end, newline);
        assert(end.filter(newline).len() == 1) by {
            reveal(Seq::filter);
            assert(end.drop_last() =~= Seq::<char>::empty());
            assert(end.drop_last().filter(newline).len() == 0);
        }
    }
}

/// After a copy the user is told how many lines it has: as many as have been joined.
pub proof fn law_copied_lines_are_counted(lines: Seq<Seq<char>>)
    requires
        lines.len() > 0,
        forall|i: int| 0 <= i < lines.len() ==> is_one_line(#[trigger] lines[i]),
    ensures
        line_count(joined(lines, "\n"@)) == lines.len(),
        lines.len() == 1 ==> copied_message(joined(lines, "\n"@)) == " copied 1 line"@,
        lines.len() > 1 ==> copied_message(joined(lines, "\n"@)) == " copied "@ + decimal(
            lines.len(),
        ) + " lines"@,
{
    reveal_strlit("\n");
    assert("\n"@ =~= seq!['\n']);
    let newline = |c: char| c == '\n';
    let text = joined(lines, "\n"@);
    lemma_joined_ended(lines, "\n"@);
    lemma_newlines_of(lines);
    Seq::filter_distributes_over_add(text, "\n"@, newline);
    assert("\n"@.filter(newline).len() == 1) by {
        reveal(Seq::filter);
        assert("\n"@.drop_last() =~= Seq::<char>::empty());
        assert("\n"@.drop_last().filter(newline).len() == 0);
    }
    if lines.len() == 1 {
        reveal_strlit(" copied ");
        reveal_strlit(" line");
        reveal_strlit(" copied 1 line");
        assert(decimal(1) =~= seq!['1']);
        assert(copied_message(text) =~= " copied 1 line"@);
    }
}

/// What is copied of a row is what is drawn as selected.
pub proof fn law_what_is_copied_is_drawn_selected(app: AppView, row: int)
    requires
        0 <= row < app.rows.len(),
        app.selection is Some,
        app.visible(row),
    ensures
        ({
            let selection = app.selection->0;
            app.rows[row] matches RowView::Line { left, right } ==> {
                &&& app.selected_bytes(selection, row) == match selection.pane {
                    Pane::Left => selected_in(app.selection, Pane::Left, row as nat, left),
                    Pane::Right => selected_in(app.selection, Pane::Right, row as nat, right),
                }
                &&& match selection.pane {
                    Pane::Left => selected_in(app.selection, Pane::Right, row as nat, right),
                    Pane::Right => selected_in(app.selection, Pane::Left, row as nat, left),
                } is None
            }
        }),
{
}

} // verus!
