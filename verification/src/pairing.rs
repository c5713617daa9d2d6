//! What holds of deletions and additions side by side.

use vstd::prelude::*;

use crate::diff::{
    body_meaning, diff_rows, meaning, paired, CellView, Kind, Meaning, ParserView, Place, RowView,
};
use crate::reading::{
    hunk_header, law_hunk_header_is_read, lemma_other_start, lemma_step_wf, number_behind,
};
use crate::text::split_lines;

verus! {

// ---------------------------------------------------------------------------
// One run of changes
// ---------------------------------------------------------------------------

/// Whether a line of a hunk is no context: a deletion, an addition, or the note that
/// a file does not end in a newline.
pub open spec fn is_change_line(line: Seq<char>) -> bool {
    line.len() > 0 && (line[0] == '-' || line[0] == '+' || line[0] == '\\')
}

/// Whether a line begins with a sign.
pub open spec fn is_signed(sign: char) -> spec_fn(Seq<char>) -> bool {
    |line: Seq<char>| line.len() > 0 && line[0] == sign
}

/// Those of the lines that begin with a sign, without it.
pub open spec fn signed(lines: Seq<Seq<char>>, sign: char) -> Seq<Seq<char>> {
    lines.filter(is_signed(sign)).map_values(|line: Seq<char>| line.skip(1))
}

/// The larger of two numbers.
pub open spec fn most(a: nat, b: nat) -> nat {
    if a < b {
        b
    } else {
        a
    }
}

/// How many rows a run of changes takes.
pub open spec fn run_height(lines: Seq<Seq<char>>) -> nat {
    most(signed(lines, '-').len(), signed(lines, '+').len())
}

/// Whether a side of a row shows the `i`-th of some lines, numbered from `no` on, and
/// nothing where there are not so many.
pub open spec fn shows(
    side: Option<CellView>,
    texts: Seq<Seq<char>>,
    i: int,
    no: u32,
    kind: Kind,
) -> bool {
    if i < texts.len() {
        side matches Some(cell) && cell.text == texts[i] && cell.kind == kind && cell.no
            == number_behind(no, i as nat)
    } else {
        side is None
    }
}

/// Whether a row shows the `i`-th deletion of some lines beside their `i`-th addition.
pub open spec fn shows_pair(
    row: RowView,
    lines: Seq<Seq<char>>,
    i: int,
    old_no: u32,
    new_no: u32,
) -> bool {
    row matches RowView::Line { left, right } && shows(
        left,
        signed(lines, '-'),
        i,
        old_no,
        Kind::Del,
    ) && shows(right, signed(lines, '+'), i, new_no, Kind::Add)
}

/// Whether the rows from `at` on show the deletions and the additions among some lines
/// side by side.
pub open spec fn side_by_side(
    rows: Seq<RowView>,
    at: int,
    lines: Seq<Seq<char>>,
    old_no: u32,
    new_no: u32,
) -> bool {
    &&& at + run_height(lines) <= rows.len()
    &&& forall|i: int|
        0 <= i < run_height(lines) ==> shows_pair(#[trigger] rows[at + i], lines, i, old_no, new_no)
}

/// The cells of some lines that wait to be put in rows.
spec fn waits(cells: Seq<CellView>, texts: Seq<Seq<char>>, no: u32, kind: Kind) -> bool {
    &&& cells.len() == texts.len()
    &&& forall|i: int| 0 <= i < cells.len() ==> shows(Some(#[trigger] cells[i]), texts, i, no, kind)
}

/// The lines with a sign, one line more.
pub proof fn lemma_signed_push(lines: Seq<Seq<char>>, line: Seq<char>, sign: char)
    ensures
        signed(lines.push(line), sign) == if line.len() > 0 && line[0] == sign {
            signed(lines, sign).push(line.skip(1))
        } else {
            signed(lines, sign)
        },
{
    reveal(Seq::filter);
    assert(lines.push(line).drop_last() =~= lines);
    assert(signed(lines.push(line), sign) =~= if line.len() > 0 && line[0] == sign {
        signed(lines, sign).push(line.skip(1))
    } else {
        signed(lines, sign)
    });
}

/// Changes wait, in order and under consecutive numbers, until the run is over.
proof fn lemma_changes_wait(p: ParserView, lines: Seq<Seq<char>>)
    requires
        p.place == Place::Hunk,
        p.dels.len() == 0,
        p.adds.len() == 0,
        forall|i: int| 0 <= i < lines.len() ==> is_change_line(#[trigger] lines[i]),
    ensures
        p.steps(lines).place == Place::Hunk,
        p.steps(lines).rows == p.rows,
        p.steps(lines).section_start == p.section_start,
        waits(p.steps(lines).dels, signed(lines, '-'), p.old_no, Kind::Del),
        waits(p.steps(lines).adds, signed(lines, '+'), p.new_no, Kind::Add),
        p.steps(lines).old_no == number_behind(p.old_no, signed(lines, '-').len()),
        p.steps(lines).new_no == number_behind(p.new_no, signed(lines, '+').len()),
    decreases lines.len(),
{
    if lines.len() == 0 {
        reveal(Seq::filter);
    } else {
        let front = lines.drop_last();
        let line = lines.last();
        assert(line == lines[lines.len() - 1]);
        assert forall|i: int| 0 <= i < front.len() implies is_change_line(#[trigger] front[i]) by {
            assert(front[i] == lines[i]);
        }
        lemma_changes_wait(p, front);
        assert(front.push(line) =~= lines);
        lemma_signed_push(front, line, '-');
        lemma_signed_push(front, line, '+');
        lemma_body_line(Place::Hunk, line);
        let q = p.steps(front);
        let r = q.step(line);
        assert forall|i: int| 0 <= i < r.dels.len() implies shows(
            Some(#[trigger] r.dels[i]),
            signed(lines, '-'),
            i,
            p.old_no,
            Kind::Del,
        ) by {
            if i < q.dels.len() {
                assert(r.dels[i] == q.dels[i]);
            }
        }
        assert forall|i: int| 0 <= i < r.adds.len() implies shows(
            Some(#[trigger] r.adds[i]),
            signed(lines, '+'),
            i,
            p.new_no,
            Kind::Add,
        ) by {
            if i < q.adds.len() {
                assert(r.adds[i] == q.adds[i]);
            }
        }
    }
}

/// A line that begins as the lines of a hunk do is neither a hunk header nor the first
/// line of a file section.
pub proof fn lemma_body_line(place: Place, line: Seq<char>)
    requires
        place == Place::Hunk,
        line.len() == 0 || (line[0] != '@' && line[0] != 'd'),
    ensures
        meaning(place, line) == body_meaning(line),
{
    reveal_strlit("@@ ");
    reveal_strlit("diff --git ");
    lemma_other_start(line, "diff --git "@);
    lemma_other_start(line, "@@ "@);
}

/// A run of changes, once it is over, stands in the rows side by side.
proof fn lemma_run_in_rows(p: ParserView, lines: Seq<Seq<char>>, rows: Seq<RowView>)
    requires
        p.place == Place::Hunk,
        p.dels.len() == 0,
        p.adds.len() == 0,
        forall|i: int| 0 <= i < lines.len() ==> is_change_line(#[trigger] lines[i]),
        ({
            let flushed = p.steps(lines).pairs_flushed().rows;
            rows.len() >= flushed.len() && rows.take(flushed.len() as int) == flushed
        }),
    ensures
        p.steps(lines).pairs_flushed().rows.len() == p.rows.len() + run_height(lines),
        rows.len() >= p.rows.len() + run_height(lines),
        rows.take(p.rows.len() as int) == p.rows,
        side_by_side(rows, p.rows.len() as int, lines, p.old_no, p.new_no),
{
    lemma_changes_wait(p, lines);
    let q = p.steps(lines);
    let flushed = q.pairs_flushed().rows;
    let pairs = paired(q.dels, q.adds);
    let n = p.rows.len() as int;
    assert(pairs.len() == run_height(lines));
    assert forall|i: int| 0 <= i < n implies rows[i] == p.rows[i] by {
        assert(rows.take(flushed.len() as int)[i] == flushed[i]);
    }
    assert(rows.take(n) =~= p.rows);
    assert forall|i: int| 0 <= i < run_height(lines) implies shows_pair(
        #[trigger] rows[n + i],
        lines,
        i,
        p.old_no,
        p.new_no,
    ) by {
        assert(rows.take(flushed.len() as int)[n + i] == flushed[n + i]);
        assert(flushed[n + i] == pairs[i]);
        if i < q.dels.len() {
            assert(shows(Some(q.dels[i]), signed(lines, '-'), i, p.old_no, Kind::Del));
        }
        if i < q.adds.len() {
            assert(shows(Some(q.adds[i]), signed(lines, '+'), i, p.new_no, Kind::Add));
        }
    }
}

/// A run of deletions and additions with no context between them, in a hunk, takes as
/// many rows as the longer of the two: the first deletion stands beside the first
/// addition, the second beside the second and so on, each under its number, and what
/// is left of the longer one stands alone. So it is at the end of the diff, and as soon
/// as a line comes that is none of the run's.
pub proof fn law_runs_stand_side_by_side(p: ParserView, lines: Seq<Seq<char>>, next: Seq<char>)
    requires
        p.wf(),
        p.place == Place::Hunk,
        p.dels.len() == 0,
        p.adds.len() == 0,
        forall|i: int| 0 <= i < lines.len() ==> is_change_line(#[trigger] lines[i]),
        !is_change_line(next),
    ensures
        ({
            let at = p.rows.len() as int;
            let end = p.steps(lines).finished();
            let after = p.steps(lines).step(next);
            &&& end.take(at) == p.rows
            &&& side_by_side(end, at, lines, p.old_no, p.new_no)
            &&& p.section_start < at ==> end.len() == at + run_height(lines)
            &&& after.rows.take(at) == p.rows
            &&& side_by_side(after.rows, at, lines, p.old_no, p.new_no)
            &&& after.rows.len() > at + run_height(lines)
            &&& after.dels.len() == 0 && after.adds.len() == 0
        }),
{
    let q = p.steps(lines);
    let flushed = q.pairs_flushed();
    let end = q.finished();
    let after = q.step(next);
    lemma_changes_wait(p, lines);
    assert(end.take(flushed.rows.len() as int) =~= flushed.rows);
    lemma_run_in_rows(p, lines, end);
    assert(!(body_meaning(next) is Deletion));
    assert(!(body_meaning(next) is Addition));
    assert(!(body_meaning(next) is NoNewline));
    assert(after.rows.take(flushed.rows.len() as int) =~= flushed.rows);
    lemma_run_in_rows(p, lines, after.rows);
}

/// Context behind a run of changes stands below it, on both sides with the same text,
/// under the numbers that come next in either file.
pub proof fn law_context_stands_on_both_sides(
    p: ParserView,
    lines: Seq<Seq<char>>,
    text: Seq<char>,
)
    requires
        p.wf(),
        p.place == Place::Hunk,
        p.dels.len() == 0,
        p.adds.len() == 0,
        forall|i: int| 0 <= i < lines.len() ==> is_change_line(#[trigger] lines[i]),
    ensures
        ({
            let after = p.steps(lines).step(seq![' '] + text);
            &&& after.rows.len() == p.rows.len() + run_height(lines) + 1
            &&& after.rows.last() matches RowView::Line { left: Some(l), right: Some(r) } && l.text
                == text && r.text == text && l.kind == Kind::Ctx && r.kind == Kind::Ctx && l.no
                == number_behind(p.old_no, signed(lines, '-').len()) && r.no == number_behind(
                p.new_no,
                signed(lines, '+').len(),
            )
            &&& after.place == Place::Hunk
            &&& after.dels.len() == 0 && after.adds.len() == 0
            &&& after.old_no == number_behind(p.old_no, signed(lines, '-').len() + 1)
            &&& after.new_no == number_behind(p.new_no, signed(lines, '+').len() + 1)
        }),
{
    let line = seq![' '] + text;
    let flushed = p.steps(lines).pairs_flushed().rows;
    lemma_changes_wait(p, lines);
    assert(flushed.take(flushed.len() as int) =~= flushed);
    lemma_run_in_rows(p, lines, flushed);
    lemma_body_line(Place::Hunk, line);
    assert(line.skip(1) =~= text);
}

// ---------------------------------------------------------------------------
// Whole diffs
// ---------------------------------------------------------------------------

/// Whether a row shows a deletion or an addition.
pub open spec fn is_change(row: RowView) -> bool {
    row matches RowView::Line { left, right } && ((left matches Some(l) && l.kind == Kind::Del) || (
    right matches Some(r) && r.kind == Kind::Add))
}

/// Whether a row shows a line on one side only.
pub open spec fn is_lone(row: RowView) -> bool {
    row matches RowView::Line { left, right } && (left is None || right is None)
}

/// Whether, below a row that shows a line on one side only, the changes go on on that
/// side only.
pub open spec fn goes_on_alone(upper: RowView, lower: RowView) -> bool {
    is_lone(upper) && is_change(lower) ==> match (upper, lower) {
        (
            RowView::Line { left: l1, right: r1 },
            RowView::Line { left: l2, right: r2 },
        ) => (l1 is None ==> l2 is None) && (r1 is None ==> r2 is None),
        _ => true,
    }
}

/// Whether no two rows one below the other could have been one.
pub open spec fn none_unpaired(rows: Seq<RowView>) -> bool {
    forall|i: int, j: int|
        0 <= i < rows.len() && j == i + 1 && j < rows.len() ==> goes_on_alone(
            #[trigger] rows[i],
            #[trigger] rows[j],
        )
}

/// Whether no row is left that a run could go on at.
spec fn run_over(rows: Seq<RowView>) -> bool {
    rows.len() > 0 ==> !is_change(rows.last()) && !is_lone(rows.last())
}

/// A run goes on alone where one side of it is over.
proof fn lemma_flushed_paired(p: ParserView)
    requires
        none_unpaired(p.rows),
        run_over(p.rows),
    ensures
        none_unpaired(p.pairs_flushed().rows),
{
    let rows = p.pairs_flushed().rows;
    let pairs = paired(p.dels, p.adds);
    let n = p.rows.len();
    assert forall|i: int, j: int|
        0 <= i < rows.len() && j == i + 1 && j < rows.len() implies goes_on_alone(
        #[trigger] rows[i],
        #[trigger] rows[j],
    ) by {
        if j < n {
            assert(goes_on_alone(p.rows[i], p.rows[j]));
        } else if i < n {
            assert(rows[i] == p.rows.last());
        } else {
            assert(rows[i] == pairs[i - n]);
            assert(rows[j] == pairs[j - n]);
        }
    }
}

/// A row that is no change begins no run, and ends one.
proof fn lemma_row_below(rows: Seq<RowView>, row: RowView)
    requires
        none_unpaired(rows),
        !is_change(row),
        !is_lone(row),
    ensures
        none_unpaired(rows.push(row)),
        run_over(rows.push(row)),
{
    let after = rows.push(row);
    assert forall|i: int, j: int|
        0 <= i < after.len() && j == i + 1 && j < after.len() implies goes_on_alone(
        #[trigger] after[i],
        #[trigger] after[j],
    ) by {
        if j < rows.len() {
            assert(goes_on_alone(rows[i], rows[j]));
        }
    }
}

/// Notes of a section begin no run.
proof fn lemma_notes_below(p: ParserView)
    requires
        none_unpaired(p.rows),
    ensures
        none_unpaired(p.status_flushed().rows),
{
    let rows = p.status_flushed().rows;
    assert forall|i: int, j: int|
        0 <= i < rows.len() && j == i + 1 && j < rows.len() implies goes_on_alone(
        #[trigger] rows[i],
        #[trigger] rows[j],
    ) by {
        if j < p.rows.len() {
            assert(goes_on_alone(p.rows[i], p.rows[j]));
        }
    }
}

/// Another title does not change the lines below it.
proof fn lemma_title_above(p: ParserView, title: Seq<char>)
    requires
        p.wf(),
        none_unpaired(p.rows),
        run_over(p.rows),
    ensures
        none_unpaired(p.with_title(title).rows),
        run_over(p.with_title(title).rows),
{
    let rows = p.with_title(title).rows;
    assert forall|i: int, j: int|
        0 <= i < rows.len() && j == i + 1 && j < rows.len() implies goes_on_alone(
        #[trigger] rows[i],
        #[trigger] rows[j],
    ) by {
        assert(goes_on_alone(p.rows[i], p.rows[j]));
    }
}

/// Every line leaves no run unpaired.
proof fn lemma_step_paired(p: ParserView, line: Seq<char>)
    requires
        p.wf(),
        none_unpaired(p.rows),
        run_over(p.rows),
    ensures
        none_unpaired(p.step(line).rows),
        run_over(p.step(line).rows),
{
    let flushed = p.pairs_flushed();
    lemma_flushed_paired(p);
    match meaning(p.place, line) {
        Meaning::FileStart(name) => {
            lemma_notes_below(flushed);
            let rows = flushed.status_flushed().rows;
            if rows.len() > 0 {
                lemma_row_below(rows, RowView::Raw(seq![]));
                lemma_row_below(rows.push(RowView::Raw(seq![])), RowView::File(name));
            } else {
                lemma_row_below(rows, RowView::File(name));
            }
        },
        Meaning::HunkStart(_, _) => {
            lemma_row_below(flushed.rows, RowView::Hunk(line));
        },
        Meaning::BadHunk | Meaning::Stray => {
            lemma_row_below(flushed.rows, RowView::Raw(line));
        },
        Meaning::NewPath(path) => {
            let q = p.step(line);
            if q.rows != p.rows {
                let title = q.title();
                lemma_title_above(p, title);
                assert(q.rows =~= p.with_title(title).rows);
            }
        },
        Meaning::RenameFrom(from) => {
            lemma_title_above(p, from);
        },
        Meaning::RenameTo(to) => {
            lemma_title_above(p, p.title() + " → "@ + to);
        },
        Meaning::Binary | Meaning::Unknown => {
            lemma_row_below(p.rows, RowView::Raw(line));
        },
        Meaning::Context(_) => {
            lemma_row_below(flushed.rows, p.step(line).rows.last());
        },
        _ => {},
    }
}

/// Every line leaves no run unpaired.
proof fn lemma_steps_paired(p: ParserView, lines: Seq<Seq<char>>)
    requires
        p.wf(),
        none_unpaired(p.rows),
        run_over(p.rows),
    ensures
        none_unpaired(p.steps(lines).rows),
        run_over(p.steps(lines).rows),
        p.steps(lines).wf(),
    decreases lines.len(),
{
    if lines.len() > 0 {
        lemma_steps_paired(p, lines.drop_last());
        lemma_step_paired(p.steps(lines.drop_last()), lines.last());
        lemma_step_wf(p.steps(lines.drop_last()), lines.last());
    }
}

/// In whatever diff, below a row that shows a change on one side only, the changes go
/// on on that side only, up to the next row that is none: no deletion stands alone
/// above an addition that could have stood beside it, nor the other way round.
pub proof fn law_no_change_is_left_unpaired(text: Seq<char>)
    ensures
        none_unpaired(diff_rows(text)),
{
    let lines = split_lines(text);
    let p = ParserView::initial().steps(lines);
    lemma_steps_paired(ParserView::initial(), lines);
    lemma_flushed_paired(p);
    lemma_notes_below(p.pairs_flushed());
}

/// A hunk begins with its header, verbatim, below everything that came before it. From
/// there on no run is under way, and the lines of the two files are numbered from the
/// numbers in the header on.
pub proof fn law_a_hunk_begins_with_its_header(
    p: ParserView,
    old: (u32, Option<u32>),
    new: (u32, Option<u32>),
    tail: Seq<char>,
)
    requires
        p.wf(),
        p.place != Place::Outside,
    ensures
        ({
            let header = hunk_header(old.0, old.1, new.0, new.1, tail);
            let after = p.step(header);
            &&& after.wf()
            &&& after.rows == p.pairs_flushed().rows.push(RowView::Hunk(header))
            &&& after.place == Place::Hunk
            &&& after.dels.len() == 0 && after.adds.len() == 0
            &&& after.old_no == old.0 && after.new_no == new.0
            &&& after.pending == p.pending && after.section_start == p.section_start
            &&& after.section_start < after.rows.len()
        }),
{
    law_hunk_header_is_read(p.place, old.0, old.1, new.0, new.1, tail);
    lemma_step_wf(p, hunk_header(old.0, old.1, new.0, new.1, tail));
}

} // verus!
