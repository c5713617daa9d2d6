//! The line numbers of a whole diff.

use vstd::prelude::*;

use crate::diff::{
    bare_path, diff_rows, hunk_numbers, meaning, next_no, paired, raw_rows, CellView, Meaning,
    ParserView, Place, RowView,
};
use crate::reading::{left_cells, number_behind, right_cells};
use crate::text::split_lines;

verus! {

/// The numbers that the next lines have behind the first `j` rows; none outside a run
/// of lines behind a hunk header.
pub open spec fn numbers_at(rows: Seq<RowView>, j: int) -> Option<(u32, u32)>
    decreases j,
{
    if j <= 0 {
        None
    } else {
        numbers_after(rows[j - 1], numbers_at(rows, j - 1))
    }
}

/// The numbers behind a row, from those before it.
pub open spec fn numbers_after(row: RowView, before: Option<(u32, u32)>) -> Option<(u32, u32)> {
    match row {
        RowView::Hunk(header) => hunk_numbers(header),
        RowView::Line { left, right } => match before {
            Some((old, new)) => Some(
                (
                    if left is Some {
                        next_no(old)
                    } else {
                        old
                    },
                    if right is Some {
                        next_no(new)
                    } else {
                        new
                    },
                ),
            ),
            None => None,
        },
        _ => None,
    }
}

/// Whether a row has the numbers it should: a hunk header can be read, and a line has
/// those that come next.
pub open spec fn row_numbered(row: RowView, before: Option<(u32, u32)>) -> bool {
    match row {
        RowView::Hunk(header) => hunk_numbers(header) is Some,
        RowView::Line { left, right } => match before {
            Some((old, new)) => (left matches Some(cell) ==> cell.no == old) && (
            right matches Some(cell) ==> cell.no == new),
            None => false,
        },
        _ => true,
    }
}

/// Whether every row has the numbers it should.
pub open spec fn well_numbered(rows: Seq<RowView>) -> bool {
    forall|j: int|
        0 <= j < rows.len() ==> row_numbered(#[trigger] rows[j], numbers_at(rows, j))
}

/// Whether cells have consecutive numbers from `no` on; the largest one stays.
pub open spec fn consecutive(cells: Seq<CellView>, no: u32) -> bool {
    forall|k: int|
        0 <= k < cells.len() ==> (#[trigger] cells[k]).no == number_behind(no, k as nat)
}

/// What holds of the numbers between any two lines.
spec fn sound(p: ParserView) -> bool {
    &&& p.wf()
    &&& well_numbered(p.rows)
    &&& p.place == Place::Hunk ==> (numbers_at(p.rows, p.rows.len() as int) matches Some((old, new))
        && p.old_no == number_behind(old, p.dels.len()) && p.new_no == number_behind(
        new,
        p.adds.len(),
    ) && consecutive(p.dels, old) && consecutive(p.adds, new))
}

/// The numbers depend on the rows before alone, and not on the titles of files.
proof fn lemma_same_numbers(a: Seq<RowView>, b: Seq<RowView>, j: int)
    requires
        forall|k: int|
            0 <= k < j ==> (#[trigger] a[k]) == b[k] || (a[k] is File && b[k] is File),
    ensures
        numbers_at(a, j) == numbers_at(b, j),
    decreases j,
{
    if j > 0 {
        lemma_same_numbers(a, b, j - 1);
        assert(a[j - 1] == b[j - 1] || (a[j - 1] is File && b[j - 1] is File));
    }
}

/// One more row with the numbers it should have.
proof fn lemma_push(rows: Seq<RowView>, row: RowView)
    requires
        well_numbered(rows),
        row_numbered(row, numbers_at(rows, rows.len() as int)),
    ensures
        well_numbered(rows.push(row)),
        numbers_at(rows.push(row), rows.len() as int + 1) == numbers_after(
            row,
            numbers_at(rows, rows.len() as int),
        ),
{
    let more = rows.push(row);
    assert forall|j: int| 0 <= j < more.len() implies row_numbered(
        #[trigger] more[j],
        numbers_at(more, j),
    ) by {
        lemma_same_numbers(rows, more, j);
        if j < rows.len() {
            assert(row_numbered(rows[j], numbers_at(rows, j)));
        }
    }
    lemma_same_numbers(rows, more, rows.len() as int);
}

/// Another title changes no numbers.
proof fn lemma_retitled(p: ParserView, title: Seq<char>)
    requires
        p.wf(),
        well_numbered(p.rows),
    ensures
        well_numbered(p.with_title(title).rows),
{
    if let Some(i) = p.file_row {
        let rows = p.with_title(title).rows;
        assert forall|j: int| 0 <= j < rows.len() implies row_numbered(
            #[trigger] rows[j],
            numbers_at(rows, j),
        ) by {
            lemma_same_numbers(p.rows, rows, j);
            assert(row_numbered(p.rows[j], numbers_at(p.rows, j)));
        }
    }
}

/// The next number behind some lines.
proof fn lemma_next_behind(no: u32, n: nat)
    ensures
        next_no(number_behind(no, n)) == number_behind(no, n + 1),
{
}

/// The first `i` of some pairs go on with the numbers.
proof fn lemma_pairs(p: ParserView, old: u32, new: u32, i: int)
    requires
        well_numbered(p.rows),
        numbers_at(p.rows, p.rows.len() as int) == Some((old, new)),
        consecutive(p.dels, old),
        consecutive(p.adds, new),
        0 <= i <= paired(p.dels, p.adds).len(),
    ensures
        ({
            let rows = p.rows + paired(p.dels, p.adds).take(i);
            let l = if i < p.dels.len() {
                i as nat
            } else {
                p.dels.len()
            };
            let r = if i < p.adds.len() {
                i as nat
            } else {
                p.adds.len()
            };
            &&& well_numbered(rows)
            &&& numbers_at(rows, rows.len() as int) == Some(
                (number_behind(old, l), number_behind(new, r)),
            )
        }),
    decreases i,
{
    let pairs = paired(p.dels, p.adds);
    let rows = p.rows + pairs.take(i);
    if i == 0 {
        assert(rows =~= p.rows);
    } else {
        let before = p.rows + pairs.take(i - 1);
        let row = pairs[i - 1];
        lemma_pairs(p, old, new, i - 1);
        assert(rows =~= before.push(row));
        if i - 1 < p.dels.len() {
            assert(p.dels[i - 1].no == number_behind(old, (i - 1) as nat));
            lemma_next_behind(old, (i - 1) as nat);
        }
        if i - 1 < p.adds.len() {
            assert(p.adds[i - 1].no == number_behind(new, (i - 1) as nat));
            lemma_next_behind(new, (i - 1) as nat);
        }
        lemma_push(before, row);
    }
}

/// Putting what waits in rows keeps the numbers sound.
proof fn lemma_flushed(p: ParserView)
    requires
        sound(p),
    ensures
        well_numbered(p.pairs_flushed().rows),
        p.place == Place::Hunk ==> numbers_at(
            p.pairs_flushed().rows,
            p.pairs_flushed().rows.len() as int,
        ) == Some((p.old_no, p.new_no)),
{
    let pairs = paired(p.dels, p.adds);
    if p.place == Place::Hunk {
        let (old, new) = numbers_at(p.rows, p.rows.len() as int)->0;
        lemma_pairs(p, old, new, pairs.len() as int);
        assert(pairs.take(pairs.len() as int) =~= pairs);
    } else {
        assert(p.rows + pairs =~= p.rows);
    }
}

/// Raw rows have no numbers.
proof fn lemma_raw_rows(rows: Seq<RowView>, lines: Seq<Seq<char>>)
    requires
        well_numbered(rows),
    ensures
        well_numbered(rows + raw_rows(lines)),
    decreases lines.len(),
{
    if lines.len() == 0 {
        assert(rows + raw_rows(lines) =~= rows);
    } else {
        let front = lines.drop_last();
        lemma_raw_rows(rows, front);
        lemma_push(rows + raw_rows(front), RowView::Raw(lines.last()));
        assert(rows + raw_rows(lines) =~= (rows + raw_rows(front)).push(
            RowView::Raw(lines.last()),
        ));
    }
}

/// Every line keeps the numbers sound.
proof fn lemma_step_sound(p: ParserView, line: Seq<char>)
    requires
        sound(p),
    ensures
        sound(p.step(line)),
{
    let q = p.step(line);
    let m = meaning(p.place, line);
    let flushed = p.pairs_flushed();
    lemma_step_wf(p, line);
    lemma_flushed(p);
    match m {
        Meaning::FileStart(name) => {
            let s = flushed.status_flushed();
            lemma_raw_rows(flushed.rows, p.pending);
            let gap = if s.rows.len() == 0 {
                s.rows
            } else {
                s.rows.push(RowView::Raw(seq![]))
            };
            lemma_push(s.rows, RowView::Raw(seq![]));
            lemma_push(gap, RowView::File(name));
        },
        Meaning::HunkStart(old, new) => {
            lemma_push(flushed.rows, RowView::Hunk(line));
        },
        Meaning::BadHunk | Meaning::Stray => {
            lemma_push(flushed.rows, RowView::Raw(line));
        },
        Meaning::NewPath(path) => {
            lemma_titles(p.in_header(), path);
        },
        Meaning::RenameFrom(from) => {
            lemma_retitled(p.in_header(), from);
        },
        Meaning::RenameTo(to) => {
            lemma_retitled(p.in_header(), p.title() + " → "@ + to);
        },
        Meaning::Binary | Meaning::Unknown => {
            lemma_push(p.rows, RowView::Raw(line));
        },
        Meaning::Context(text) => {
            lemma_push(flushed.rows, q.rows.last());
        },
        Meaning::Deletion(text) => {
            let (old, new) = numbers_at(p.rows, p.rows.len() as int)->0;
            lemma_next_behind(old, p.dels.len());
        },
        Meaning::Addition(text) => {
            let (old, new) = numbers_at(p.rows, p.rows.len() as int)->0;
            lemma_next_behind(new, p.adds.len());
        },
        _ => {},
    }
}

/// The path of the new file changes no numbers.
proof fn lemma_titles(p: ParserView, path: Seq<char>)
    requires
        p.wf(),
        well_numbered(p.rows),
    ensures
        well_numbered(p.titled_by_new_path(path).rows),
{
    lemma_retitled(
        p,
        match p.minus_path {
            Some(old) => old,
            None => seq![],
        },
    );
    lemma_retitled(p, bare_path(path));
}

/// Every line keeps what holds between any two lines.
proof fn lemma_step_wf(p: ParserView, line: Seq<char>)
    requires
        p.wf(),
    ensures
        p.step(line).wf(),
{
}

/// Some lines keep the numbers sound.
proof fn lemma_steps_sound(p: ParserView, lines: Seq<Seq<char>>)
    requires
        sound(p),
    ensures
        sound(p.steps(lines)),
    decreases lines.len(),
{
    if lines.len() > 0 {
        lemma_steps_sound(p, lines.drop_last());
        lemma_step_sound(p.steps(lines.drop_last()), lines.last());
    }
}

/// In whatever diff, every hunk header can be read, and every line has the number
/// that comes next behind it.
pub proof fn law_whole_diffs_are_well_numbered(text: Seq<char>)
    ensures
        well_numbered(diff_rows(text)),
{
    let p = ParserView::initial().steps(split_lines(text));
    lemma_steps_sound(ParserView::initial(), split_lines(text));
    lemma_flushed(p);
    lemma_raw_rows(p.pairs_flushed().rows, p.pending);
}

/// Whether the rows behind row `i`, a hunk header, up to row `j` are lines.
pub open spec fn is_run(rows: Seq<RowView>, i: int, j: int) -> bool {
    &&& 0 <= i < j <= rows.len()
    &&& rows[i] is Hunk
    &&& forall|k: int| i < k < j ==> (#[trigger] rows[k]) is Line
}

/// Where there are numbers, there is a run behind a hunk header.
proof fn lemma_run_before(rows: Seq<RowView>, j: int)
    requires
        0 <= j <= rows.len(),
        numbers_at(rows, j) is Some,
    ensures
        exists|i: int| #[trigger] is_run(rows, i, j),
    decreases j,
{
    if rows[j - 1] is Hunk {
        assert(is_run(rows, j - 1, j));
    } else {
        lemma_run_before(rows, j - 1);
        let i = choose|i: int| #[trigger] is_run(rows, i, j - 1);
        assert(is_run(rows, i, j));
    }
}

/// In whatever diff, every line lies in a run of lines right behind a hunk header that
/// can be read.
pub proof fn law_every_line_is_in_a_hunk(text: Seq<char>, j: int)
    requires
        0 <= j < diff_rows(text).len(),
    ensures
        diff_rows(text)[j] is Hunk ==> hunk_numbers(diff_rows(text)[j]->Hunk_0) is Some,
        diff_rows(text)[j] is Line ==> exists|i: int| #[trigger] is_run(diff_rows(text), i, j + 1),
{
    law_whole_diffs_are_well_numbered(text);
    lemma_in_a_hunk(diff_rows(text), j);
}

/// The same of well-numbered rows.
proof fn lemma_in_a_hunk(rows: Seq<RowView>, j: int)
    requires
        well_numbered(rows),
        0 <= j < rows.len(),
    ensures
        rows[j] is Hunk ==> hunk_numbers(rows[j]->Hunk_0) is Some,
        rows[j] is Line ==> exists|i: int| #[trigger] is_run(rows, i, j + 1),
{
    assert(row_numbered(rows[j], numbers_at(rows, j)));
    if rows[j] is Line {
        lemma_run_before(rows, j);
        let i = choose|i: int| #[trigger] is_run(rows, i, j);
        assert(is_run(rows, i, j + 1));
    }
}

/// In whatever diff, the lines behind a hunk header are numbered on either side from
/// the number that the header gives them on, one by one; the largest number stays.
pub proof fn law_lines_are_numbered_from_their_hunk(text: Seq<char>, i: int, j: int)
    requires
        is_run(diff_rows(text), i, j),
    ensures
        hunk_numbers(diff_rows(text)[i]->Hunk_0) matches Some((old, new)) && consecutive(
            left_cells(diff_rows(text).subrange(i + 1, j)),
            old,
        ) && consecutive(right_cells(diff_rows(text).subrange(i + 1, j)), new),
{
    law_whole_diffs_are_well_numbered(text);
    lemma_run_numbered(diff_rows(text), i, j);
}

/// The same of well-numbered rows, with the numbers that come next.
proof fn lemma_run_numbered(rows: Seq<RowView>, i: int, j: int)
    requires
        well_numbered(rows),
        is_run(rows, i, j),
    ensures
        hunk_numbers(rows[i]->Hunk_0) matches Some((old, new)) && {
            let left = left_cells(rows.subrange(i + 1, j));
            let right = right_cells(rows.subrange(i + 1, j));
            &&& consecutive(left, old)
            &&& consecutive(right, new)
            &&& numbers_at(rows, j) == Some(
                (number_behind(old, left.len()), number_behind(new, right.len())),
            )
        },
    decreases j - i,
{
    assert(row_numbered(rows[i], numbers_at(rows, i)));
    let (old, new) = hunk_numbers(rows[i]->Hunk_0)->0;
    let run = rows.subrange(i + 1, j);
    if j == i + 1 {
        assert(run =~= Seq::<RowView>::empty());
    } else {
        lemma_run_numbered(rows, i, j - 1);
        assert(run.drop_last() =~= rows.subrange(i + 1, j - 1));
        assert(run.last() == rows[j - 1]);
        assert(rows[j - 1] is Line);
        assert(row_numbered(rows[j - 1], numbers_at(rows, j - 1)));
        lemma_next_behind(old, left_cells(run.drop_last()).len());
        lemma_next_behind(new, right_cells(run.drop_last()).len());
    }
}

} // verus!
