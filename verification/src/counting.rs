//! What holds of the numbers of lines that a file adds and deletes.

use vstd::prelude::*;

use crate::diff::{paired, CellView, Kind, ParserView, Place, RowView};
use crate::pairing::{lemma_body_line, lemma_signed_push, signed};
use crate::reading::{hunk_header, is_body_line, law_hunk_header_is_read, lemma_step_wf};
use crate::sections::{added, counts_fit, deleted, lemma_next_file, next_file, section_counts};
use crate::state::AppView;
use crate::titles::{first_line, is_nowhere, law_a_section_begins_with_its_file};

verus! {

/// Whether a row has an addition on the right.
pub open spec fn has_addition() -> spec_fn(RowView) -> bool {
    |row: RowView| row matches RowView::Line { right: Some(cell), .. } && cell.kind == Kind::Add
}

/// Whether a row has a deletion on the left.
pub open spec fn has_deletion() -> spec_fn(RowView) -> bool {
    |row: RowView| row matches RowView::Line { left: Some(cell), .. } && cell.kind == Kind::Del
}

/// How many rows have an addition on the right.
pub open spec fn additions(rows: Seq<RowView>) -> nat {
    rows.filter(has_addition()).len()
}

/// How many rows have a deletion on the left.
pub open spec fn deletions(rows: Seq<RowView>) -> nat {
    rows.filter(has_deletion()).len()
}

/// Counting rows one by one gives how many there are.
proof fn lemma_counted(rows: Seq<RowView>, from: int, to: int)
    requires
        0 <= from <= to <= rows.len(),
    ensures
        added(rows, from, to) == additions(rows.subrange(from, to)),
        deleted(rows, from, to) == deletions(rows.subrange(from, to)),
    decreases to - from,
{
    reveal(Seq::filter);
    if from < to {
        lemma_counted(rows, from, to - 1);
        let part = rows.subrange(from, to);
        assert(part.drop_last() =~= rows.subrange(from, to - 1));
        assert(part.last() == rows[to - 1]);
    }
}

/// The next file row is the first one.
proof fn lemma_next_file_is(rows: Seq<RowView>, from: int, end: int)
    requires
        0 <= from <= end <= rows.len(),
        forall|i: int| from <= i < end ==> !(#[trigger] rows[i] is File),
        end < rows.len() ==> rows[end] is File,
    ensures
        next_file(rows, from) == end,
{
    lemma_next_file(rows, from);
}

/// When a diff is first shown, a file's counts are the number of rows with an addition
/// on the right and the number of rows with a deletion on the left, of those below its
/// header and above the next file's, whatever the text in them. Only files have counts.
pub proof fn law_counts_are_of_rows(rows: Seq<RowView>, header: int, end: int)
    requires
        rows.len() <= usize::MAX,
        counts_fit(rows),
        0 <= header < end <= rows.len(),
        rows[header] is File,
        forall|i: int| header < i < end ==> !(#[trigger] rows[i] is File),
        end < rows.len() ==> rows[end] is File,
    ensures
        ({
            let stats = AppView::initial(rows).stats;
            let body = rows.subrange(header + 1, end);
            &&& stats.contains_key(header as usize)
            &&& stats[header as usize].0 == additions(body)
            &&& stats[header as usize].1 == deletions(body)
            &&& forall|i: usize| #[trigger] stats.contains_key(i) <==> i < rows.len()
                && rows[i as int] is File
        }),
{
    lemma_next_file_is(rows, header + 1, end);
    lemma_counted(rows, header + 1, end);
    let fitting = section_counts(rows, header);
}

/// Rows below others add and delete what either do.
proof fn lemma_counts_add(a: Seq<RowView>, b: Seq<RowView>)
    ensures
        additions(a + b) == additions(a) + additions(b),
        deletions(a + b) == deletions(a) + deletions(b),
{
    Seq::filter_distributes_over_add(a, b, has_addition());
    Seq::filter_distributes_over_add(a, b, has_deletion());
}

/// A row below others counts by itself.
proof fn lemma_counts_push(rows: Seq<RowView>, row: RowView)
    ensures
        additions(rows.push(row)) == additions(rows) + if has_addition()(row) {
            1nat
        } else {
            0
        },
        deletions(rows.push(row)) == deletions(rows) + if has_deletion()(row) {
            1nat
        } else {
            0
        },
{
    reveal(Seq::filter);
    assert(rows.push(row).drop_last() =~= rows);
}

/// Pairs add as many lines as there are additions, and delete so.
proof fn lemma_counts_paired(dels: Seq<CellView>, adds: Seq<CellView>, n: int)
    requires
        forall|i: int| 0 <= i < dels.len() ==> (#[trigger] dels[i]).kind == Kind::Del,
        forall|i: int| 0 <= i < adds.len() ==> (#[trigger] adds[i]).kind == Kind::Add,
        0 <= n <= paired(dels, adds).len(),
    ensures
        additions(paired(dels, adds).take(n)) == if n < adds.len() {
            n as nat
        } else {
            adds.len()
        },
        deletions(paired(dels, adds).take(n)) == if n < dels.len() {
            n as nat
        } else {
            dels.len()
        },
    decreases n,
{
    reveal(Seq::filter);
    if n > 0 {
        let rows = paired(dels, adds).take(n);
        lemma_counts_paired(dels, adds, n - 1);
        assert(rows.drop_last() =~= paired(dels, adds).take(n - 1));
        assert(rows.last() == paired(dels, adds)[n - 1]);
        if n - 1 < dels.len() {
            assert(dels[n - 1].kind == Kind::Del);
        }
        if n - 1 < adds.len() {
            assert(adds[n - 1].kind == Kind::Add);
        }
    }
}

/// What waits to be put in rows counts as soon as it is.
proof fn lemma_counts_flushed(p: ParserView)
    requires
        p.wf(),
    ensures
        additions(p.pairs_flushed().rows) == additions(p.rows) + p.adds.len(),
        deletions(p.pairs_flushed().rows) == deletions(p.rows) + p.dels.len(),
{
    let pairs = paired(p.dels, p.adds);
    lemma_counts_paired(p.dels, p.adds, pairs.len() as int);
    assert(pairs.take(pairs.len() as int) =~= pairs);
    lemma_counts_add(p.rows, pairs);
}

/// Of the lines of a hunk every `+` line counts as an addition and every `-` line as a
/// deletion, and no other does.
proof fn lemma_hunk_counts(p: ParserView, lines: Seq<Seq<char>>)
    requires
        p.wf(),
        p.place == Place::Hunk,
        forall|i: int| 0 <= i < lines.len() ==> is_body_line(#[trigger] lines[i]),
    ensures
        ({
            let before = p.pairs_flushed().rows;
            let after = p.steps(lines).pairs_flushed().rows;
            &&& additions(after) == additions(before) + signed(lines, '+').len()
            &&& deletions(after) == deletions(before) + signed(lines, '-').len()
        }),
        p.steps(lines).wf(),
        p.steps(lines).place == Place::Hunk,
        p.steps(lines).section_start == p.section_start,
        p.rows.len() <= p.steps(lines).rows.len(),
        p.steps(lines).rows.take(p.rows.len() as int) == p.rows,
        forall|i: int|
            p.rows.len() <= i < p.steps(lines).rows.len() ==> #[trigger] p.steps(lines).rows[i]
                is Line,
    decreases lines.len(),
{
    if lines.len() == 0 {
        reveal(Seq::filter);
        assert(p.rows.take(p.rows.len() as int) =~= p.rows);
    } else {
        let front = lines.drop_last();
        let line = lines.last();
        assert(line == lines[lines.len() - 1]);
        assert forall|i: int| 0 <= i < front.len() implies is_body_line(#[trigger] front[i]) by {
            assert(front[i] == lines[i]);
        }
        lemma_hunk_counts(p, front);
        let q = p.steps(front);
        let r = q.step(line);
        assert(front.push(line) =~= lines);
        lemma_signed_push(front, line, '-');
        lemma_signed_push(front, line, '+');
        lemma_body_line(Place::Hunk, line);
        lemma_step_wf(q, line);
        lemma_counts_flushed(q);
        lemma_counts_flushed(r);
        let flushed = q.pairs_flushed().rows;
        if line.len() == 0 || line[0] == ' ' {
            lemma_counts_push(flushed, r.rows.last());
            assert(r.rows =~= flushed.push(r.rows.last()));
        }
        let rows = r.rows;
        assert forall|i: int| 0 <= i < p.rows.len() implies rows[i] == p.rows[i] by {
            assert(q.rows.take(p.rows.len() as int)[i] == q.rows[i]);
        }
        assert(rows.take(p.rows.len() as int) =~= p.rows);
        assert forall|i: int| p.rows.len() <= i < rows.len() implies #[trigger] rows[i]
            is Line by {
            if i < q.rows.len() {
                assert(rows[i] == q.rows[i]);
            }
        }
    }
}

/// The counts of a file are the numbers of `+` lines and of `-` lines in its hunk,
/// blank ones like any other.
pub proof fn law_counts_are_of_signed_lines(
    p: ParserView,
    names: (Seq<char>, Seq<char>),
    old: (u32, Option<u32>),
    new: (u32, Option<u32>),
    tail: Seq<char>,
    lines: Seq<Seq<char>>,
)
    requires
        p.wf(),
        is_nowhere(" b/"@, names.1),
        forall|i: int| 0 <= i < lines.len() ==> is_body_line(#[trigger] lines[i]),
    ensures
        ({
            let begun = p.step(first_line(names.0, names.1));
            let rows = begun.step(hunk_header(old.0, old.1, new.0, new.1, tail)).steps(
                lines,
            ).finished();
            let header = begun.rows.len() - 1;
            counts_fit(rows) && rows.len() <= usize::MAX ==> {
                let stats = AppView::initial(rows).stats;
                &&& stats.contains_key(header as usize)
                &&& stats[header as usize].0 == signed(lines, '+').len()
                &&& stats[header as usize].1 == signed(lines, '-').len()
            }
        }),
{
    law_a_section_begins_with_its_file(p, names.0, names.1);
    let begun = p.step(first_line(names.0, names.1));
    let line = hunk_header(old.0, old.1, new.0, new.1, tail);
    law_hunk_header_is_read(begun.place, old.0, old.1, new.0, new.1, tail);
    lemma_step_wf(p, first_line(names.0, names.1));
    lemma_step_wf(begun, line);
    let q = begun.step(line);
    assert(begun.pairs_flushed().rows =~= begun.rows);
    assert(q.rows =~= begun.rows.push(RowView::Hunk(line)));
    lemma_hunk_counts(q, lines);
    let r = q.steps(lines);
    let rows = r.finished();
    assert(rows =~= r.pairs_flushed().rows);
    let header = begun.rows.len() - 1;
    if counts_fit(rows) && rows.len() <= usize::MAX {
        assert(r.rows.take(q.rows.len() as int)[header] == q.rows[header]);
        assert(r.rows.take(q.rows.len() as int)[header + 1] == q.rows[header + 1]);
        assert(rows[header] is File);
        assert forall|i: int| header < i < rows.len() implies !(#[trigger] rows[i] is File) by {
            if i < r.rows.len() {
                assert(rows[i] == r.rows[i]);
            } else {
                assert(rows[i] == paired(r.dels, r.adds)[i - r.rows.len()]);
            }
        }
        law_counts_are_of_rows(rows, header, rows.len() as int);
        let upper = rows.subrange(0, header + 1);
        let body = rows.subrange(header + 1, rows.len() as int);
        assert(rows =~= upper + body);
        lemma_counts_add(upper, body);
        assert(q.pairs_flushed().rows =~= q.rows);
        assert(q.rows =~= upper.push(RowView::Hunk(line))) by {
            assert forall|i: int| 0 <= i <= header implies rows[i] == q.rows[i] by {
                assert(r.rows.take(q.rows.len() as int)[i] == q.rows[i]);
            }
        }
        lemma_counts_push(upper, RowView::Hunk(line));
    }
}

} // verus!
