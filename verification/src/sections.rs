//! The sections of a diff: each file's header and the rows below it, with how
//! many lines it adds and deletes.

use std::collections::HashMap;
use std::ops::Range;

use vstd::prelude::*;

use crate::diff::{row_views, Cell, CellView, Kind, Row, RowView};

verus! {

/// One file of the diff: its header, the rows below it, and whether they are
/// hidden.
#[derive(Debug)]
pub struct FileSection {
    pub header: usize,
    pub body: Range<usize>,
    pub collapsed: bool,
}

impl FileSection {
    /// Whether a row belongs to the section.
    pub open spec fn holds(self, row: int) -> bool {
        self.header <= row < self.body.end
    }

    /// Whether a row is hidden in the section.
    pub open spec fn hides(self, row: int) -> bool {
        self.collapsed && self.header < row < self.body.end
    }
}

/// Whether a row is the header of a section.
pub open spec fn is_headed(sections: Seq<FileSection>, row: int) -> bool {
    exists|i: int| 0 <= i < sections.len() && (#[trigger] sections[i]).header == row
}

/// Whether the sections lie in order, apart from each other, within the rows, each
/// a file header and what follows it, one for every file header.
pub open spec fn sections_wf(sections: Seq<FileSection>, rows: Seq<RowView>) -> bool {
    &&& sections_apart(sections, rows)
    &&& forall|row: int|
        0 <= row < rows.len() && rows[row] is File ==> #[trigger] is_headed(sections, row)
}

/// Whether the sections lie in order, apart from each other, within the rows, each
/// a file header and what follows it.
pub open spec fn sections_apart(sections: Seq<FileSection>, rows: Seq<RowView>) -> bool {
    &&& forall|i: int|
        0 <= i < sections.len() ==> {
            let s = #[trigger] sections[i];
            &&& s.header < s.body.end <= rows.len()
            &&& s.body.start == s.header + 1
            &&& rows[s.header as int] is File
        }
    &&& forall|i: int, j: int|
        0 <= i < j < sections.len() ==> (#[trigger] sections[i]).body.end <= (
        #[trigger] sections[j]).header
}

/// Where a file header begins the next section: the first file row from `from`
/// on, or the end.
pub open spec fn next_file(rows: Seq<RowView>, from: int) -> int
    decreases rows.len() - from,
{
    if from >= rows.len() {
        rows.len() as int
    } else if rows[from] is File {
        from
    } else {
        next_file(rows, from + 1)
    }
}

/// The section whose header is the given row.
pub open spec fn section_at(rows: Seq<RowView>, header: int) -> FileSection {
    FileSection {
        header: header as usize,
        body: Range { start: (header + 1) as usize, end: next_file(rows, header + 1) as usize },
        collapsed: false,
    }
}

/// The sections from a row on: one for each file header.
pub open spec fn sections_from(rows: Seq<RowView>, from: int) -> Seq<FileSection>
    decreases rows.len() - from,
{
    if from >= rows.len() {
        seq![]
    } else if rows[from] is File {
        seq![section_at(rows, from)] + sections_from(rows, from + 1)
    } else {
        sections_from(rows, from + 1)
    }
}

/// The sections of a diff.
pub open spec fn sections_of(rows: Seq<RowView>) -> Seq<FileSection> {
    sections_from(rows, 0)
}

/// Whether a row adds a line.
pub open spec fn adds(row: RowView) -> bool {
    row matches RowView::Line { right: Some(cell), .. } && cell.kind == Kind::Add
}

/// Whether a row deletes a line.
pub open spec fn deletes(row: RowView) -> bool {
    row matches RowView::Line { left: Some(cell), .. } && cell.kind == Kind::Del
}

/// How many lines the rows from `from` up to `to` add.
pub open spec fn added(rows: Seq<RowView>, from: int, to: int) -> nat
    decreases to - from,
{
    if from >= to {
        0
    } else {
        added(rows, from, to - 1) + if adds(rows[to - 1]) {
            1nat
        } else {
            0
        }
    }
}

/// How many lines the rows from `from` up to `to` delete.
pub open spec fn deleted(rows: Seq<RowView>, from: int, to: int) -> nat
    decreases to - from,
{
    if from >= to {
        0
    } else {
        deleted(rows, from, to - 1) + if deletes(rows[to - 1]) {
            1nat
        } else {
            0
        }
    }
}

/// How many lines a section adds and deletes.
pub open spec fn section_counts(rows: Seq<RowView>, header: int) -> (nat, nat) {
    let end = next_file(rows, header + 1);
    (added(rows, header + 1, end), deleted(rows, header + 1, end))
}

/// Whether the counts of every section can be held.
pub open spec fn counts_fit(rows: Seq<RowView>) -> bool {
    forall|header: int|
        0 <= header < rows.len() && rows[header] is File ==> {
            let counts = #[trigger] section_counts(rows, header);
            counts.0 <= u32::MAX && counts.1 <= u32::MAX
        }
}

/// File header row → how many lines its section adds and deletes.
pub open spec fn counts_of(rows: Seq<RowView>) -> Map<usize, (u32, u32)> {
    Map::new(
        |i: usize| i < rows.len() && rows[i as int] is File,
        |i: usize|
            (section_counts(rows, i as int).0 as u32, section_counts(rows, i as int).1 as u32),
    )
}

/// The largest line number among the first `n` rows; 0 where there is none.
pub open spec fn largest_no(rows: Seq<RowView>, n: int) -> u32
    decreases n,
{
    if n <= 0 {
        0
    } else {
        let before = largest_no(rows, n - 1);
        match rows[n - 1] {
            RowView::Line { left, right } => larger(larger(before, side_no(left)), side_no(right)),
            _ => before,
        }
    }
}

/// The number of a line, 0 for an absent one.
pub open spec fn side_no(side: Option<CellView>) -> u32 {
    match side {
        Some(cell) => cell.no,
        None => 0,
    }
}

/// The larger of two numbers.
pub open spec fn larger(a: u32, b: u32) -> u32 {
    if a < b {
        b
    } else {
        a
    }
}

/// The next file row lies between where the search begins and the end, and no
/// file row lies before it.
pub proof fn lemma_next_file(rows: Seq<RowView>, from: int)
    requires
        0 <= from <= rows.len(),
    ensures
        from <= next_file(rows, from) <= rows.len(),
        next_file(rows, from) < rows.len() ==> rows[next_file(rows, from)] is File,
        forall|i: int| from <= i < next_file(rows, from) ==> !(#[trigger] rows[i] is File),
    decreases rows.len() - from,
{
    if from < rows.len() && !(rows[from] is File) {
        lemma_next_file(rows, from + 1);
    }
}

/// The sections from a row on lie in order behind it, apart from each other.
pub proof fn lemma_sections_from(rows: Seq<RowView>, from: int)
    requires
        0 <= from <= rows.len() <= usize::MAX,
    ensures
        from == 0 ==> sections_wf(sections_from(rows, from), rows),
        sections_apart(sections_from(rows, from), rows),
        forall|row: int|
            from <= row < rows.len() && rows[row] is File ==> #[trigger] is_headed(
                sections_from(rows, from),
                row,
            ),
        forall|i: int|
            0 <= i < sections_from(rows, from).len() ==> from <= (#[trigger] sections_from(
                rows,
                from,
            )[i]).header,
    decreases rows.len() - from,
{
    if from < rows.len() {
        lemma_sections_from(rows, from + 1);
        if rows[from] is File {
            let first = section_at(rows, from);
            let rest = sections_from(rows, from + 1);
            let all = sections_from(rows, from);
            lemma_next_file(rows, from + 1);
            assert forall|i: int, j: int| 0 <= i < j < all.len() implies (
            #[trigger] all[i]).body.end <= (#[trigger] all[j]).header by {
                assert(all[j] == rest[j - 1]);
                if i == 0 {
                    lemma_section_headers(rows, from + 1, j - 1);
                }
            }
            assert forall|row: int|
                from <= row < rows.len() && rows[row] is File implies #[trigger] is_headed(
                all,
                row,
            ) by {
                if row == from {
                    assert(all[0].header == row);
                } else {
                    assert(is_headed(rest, row));
                    let i = choose|i: int|
                        0 <= i < rest.len() && (#[trigger] rest[i]).header == row;
                    assert(all[i + 1] == rest[i]);
                }
            }
        }
    }
}

/// Collapsing or opening a section leaves it in its place among the others.
pub proof fn lemma_toggled_sections(
    sections: Seq<FileSection>,
    rows: Seq<RowView>,
    i: int,
    collapsed: bool,
)
    requires
        sections_wf(sections, rows),
        0 <= i < sections.len(),
    ensures
        sections_wf(sections.update(i, FileSection { collapsed, ..sections[i] }), rows),
{
    let after = sections.update(i, FileSection { collapsed, ..sections[i] });
    assert forall|a: int, b: int| 0 <= a < b < after.len() implies (
    #[trigger] after[a]).body.end <= (#[trigger] after[b]).header by {
        assert(sections[a].body.end <= sections[b].header);
    }
    assert forall|row: int| 0 <= row < rows.len() && rows[row] is File implies #[trigger]
        is_headed(after, row) by {
        assert(is_headed(sections, row));
        let k = choose|k: int| 0 <= k < sections.len() && (#[trigger] sections[k]).header == row;
        assert(after[k].header == row);
    }
}

/// Every section begins at a file row behind the first one from there on.
proof fn lemma_section_headers(rows: Seq<RowView>, from: int, i: int)
    requires
        0 <= from <= rows.len() <= usize::MAX,
        0 <= i < sections_from(rows, from).len(),
    ensures
        next_file(rows, from) <= sections_from(rows, from)[i].header < rows.len(),
        rows[sections_from(rows, from)[i].header as int] is File,
    decreases rows.len() - from,
{
    if rows[from] is File {
        if i > 0 {
            lemma_section_headers(rows, from + 1, i - 1);
            lemma_next_file(rows, from + 1);
        }
    } else {
        lemma_section_headers(rows, from + 1, i);
    }
}

/// Fewer rows add fewer lines, and delete fewer.
proof fn lemma_counts_grow(rows: Seq<RowView>, from: int, k: int, to: int)
    requires
        from <= k <= to,
    ensures
        added(rows, from, k) <= added(rows, from, to),
        deleted(rows, from, k) <= deleted(rows, from, to),
    decreases to - k,
{
    if k < to {
        lemma_counts_grow(rows, from, k, to - 1);
    }
}

/// A diff of no more rows than 32 bits count has counts that can be held.
pub proof fn law_counts_of_so_many_rows_fit(rows: Seq<RowView>)
    requires
        rows.len() <= u32::MAX,
    ensures
        counts_fit(rows),
{
    assert forall|header: int| 0 <= header < rows.len() && rows[header] is File implies {
        let counts = #[trigger] section_counts(rows, header);
        counts.0 <= u32::MAX && counts.1 <= u32::MAX
    } by {
        let end = next_file(rows, header + 1);
        lemma_next_file(rows, header + 1);
        lemma_counts_bounded(rows, header + 1, end);
    }
}

/// Rows do not add or delete more lines than they are.
proof fn lemma_counts_bounded(rows: Seq<RowView>, from: int, to: int)
    requires
        from <= to,
    ensures
        added(rows, from, to) <= to - from,
        deleted(rows, from, to) <= to - from,
    decreases to - from,
{
    if from < to {
        lemma_counts_bounded(rows, from, to - 1);
    }
}

/// Whether a row is a file header.
fn is_file(row: &Row) -> (b: bool)
    ensures
        b == (row@ is File),
{
    match row {
        Row::File(_) => true,
        _ => false,
    }
}

/// The next file header.
fn find_file(rows: &Vec<Row>, from: usize) -> (at: usize)
    requires
        from <= rows@.len(),
    ensures
        at == next_file(row_views(rows@), from as int),
{
    let mut at: usize = from;
    while at < rows.len() && !is_file(&rows[at])
        invariant
            from <= at <= rows@.len(),
            next_file(row_views(rows@), from as int) == next_file(row_views(rows@), at as int),
        decreases rows@.len() - at,
    {
        at += 1;
    }
    at
}

/// Whether one side of a row is of the given kind.
fn is_of(side: &Option<Cell>, kind: Kind) -> (b: bool)
    ensures
        b == (side matches Some(cell) && cell.kind == kind),
{
    match side {
        Some(cell) => cell.kind == kind,
        None => false,
    }
}

/// How many lines the rows of a section add and delete.
fn count_lines(rows: &Vec<Row>, from: usize, to: usize) -> (counts: (u32, u32))
    requires
        from <= to <= rows@.len(),
        added(row_views(rows@), from as int, to as int) <= u32::MAX,
        deleted(row_views(rows@), from as int, to as int) <= u32::MAX,
    ensures
        counts.0 == added(row_views(rows@), from as int, to as int),
        counts.1 == deleted(row_views(rows@), from as int, to as int),
{
    let ghost views = row_views(rows@);
    let mut plus: u32 = 0;
    let mut minus: u32 = 0;
    let mut i: usize = from;
    while i < to
        invariant
            from <= i <= to <= rows@.len(),
            views == row_views(rows@),
            added(views, from as int, to as int) <= u32::MAX,
            deleted(views, from as int, to as int) <= u32::MAX,
            plus == added(views, from as int, i as int),
            minus == deleted(views, from as int, i as int),
        decreases to - i,
    {
        proof {
            lemma_counts_grow(views, from as int, i + 1, to as int);
            assert(views[i as int] == rows@[i as int]@);
        }
        if let Row::Line { left, right } = &rows[i] {
            if is_of(left, Kind::Del) {
                minus += 1;
            }
            if is_of(right, Kind::Add) {
                plus += 1;
            }
        }
        i += 1;
    }
    (plus, minus)
}

/// The sections of a diff.
pub fn file_sections(rows: &Vec<Row>) -> (sections: Vec<FileSection>)
    ensures
        sections@ == sections_of(row_views(rows@)),
        sections_wf(sections@, row_views(rows@)),
{
    let ghost views = row_views(rows@);
    let mut sections: Vec<FileSection> = Vec::new();
    let mut i: usize = 0;
    while i < rows.len()
        invariant
            i <= rows@.len(),
            views == row_views(rows@),
            sections@ + sections_from(views, i as int) == sections_of(views),
        decreases rows@.len() - i,
    {
        let ghost before = sections@;
        if is_file(&rows[i]) {
            let end: usize = find_file(rows, i + 1);
            let section = FileSection { header: i, body: i + 1..end, collapsed: false };
            sections.push(section);
            proof {
                lemma_next_file(views, i + 1);
                assert(section == section_at(views, i as int));
                assert(before + sections_from(views, i as int) =~= sections@ + sections_from(
                    views,
                    i + 1,
                ));
            }
        }
        i += 1;
    }
    proof {
        assert(sections@ + sections_from(views, i as int) =~= sections@);
        lemma_sections_from(views, 0);
    }
    sections
}

/// File header row → how many lines its section adds and deletes.
pub fn file_counts(rows: &Vec<Row>) -> (counts: HashMap<usize, (u32, u32)>)
    requires
        counts_fit(row_views(rows@)),
    ensures
        counts@ == counts_of(row_views(rows@)),
{
    broadcast use vstd::std_specs::hash::group_hash_axioms;

    let ghost views = row_views(rows@);
    let ghost all = counts_of(views);
    let mut counts: HashMap<usize, (u32, u32)> = HashMap::new();
    let mut i: usize = 0;
    assert(counts@ =~= all.restrict(Set::new(|k: usize| k < 0)));
    while i < rows.len()
        invariant
            i <= rows@.len(),
            views == row_views(rows@),
            counts_fit(views),
            all == counts_of(views),
            counts@ == all.restrict(Set::new(|k: usize| k < i)),
        decreases rows@.len() - i,
    {
        let ghost before = counts@;
        if is_file(&rows[i]) {
            let end: usize = find_file(rows, i + 1);
            proof {
                lemma_next_file(views, i + 1);
                let fitting = section_counts(views, i as int);
            }
            let found = count_lines(rows, i + 1, end);
            counts.insert(i, found);
            assert(counts@ =~= all.restrict(Set::new(|k: usize| k < i + 1)));
        } else {
            assert(counts@ =~= all.restrict(Set::new(|k: usize| k < i + 1)));
        }
        i += 1;
    }
    assert(counts@ =~= all);
    counts
}

/// The larger of two numbers.
fn max_of(a: u32, b: u32) -> (m: u32)
    ensures
        m == larger(a, b),
{
    if a < b {
        b
    } else {
        a
    }
}

/// The largest line number of a diff.
pub fn largest_number(rows: &Vec<Row>) -> (n: u32)
    ensures
        n == largest_no(row_views(rows@), rows@.len() as int),
{
    let ghost views = row_views(rows@);
    let mut n: u32 = 0;
    let mut i: usize = 0;
    while i < rows.len()
        invariant
            i <= rows@.len(),
            views == row_views(rows@),
            n == largest_no(views, i as int),
        decreases rows@.len() - i,
    {
        assert(views[i as int] == rows@[i as int]@);
        if let Row::Line { left, right } = &rows[i] {
            if let Some(cell) = left {
                n = max_of(n, cell.no);
            }
            if let Some(cell) = right {
                n = max_of(n, cell.no);
            }
        }
        i += 1;
    }
    n
}

} // verus!
