//! Git-format diffs as rows of a side-by-side view.

use vstd::prelude::*;
use vstd::string::*;
use vstd::utf8::*;

use crate::intraline::{emphasises, word_emph};
use crate::text::{
    after_prefix, all_digits, chars_of, digits_only, find_last, has_prefix, last_match,
    lemma_run_len, lines_of, not_comma, number, parse_number, push_all, run_len, split_lines,
    starts_with, string_of, strings, strip_prefix, words, words_of,
};

verus! {

/// Which side of the change a line belongs to.
#[derive(Clone, Copy, Debug, PartialEq, Eq, Structural)]
pub enum Kind {
    Ctx,
    Del,
    Add,
}

/// One side of a row: a numbered line of one of the two files.
#[derive(Clone, Debug, PartialEq, Eq)]
pub struct Cell {
    pub no: u32,
    pub text: String,
    pub kind: Kind,
    /// byte ranges of intraline emphasis within `text`
    pub emph: Vec<(usize, usize)>,
}

/// One row of the view.
#[derive(Clone, Debug, PartialEq, Eq)]
pub enum Row {
    /// file header: "path" or "old → new"
    File(String),
    /// hunk header line, verbatim
    Hunk(String),
    /// anything that is not understood, shown dim
    Raw(String),
    Line { left: Option<Cell>, right: Option<Cell> },
}

/// A cell, by its contents.
pub struct CellView {
    pub no: u32,
    pub text: Seq<char>,
    pub kind: Kind,
    pub emph: Seq<(usize, usize)>,
}

/// A row, by its contents.
pub enum RowView {
    File(Seq<char>),
    Hunk(Seq<char>),
    Raw(Seq<char>),
    Line { left: Option<CellView>, right: Option<CellView> },
}

impl View for Cell {
    type V = CellView;

    open spec fn view(&self) -> CellView {
        CellView { no: self.no, text: self.text@, kind: self.kind, emph: self.emph@ }
    }
}

/// One side of a row, by its contents.
pub open spec fn side_view(side: Option<Cell>) -> Option<CellView> {
    match side {
        Some(cell) => Some(cell@),
        None => None,
    }
}

impl View for Row {
    type V = RowView;

    open spec fn view(&self) -> RowView {
        match *self {
            Row::File(t) => RowView::File(t@),
            Row::Hunk(t) => RowView::Hunk(t@),
            Row::Raw(t) => RowView::Raw(t@),
            Row::Line { left, right } => RowView::Line {
                left: side_view(left),
                right: side_view(right),
            },
        }
    }
}

/// The rows, by their contents.
pub open spec fn row_views(rows: Seq<Row>) -> Seq<RowView> {
    rows.map_values(|r: Row| r@)
}

impl CellView {
    /// The cell without its emphasis.
    pub open spec fn plain(self) -> CellView {
        CellView { emph: seq![], ..self }
    }
}

/// One side of a row without its emphasis.
pub open spec fn plain_side(side: Option<CellView>) -> Option<CellView> {
    match side {
        Some(cell) => Some(cell.plain()),
        None => None,
    }
}

impl RowView {
    /// The row without emphasis.
    pub open spec fn plain(self) -> RowView {
        match self {
            RowView::Line { left, right } => RowView::Line {
                left: plain_side(left),
                right: plain_side(right),
            },
            other => other,
        }
    }

    /// Whether a deletion paired with an addition carries the emphasis of their
    /// word diff, and every other cell none.
    pub open spec fn emphasised(self) -> bool {
        match self {
            RowView::Line { left: Some(l), right: Some(r) } => if l.kind == Kind::Del && r.kind
                == Kind::Add {
                emphasises(l.text, r.text, l.emph, r.emph)
            } else {
                l.emph.len() == 0 && r.emph.len() == 0
            },
            RowView::Line { left: Some(l), right: None } => l.emph.len() == 0,
            RowView::Line { left: None, right: Some(r) } => r.emph.len() == 0,
            _ => true,
        }
    }
}

/// The rows without emphasis.
pub open spec fn plain_rows(rows: Seq<RowView>) -> Seq<RowView> {
    rows.map_values(|r: RowView| r.plain())
}

// ---------------------------------------------------------------------------
// Terminal escape sequences
// ---------------------------------------------------------------------------

/// The byte that begins a terminal escape sequence.
pub const ESC: u8 = 0x1b;

/// Whether a byte ends a control sequence.
pub open spec fn is_final_byte(b: u8) -> bool {
    0x40 <= b <= 0x7e
}

/// How many bytes come before the first that ends a control sequence.
pub open spec fn params_len(s: Seq<u8>) -> nat
    decreases s.len(),
{
    if s.len() == 0 || is_final_byte(s[0]) {
        0
    } else {
        1 + params_len(s.drop_first())
    }
}

/// How many bytes the escape sequence at the front of `s` takes: `ESC [`, its
/// parameters and its final byte, or `ESC` and one more byte.
pub open spec fn escape_len(s: Seq<u8>) -> nat {
    if s.len() > 1 && s[1] == 0x5b {
        2 + params_len(s.skip(2)) + 1
    } else {
        2
    }
}

/// The bytes without terminal escape sequences; one that is cut off at the end
/// goes as far as the bytes do.
pub open spec fn without_escapes(s: Seq<u8>) -> Seq<u8>
    decreases s.len(),
{
    if s.len() == 0 {
        seq![]
    } else if s[0] == ESC {
        if escape_len(s) >= s.len() {
            seq![]
        } else {
            without_escapes(s.skip(escape_len(s) as int))
        }
    } else {
        seq![s[0]] + without_escapes(s.drop_first())
    }
}

/// The parameters end at the first final byte.
pub proof fn lemma_params_len(s: Seq<u8>, n: nat)
    requires
        n <= s.len(),
        forall|i: int| 0 <= i < n ==> !is_final_byte(#[trigger] s[i]),
        n < s.len() ==> is_final_byte(s[n as int]),
    ensures
        params_len(s) == n,
    decreases n,
{
    if n > 0 {
        let t = s.drop_first();
        assert(!is_final_byte(s[0]));
        assert forall|i: int| 0 <= i < n - 1 implies !is_final_byte(#[trigger] t[i]) by {
            assert(t[i] == s[i + 1]);
        }
        lemma_params_len(t, (n - 1) as nat);
    }
}

/// Removes terminal escape sequences.
pub fn strip_ansi(bytes: &[u8]) -> (out: Vec<u8>)
    ensures
        out@ == without_escapes(bytes@),
{
    let mut out: Vec<u8> = Vec::with_capacity(bytes.len());
    let mut i: usize = 0;
    assert(bytes@.skip(0) == bytes@);
    while i < bytes.len()
        invariant
            i <= bytes@.len(),
            without_escapes(bytes@) == out@ + without_escapes(bytes@.skip(i as int)),
        decreases bytes@.len() - i,
    {
        let ghost rest = bytes@.skip(i as int);
        let ghost at = i as int;
        assert(rest[0] == bytes@[at]);
        if bytes[i] == ESC {
            if bytes.len() - i > 1 && bytes[i + 1] == 0x5b {
                let ghost tail = rest.skip(2);
                assert(rest[1] == bytes@[at + 1]);
                i += 2;
                while i < bytes.len() && !(0x40 <= bytes[i] && bytes[i] <= 0x7e)
                    invariant
                        0 <= at,
                        at + 2 <= i <= bytes@.len(),
                        tail == bytes@.skip(at + 2),
                        forall|j: int| 0 <= j < i - at - 2 ==> !is_final_byte(#[trigger] tail[j]),
                    decreases bytes@.len() - i,
                {
                    assert(tail[i - at - 2] == bytes@[i as int]);
                    i += 1;
                }
                proof {
                    if i < bytes@.len() {
                        assert(tail[i - at - 2] == bytes@[i as int]);
                    }
                    lemma_params_len(tail, (i - at - 2) as nat);
                }
                if i < bytes.len() {
                    i += 1;
                    proof {
                        if i < bytes@.len() {
                            assert(rest.skip(escape_len(rest) as int) =~= bytes@.skip(i as int));
                        } else {
                            assert(bytes@.skip(i as int) =~= Seq::<u8>::empty());
                        }
                    }
                } else {
                    assert(bytes@.skip(i as int) =~= Seq::<u8>::empty());
                }
            } else if bytes.len() - i > 2 {
                proof {
                    assert(rest[1] == bytes@[at + 1]);
                    assert(rest.skip(2) =~= bytes@.skip(at + 2));
                }
                i += 2;
            } else {
                proof {
                    if bytes@.len() - at > 1 {
                        assert(rest[1] == bytes@[at + 1]);
                    }
                }
                i = bytes.len();
                assert(bytes@.skip(i as int) =~= Seq::<u8>::empty());
            }
        } else {
            out.push(bytes[i]);
            i += 1;
            assert(rest.drop_first() =~= bytes@.skip(i as int));
            assert(seq![bytes@[at]] + without_escapes(bytes@.skip(i as int)) == without_escapes(
                rest,
            ));
        }
        assert(without_escapes(bytes@) =~= out@ + without_escapes(bytes@.skip(i as int)));
    }
    assert(bytes@.skip(i as int) =~= Seq::<u8>::empty());
    assert(without_escapes(bytes@) =~= out@);
    out
}

// ---------------------------------------------------------------------------
// What a line of a diff means
// ---------------------------------------------------------------------------

/// Where in a diff a line stands.
pub enum Place {
    /// outside any file section, or behind one's last hunk
    Outside,
    /// between a file's first line and its first hunk
    Header,
    /// there too, inside the data of a binary patch
    Payload,
    /// inside a hunk
    Hunk,
}

/// What a line of a diff means.
pub enum Meaning {
    /// the first line of a file section, with the name in it
    FileStart(Seq<char>),
    /// a hunk header, with the first line numbers of the two files
    HunkStart(u32, u32),
    /// a hunk header that cannot be read
    BadHunk,
    /// the path of the old file
    OldPath(Seq<char>),
    /// the path of the new file, as it is written
    NewPath(Seq<char>),
    RenameFrom(Seq<char>),
    RenameTo(Seq<char>),
    /// a note that the files are binary
    Binary,
    /// a note on a file's mode, or that it came or went
    Status,
    /// a header line with nothing to show
    Skipped,
    /// the line that announces the data of a binary patch
    BinaryPatch,
    /// a line of the data of a binary patch
    Payload,
    /// a header line that is none of these
    Unknown,
    Context(Seq<char>),
    Deletion(Seq<char>),
    Addition(Seq<char>),
    /// the note that a file does not end in a newline
    NoNewline,
    /// anything else
    Stray,
}

/// The name in the first line of a file section: what follows the last ` b/`.
pub open spec fn section_name(rest: Seq<char>) -> Seq<char> {
    match last_match(rest, " b/"@) {
        Some(p) => rest.skip(p + " b/"@.len()),
        None => rest,
    }
}

/// A path without the `a/` or `b/` that it may begin with.
pub open spec fn bare_path(path: Seq<char>) -> Seq<char> {
    if has_prefix(path, "a/"@) {
        after_prefix(path, "a/"@)
    } else if has_prefix(path, "b/"@) {
        after_prefix(path, "b/"@)
    } else {
        path
    }
}

/// The number in front of the first comma of a word that begins with `sign`.
pub open spec fn signed_start(word: Seq<char>, sign: char) -> Option<u32> {
    if word.len() > 0 && word[0] == sign {
        let field = word.skip(1);
        number(field.take(run_len(field, not_comma()) as int))
    } else {
        None
    }
}

/// The first line numbers in a hunk header, `@@ -a[,b] +c[,d] @@`: `a` and `c`.
pub open spec fn hunk_numbers(line: Seq<char>) -> Option<(u32, u32)> {
    let w = words(line);
    if w.len() < 3 {
        None
    } else {
        match (signed_start(w[1], '-'), signed_start(w[2], '+')) {
            (Some(old), Some(new)) => Some((old, new)),
            _ => None,
        }
    }
}

/// What a line between a file's first line and its first hunk means.
pub open spec fn header_meaning(line: Seq<char>) -> Meaning {
    if has_prefix(line, "--- "@) {
        Meaning::OldPath(bare_path(after_prefix(line, "--- "@)))
    } else if has_prefix(line, "+++ "@) {
        Meaning::NewPath(after_prefix(line, "+++ "@))
    } else if has_prefix(line, "rename from "@) {
        Meaning::RenameFrom(after_prefix(line, "rename from "@))
    } else if has_prefix(line, "rename to "@) {
        Meaning::RenameTo(after_prefix(line, "rename to "@))
    } else if has_prefix(line, "Binary files "@) {
        Meaning::Binary
    } else if has_prefix(line, "new file mode"@) || has_prefix(line, "deleted file mode"@)
        || has_prefix(line, "old mode"@) || has_prefix(line, "new mode"@) {
        Meaning::Status
    } else if line == "GIT binary patch"@ {
        Meaning::BinaryPatch
    } else if has_prefix(line, "index "@) || has_prefix(line, "similarity index "@) || has_prefix(
        line,
        "dissimilarity index "@,
    ) || has_prefix(line, "copy from "@) || has_prefix(line, "copy to "@) {
        Meaning::Skipped
    } else {
        Meaning::Unknown
    }
}

/// Whether a character is a digit to base 85, as binary patches write them.
pub open spec fn is_digit85(c: char) -> bool {
    ||| '0' <= c <= '9'
    ||| 'A' <= c <= 'Z'
    ||| 'a' <= c <= 'z'
    ||| c == '!'
    ||| '#' <= c <= '&'
    ||| '(' <= c <= '+'
    ||| c == '-'
    ||| ';' <= c <= '@'
    ||| '^' <= c <= '`'
    ||| '{' <= c <= '~'
}

/// Whether a line is data to base 85: a letter for how many bytes, and groups of
/// five digits.
pub open spec fn is_data(line: Seq<char>) -> bool {
    &&& line.len() > 1
    &&& (line.len() - 1) % 5 == 0
    &&& 'A' <= line[0] <= 'Z' || 'a' <= line[0] <= 'z'
    &&& forall|i: int| 1 <= i < line.len() ==> is_digit85(#[trigger] line[i])
}

/// Whether a line belongs to the data of a binary patch: how much data comes, the
/// data, or the blank line behind it.
pub open spec fn is_payload(line: Seq<char>) -> bool {
    ||| line.len() == 0
    ||| has_prefix(line, "literal "@) && all_digits(after_prefix(line, "literal "@))
    ||| has_prefix(line, "delta "@) && all_digits(after_prefix(line, "delta "@))
    ||| is_data(line)
}

/// What a line between a file's first line and its first hunk means where it
/// stands. The data of a binary patch ends at the first line that is none.
pub open spec fn header_meaning_at(place: Place, line: Seq<char>) -> Meaning {
    if place == Place::Payload && is_payload(line) {
        Meaning::Payload
    } else {
        header_meaning(line)
    }
}

/// What a line inside a hunk means.
pub open spec fn body_meaning(line: Seq<char>) -> Meaning {
    if line.len() == 0 {
        Meaning::Context(line)
    } else if line[0] == ' ' {
        Meaning::Context(line.skip(1))
    } else if line[0] == '-' {
        Meaning::Deletion(line.skip(1))
    } else if line[0] == '+' {
        Meaning::Addition(line.skip(1))
    } else if line[0] == '\\' {
        Meaning::NoNewline
    } else {
        Meaning::Stray
    }
}

/// What a line means where it stands.
pub open spec fn meaning(place: Place, line: Seq<char>) -> Meaning {
    if has_prefix(line, "diff --git "@) {
        Meaning::FileStart(section_name(after_prefix(line, "diff --git "@)))
    } else if has_prefix(line, "@@ "@) && place != Place::Outside {
        match hunk_numbers(line) {
            Some((old, new)) => Meaning::HunkStart(old, new),
            None => Meaning::BadHunk,
        }
    } else {
        match place {
            Place::Header | Place::Payload => header_meaning_at(place, line),
            Place::Hunk => body_meaning(line),
            Place::Outside => Meaning::Stray,
        }
    }
}

// ---------------------------------------------------------------------------
// What the lines add up to
// ---------------------------------------------------------------------------

/// The state of reading a diff: the rows so far, without emphasis, and what is
/// still to become rows.
pub struct ParserView {
    pub rows: Seq<RowView>,
    pub place: Place,
    /// the number of the next line of the old file
    pub old_no: u32,
    /// the number of the next line of the new file
    pub new_no: u32,
    /// deletions not yet in a row
    pub dels: Seq<CellView>,
    /// additions not yet in a row
    pub adds: Seq<CellView>,
    /// the header row of the current file section
    pub file_row: Option<int>,
    /// whether a rename has settled the title
    pub title_fixed: bool,
    pub minus_path: Option<Seq<char>>,
    /// mode notes of the current file section
    pub pending: Seq<Seq<char>>,
    /// how many rows there are as long as the current section has no content
    pub section_start: int,
}

/// The next line number; the largest one stays.
pub open spec fn next_no(no: u32) -> u32 {
    if no < u32::MAX {
        (no + 1) as u32
    } else {
        no
    }
}

/// A cell without emphasis.
pub open spec fn plain_cell(no: u32, text: Seq<char>, kind: Kind) -> CellView {
    CellView { no, text, kind, emph: seq![] }
}

/// The `i`-th of some cells, where there is one.
pub open spec fn nth_cell(cells: Seq<CellView>, i: int) -> Option<CellView> {
    if 0 <= i < cells.len() {
        Some(cells[i])
    } else {
        None
    }
}

/// Deletions beside additions, the first with the first and so on; the longer
/// run goes on alone.
pub open spec fn paired(dels: Seq<CellView>, adds: Seq<CellView>) -> Seq<RowView> {
    let n = if dels.len() > adds.len() {
        dels.len()
    } else {
        adds.len()
    };
    Seq::new(n, |i: int| RowView::Line { left: nth_cell(dels, i), right: nth_cell(adds, i) })
}

/// Lines shown as they are.
pub open spec fn raw_rows(lines: Seq<Seq<char>>) -> Seq<RowView> {
    lines.map_values(|line: Seq<char>| RowView::Raw(line))
}

impl ParserView {
    /// Before the first line.
    pub open spec fn initial() -> ParserView {
        ParserView {
            rows: seq![],
            place: Place::Outside,
            old_no: 0,
            new_no: 0,
            dels: seq![],
            adds: seq![],
            file_row: None,
            title_fixed: false,
            minus_path: None,
            pending: seq![],
            section_start: 0,
        }
    }

    /// With one more row.
    pub open spec fn with_row(self, row: RowView) -> ParserView {
        ParserView { rows: self.rows.push(row), ..self }
    }

    /// Between a file's first line and its first hunk, outside a binary patch.
    pub open spec fn in_header(self) -> ParserView {
        ParserView { place: Place::Header, ..self }
    }

    /// With the waiting deletions and additions in rows.
    pub open spec fn pairs_flushed(self) -> ParserView {
        ParserView {
            rows: self.rows + paired(self.dels, self.adds),
            dels: seq![],
            adds: seq![],
            ..self
        }
    }

    /// With the mode notes in rows if no content followed the file header, and
    /// forgotten otherwise.
    pub open spec fn status_flushed(self) -> ParserView {
        ParserView {
            rows: if self.rows.len() == self.section_start {
                self.rows + raw_rows(self.pending)
            } else {
                self.rows
            },
            pending: seq![],
            ..self
        }
    }

    /// The title of the current file section.
    pub open spec fn title(self) -> Seq<char> {
        match self.file_row {
            Some(i) => match self.rows[i] {
                RowView::File(t) => t,
                _ => seq![],
            },
            None => seq![],
        }
    }

    /// With another title on the current file section.
    pub open spec fn with_title(self, title: Seq<char>) -> ParserView {
        match self.file_row {
            Some(i) => ParserView { rows: self.rows.update(i, RowView::File(title)), ..self },
            None => self,
        }
    }

    /// At the head of a new file section, a blank row behind the last one.
    pub open spec fn section_started(self, name: Seq<char>) -> ParserView {
        let s = self.pairs_flushed().status_flushed();
        let rows = if s.rows.len() == 0 {
            s.rows
        } else {
            s.rows.push(RowView::Raw(seq![]))
        };
        ParserView {
            rows: rows.push(RowView::File(name)),
            place: Place::Header,
            file_row: Some(rows.len() as int),
            title_fixed: false,
            minus_path: None,
            section_start: rows.len() as int + 1,
            ..s
        }
    }

    /// What the path of the new file makes of the title.
    pub open spec fn titled_by_new_path(self, path: Seq<char>) -> ParserView {
        if self.title_fixed {
            self
        } else if path == "/dev/null"@ {
            self.with_title(
                match self.minus_path {
                    Some(p) => p,
                    None => seq![],
                },
            )
        } else {
            self.with_title(bare_path(path))
        }
    }

    /// After a line with the given meaning.
    pub open spec fn after(self, line: Seq<char>, meaning: Meaning) -> ParserView {
        match meaning {
            Meaning::FileStart(name) => self.section_started(name),
            Meaning::HunkStart(old, new) => ParserView {
                place: Place::Hunk,
                old_no: old,
                new_no: new,
                ..self.pairs_flushed().with_row(RowView::Hunk(line))
            },
            Meaning::BadHunk | Meaning::Stray => ParserView {
                place: Place::Outside,
                ..self.pairs_flushed().with_row(RowView::Raw(line))
            },
            Meaning::OldPath(path) => ParserView { minus_path: Some(path), ..self.in_header() },
            Meaning::NewPath(path) => self.in_header().titled_by_new_path(path),
            Meaning::RenameFrom(from) => self.in_header().with_title(from),
            Meaning::RenameTo(to) => ParserView {
                title_fixed: true,
                ..self.in_header().with_title(self.title() + " → "@ + to)
            },
            Meaning::Binary => self.in_header().with_row(RowView::Raw(line)),
            Meaning::Unknown => ParserView {
                section_start: if self.rows.len() == self.section_start {
                    self.section_start + 1
                } else {
                    self.section_start
                },
                ..self.in_header().with_row(RowView::Raw(line))
            },
            Meaning::Status => ParserView { pending: self.pending.push(line), ..self.in_header() },
            Meaning::Skipped => self.in_header(),
            Meaning::BinaryPatch => ParserView { place: Place::Payload, ..self },
            Meaning::Payload | Meaning::NoNewline => self,
            Meaning::Context(text) => ParserView {
                old_no: next_no(self.old_no),
                new_no: next_no(self.new_no),
                ..self.pairs_flushed().with_row(
                    RowView::Line {
                        left: Some(plain_cell(self.old_no, text, Kind::Ctx)),
                        right: Some(plain_cell(self.new_no, text, Kind::Ctx)),
                    },
                )
            },
            Meaning::Deletion(text) => ParserView {
                dels: self.dels.push(plain_cell(self.old_no, text, Kind::Del)),
                old_no: next_no(self.old_no),
                ..self
            },
            Meaning::Addition(text) => ParserView {
                adds: self.adds.push(plain_cell(self.new_no, text, Kind::Add)),
                new_no: next_no(self.new_no),
                ..self
            },
        }
    }

    /// After one more line.
    pub open spec fn step(self, line: Seq<char>) -> ParserView {
        self.after(line, meaning(self.place, line))
    }

    /// After some more lines.
    pub open spec fn steps(self, lines: Seq<Seq<char>>) -> ParserView
        decreases lines.len(),
    {
        if lines.len() == 0 {
            self
        } else {
            self.steps(lines.drop_last()).step(lines.last())
        }
    }

    /// The rows, once no line is left.
    pub open spec fn finished(self) -> Seq<RowView> {
        self.pairs_flushed().status_flushed().rows
    }

    /// What holds between any two lines.
    pub open spec fn wf(self) -> bool {
        &&& self.place != Place::Hunk ==> self.dels.len() == 0 && self.adds.len() == 0
        &&& self.file_row matches Some(i) ==> 0 <= i < self.rows.len() && self.rows[i] is File
        &&& forall|i: int|
            0 <= i < self.dels.len() ==> (#[trigger] self.dels[i]).kind == Kind::Del
                && self.dels[i].emph.len() == 0
        &&& forall|i: int|
            0 <= i < self.adds.len() ==> (#[trigger] self.adds[i]).kind == Kind::Add
                && self.adds[i].emph.len() == 0
        &&& 0 <= self.section_start <= self.rows.len()
    }
}

/// The rows that a diff is shown as, without emphasis.
pub open spec fn diff_rows(text: Seq<char>) -> Seq<RowView> {
    ParserView::initial().steps(split_lines(text)).finished()
}

// ---------------------------------------------------------------------------
// The parser
// ---------------------------------------------------------------------------

/// The cells, by their contents.
pub open spec fn cell_views(cells: Seq<Cell>) -> Seq<CellView> {
    cells.map_values(|c: Cell| c@)
}

/// A string that may be absent, by its contents.
pub open spec fn string_view(s: Option<String>) -> Option<Seq<char>> {
    match s {
        Some(t) => Some(t@),
        None => None,
    }
}

/// What is left of some cells behind the first `i`.
spec fn remaining(cells: Seq<Cell>, i: int) -> Seq<Cell> {
    if i <= cells.len() {
        cells.skip(i)
    } else {
        seq![]
    }
}

/// The cells in reverse order.
fn reversed(cells: Vec<Cell>) -> (r: Vec<Cell>)
    ensures
        r@ == cells@.reverse(),
{
    let ghost all = cells@;
    let mut left = cells;
    let mut r: Vec<Cell> = Vec::new();
    assert(all.take(all.len() as int) =~= all);
    while left.len() > 0
        invariant
            left@.len() <= all.len(),
            left@ == all.take(left@.len() as int),
            r@ == all.skip(left@.len() as int).reverse(),
        decreases left@.len(),
    {
        if let Some(cell) = left.pop() {
            r.push(cell);
            assert(r@ =~= all.skip(left@.len() as int).reverse());
        }
    }
    assert(all.skip(0) =~= all);
    r
}

/// Reads a diff line by line.
pub struct Parser {
    pub rows: Vec<Row>,
    pub in_header: bool,
    pub in_hunk: bool,
    /// in a header, inside the data of a binary patch
    pub in_payload: bool,
    pub old_no: u32,
    pub new_no: u32,
    pub dels: Vec<Cell>,
    pub adds: Vec<Cell>,
    pub file_row: Option<usize>,
    /// a rename has set the title; the new path does not override it
    pub title_fixed: bool,
    pub minus_path: Option<String>,
    pub pending_status: Vec<String>,
    pub section_start: usize,
}

impl View for Parser {
    type V = ParserView;

    open spec fn view(&self) -> ParserView {
        ParserView {
            rows: plain_rows(row_views(self.rows@)),
            place: if self.in_header && self.in_payload {
                Place::Payload
            } else if self.in_header {
                Place::Header
            } else if self.in_hunk {
                Place::Hunk
            } else {
                Place::Outside
            },
            old_no: self.old_no,
            new_no: self.new_no,
            dels: cell_views(self.dels@),
            adds: cell_views(self.adds@),
            file_row: match self.file_row {
                Some(i) => Some(i as int),
                None => None,
            },
            title_fixed: self.title_fixed,
            minus_path: string_view(self.minus_path),
            pending: strings(self.pending_status@),
            section_start: self.section_start as int,
        }
    }
}

/// Whether every row carries the emphasis it should.
pub open spec fn all_emphasised(rows: Seq<RowView>) -> bool {
    forall|i: int| 0 <= i < rows.len() ==> (#[trigger] rows[i]).emphasised()
}

/// Whether the rows that were there are there still, but for the title of the
/// current file section.
pub open spec fn rows_kept(before: Parser, after: Parser) -> bool {
    before.rows@.len() <= after.rows@.len() && forall|i: int|
        0 <= i < before.rows@.len() && Some(i) != before@.file_row ==> (#[trigger] after.rows@[i])@
            == before.rows@[i]@
}

impl Parser {
    /// What holds between any two lines.
    pub open spec fn wf(self) -> bool {
        &&& self@.wf()
        &&& !(self.in_header && self.in_hunk)
        &&& self.in_payload ==> self.in_header
        &&& all_emphasised(row_views(self.rows@))
    }

    /// Before the first line.
    pub fn new() -> (p: Parser)
        ensures
            p.wf(),
            p@ == ParserView::initial(),
    {
        let p = Parser {
            rows: Vec::new(),
            in_header: false,
            in_hunk: false,
            in_payload: false,
            old_no: 0,
            new_no: 0,
            dels: Vec::new(),
            adds: Vec::new(),
            file_row: None,
            title_fixed: false,
            minus_path: None,
            pending_status: Vec::new(),
            section_start: 0,
        };
        proof {
            assert(p@.rows =~= Seq::<RowView>::empty());
            assert(p@.dels =~= Seq::<CellView>::empty());
            assert(p@.adds =~= Seq::<CellView>::empty());
            assert(p@.pending =~= Seq::<Seq<char>>::empty());
        }
        p
    }

    /// Appends a row.
    fn push_row(&mut self, row: Row)
        requires
            old(self).wf(),
            row@.emphasised(),
        ensures
            final(self).wf(),
            rows_kept(*old(self), *final(self)),
            final(self)@ == old(self)@.with_row(row@.plain()),
            final(self).in_header == old(self).in_header,
            final(self).in_hunk == old(self).in_hunk,
            final(self).in_payload == old(self).in_payload,
    {
        let ghost before = self.rows@;
        self.rows.push(row);
        proof {
            assert(row_views(self.rows@) =~= row_views(before).push(row@));
            assert(plain_rows(row_views(self.rows@)) =~= plain_rows(row_views(before)).push(
                row@.plain(),
            ));
        }
    }

    /// Puts the waiting deletions and additions in rows, side by side.
    pub fn flush_pairs(&mut self)
        requires
            old(self).wf(),
        ensures
            final(self).wf(),
            rows_kept(*old(self), *final(self)),
            final(self)@ == old(self)@.pairs_flushed(),
            final(self).in_header == old(self).in_header,
            final(self).in_hunk == old(self).in_hunk,
            final(self).in_payload == old(self).in_payload,
    {
        let mut dels: Vec<Cell> = Vec::new();
        let mut adds: Vec<Cell> = Vec::new();
        std::mem::swap(&mut dels, &mut self.dels);
        std::mem::swap(&mut adds, &mut self.adds);
        let ghost d = cell_views(dels@);
        let ghost a = cell_views(adds@);
        let ghost start = self@;
        let n: usize = if dels.len() > adds.len() {
            dels.len()
        } else {
            adds.len()
        };
        let ghost ds = dels@;
        let ghost ads = adds@;
        let mut dels_left = reversed(dels);
        let mut adds_left = reversed(adds);
        let mut i: usize = 0;
        proof {
            assert(self@.dels =~= Seq::<CellView>::empty());
            assert(self@.adds =~= Seq::<CellView>::empty());
            assert(paired(d, a).take(0) =~= Seq::<RowView>::empty());
            assert(start.rows + paired(d, a).take(0) =~= start.rows);
            assert(remaining(ds, 0) =~= ds);
            assert(remaining(ads, 0) =~= ads);
        }
        while i < n
            invariant
                i <= n,
                n == paired(d, a).len(),
                d == cell_views(ds),
                a == cell_views(ads),
                dels_left@ == remaining(ds, i as int).reverse(),
                adds_left@ == remaining(ads, i as int).reverse(),
                forall|j: int|
                    0 <= j < d.len() ==> (#[trigger] d[j]).kind == Kind::Del && d[j].emph.len()
                        == 0,
                forall|j: int|
                    0 <= j < a.len() ==> (#[trigger] a[j]).kind == Kind::Add && a[j].emph.len()
                        == 0,
                self.wf(),
                rows_kept(*old(self), *self),
                self.in_header == old(self).in_header,
                self.in_hunk == old(self).in_hunk,
                self.in_payload == old(self).in_payload,
                self@ == (ParserView { rows: start.rows + paired(d, a).take(i as int), ..start }),
            decreases n - i,
        {
            let left = dels_left.pop();
            let right = adds_left.pop();
            let ghost left_view = side_view(left);
            let ghost right_view = side_view(right);
            proof {
                if i < ds.len() {
                    assert(d[i as int] == ds[i as int]@);
                }
                if i < ads.len() {
                    assert(a[i as int] == ads[i as int]@);
                }
                assert(dels_left@ =~= remaining(ds, i + 1).reverse());
                assert(adds_left@ =~= remaining(ads, i + 1).reverse());
                assert(left_view == nth_cell(d, i as int));
                assert(right_view == nth_cell(a, i as int));
            }
            let row = match (left, right) {
                (Some(mut l), Some(mut r)) => {
                    let (ea, eb) = word_emph(l.text.as_str(), r.text.as_str());
                    l.emph = ea;
                    r.emph = eb;
                    Row::Line { left: Some(l), right: Some(r) }
                },
                (left, right) => Row::Line { left, right },
            };
            proof {
                let shown = RowView::Line { left: left_view, right: right_view };
                assert(row@.plain().plain() == row@.plain());
                if left_view is Some {
                    assert(left_view->0.emph =~= Seq::<(usize, usize)>::empty());
                    assert(left_view->0.plain() == left_view->0);
                }
                if right_view is Some {
                    assert(right_view->0.emph =~= Seq::<(usize, usize)>::empty());
                    assert(right_view->0.plain() == right_view->0);
                }
                assert(row@.plain() == shown);
                assert(paired(d, a)[i as int] == shown);
            }
            self.push_row(row);
            i += 1;
            assert(self@.rows =~= start.rows + paired(d, a).take(i as int));
        }
        assert(paired(d, a).take(i as int) =~= paired(d, a));
    }

    /// At the end of a section: if no content followed the file header, the mode
    /// notes are what there is to show of it.
    pub fn flush_status(&mut self)
        requires
            old(self).wf(),
        ensures
            final(self).wf(),
            rows_kept(*old(self), *final(self)),
            final(self)@ == old(self)@.status_flushed(),
            final(self).in_header == old(self).in_header,
            final(self).in_hunk == old(self).in_hunk,
            final(self).in_payload == old(self).in_payload,
    {
        let mut pending: Vec<String> = Vec::new();
        std::mem::swap(&mut pending, &mut self.pending_status);
        let ghost all = pending@;
        let ghost notes = raw_rows(strings(pending@));
        let ghost start = self@;
        assert(self@.pending =~= Seq::<Seq<char>>::empty());
        if self.rows.len() == self.section_start {
            assert(start.rows + notes.take(0) =~= start.rows);
            for line in it: pending
                invariant
                    it.seq() == all,
                    notes == raw_rows(strings(all)),
                    self.wf(),
                    rows_kept(*old(self), *self),
                    self.in_header == old(self).in_header,
                    self.in_hunk == old(self).in_hunk,
                    self.in_payload == old(self).in_payload,
                    self@ == (ParserView {
                        rows: start.rows + notes.take(it.index() as int),
                        ..start
                    }),
            {
                let ghost i = it.index() as int;
                assert(notes[i] == RowView::Raw(line@));
                self.push_row(Row::Raw(line));
                assert(self@.rows =~= start.rows + notes.take(i + 1));
            }
            assert(notes.take(all.len() as int) =~= notes);
        }
    }

    /// The title of the current file section.
    pub fn title(&self) -> (t: String)
        requires
            self.wf(),
        ensures
            t@ == self@.title(),
    {
        match self.file_row {
            Some(i) => {
                assert(self@.rows[i as int] == self.rows@[i as int]@.plain());
                match &self.rows[i] {
                    Row::File(t) => t.clone(),
                    _ => String::new(),
                }
            },
            None => String::new(),
        }
    }

    /// Sets the title of the current file section.
    pub fn set_title(&mut self, t: String)
        requires
            old(self).wf(),
        ensures
            final(self).wf(),
            rows_kept(*old(self), *final(self)),
            final(self)@ == old(self)@.with_title(t@),
            final(self).in_header == old(self).in_header,
            final(self).in_hunk == old(self).in_hunk,
            final(self).in_payload == old(self).in_payload,
    {
        if let Some(i) = self.file_row {
            let ghost before = self.rows@;
            let row = Row::File(t);
            self.rows.set(i, row);
            proof {
                assert(row_views(self.rows@) =~= row_views(before).update(i as int, row@));
                assert(plain_rows(row_views(self.rows@)) =~= plain_rows(row_views(before)).update(
                    i as int,
                    row@,
                ));
            }
        }
    }

    /// Reads a line between a file's first line and its first hunk.
    pub fn header_line(&mut self, line: &str)
        requires
            old(self).wf(),
            old(self).in_header,
        ensures
            final(self).wf(),
            rows_kept(*old(self), *final(self)),
            final(self).in_header,
            final(self)@ == old(self)@.after(
                line@,
                header_meaning_at(old(self)@.place, line@),
            ),
    {
        let chars = chars_of(line);
        if self.in_payload && payload_line(&chars) {
            return;
        }
        self.in_payload = false;
        if let Some(p) = strip_prefix(&chars, "--- ") {
            self.minus_path = Some(strip_prefix_ab(p.as_str()));
        } else if let Some(p) = strip_prefix(&chars, "+++ ") {
            if !self.title_fixed {
                let name = if p == "/dev/null".to_owned() {
                    match &self.minus_path {
                        Some(path) => path.clone(),
                        None => String::new(),
                    }
                } else {
                    strip_prefix_ab(p.as_str())
                };
                self.set_title(name);
            }
        } else if let Some(from) = strip_prefix(&chars, "rename from ") {
            self.set_title(from);
        } else if let Some(to) = strip_prefix(&chars, "rename to ") {
            let mut name = self.title();
            push_all(&mut name, " → ");
            push_all(&mut name, to.as_str());
            self.set_title(name);
            self.title_fixed = true;
        } else if starts_with(&chars, "Binary files ") {
            self.push_row(Row::Raw(line.to_owned()));
        } else if starts_with(&chars, "new file mode") || starts_with(&chars, "deleted file mode")
            || starts_with(&chars, "old mode") || starts_with(&chars, "new mode") {
            let ghost before = self.pending_status@;
            self.pending_status.push(line.to_owned());
            assert(strings(self.pending_status@) =~= strings(before).push(line@));
        } else if line.to_owned() == "GIT binary patch".to_owned() {
            self.in_payload = true;
        } else if !(starts_with(&chars, "index ") || starts_with(&chars, "similarity index ")
            || starts_with(&chars, "dissimilarity index ") || starts_with(&chars, "copy from ")
            || starts_with(&chars, "copy to ")) {
            // shown, but no content of the section: the mode notes do not give way to it
            let only_notes = self.rows.len() == self.section_start;
            self.push_row(Row::Raw(line.to_owned()));
            if only_notes {
                self.section_start = self.rows.len();
            }
        }
    }

    /// Reads a line.
    pub fn line(&mut self, line: &str)
        requires
            old(self).wf(),
        ensures
            final(self).wf(),
            rows_kept(*old(self), *final(self)),
            final(self)@ == old(self)@.step(line@),
    {
        let chars = chars_of(line);
        if let Some(rest) = strip_prefix(&chars, "diff --git ") {
            self.flush_pairs();
            self.flush_status();
            if self.rows.len() > 0 {
                let blank = String::new();
                assert(blank@ =~= Seq::<char>::empty());
                self.push_row(Row::Raw(blank));
            }
            let name = file_name(rest.as_str());
            let at: usize = self.rows.len();
            self.push_row(Row::File(name));
            self.file_row = Some(at);
            self.section_start = self.rows.len();
            self.in_header = true;
            self.in_hunk = false;
            self.in_payload = false;
            self.title_fixed = false;
            self.minus_path = None;
            return;
        }
        if starts_with(&chars, "@@ ") && (self.in_header || self.in_hunk) {
            self.flush_pairs();
            match hunk_starts(line) {
                Some((old, new)) => {
                    self.push_row(Row::Hunk(line.to_owned()));
                    self.old_no = old;
                    self.new_no = new;
                    self.in_header = false;
                    self.in_payload = false;
                    self.in_hunk = true;
                },
                None => {
                    // a hunk header that cannot be read stays visible
                    self.push_row(Row::Raw(line.to_owned()));
                    self.in_header = false;
                    self.in_payload = false;
                    self.in_hunk = false;
                },
            }
            return;
        }
        if self.in_header {
            self.header_line(line);
            return;
        }
        if self.in_hunk {
            self.body_line(line);
            return;
        }
        proof {
            assert(self@.dels =~= Seq::<CellView>::empty());
            assert(self@.adds =~= Seq::<CellView>::empty());
            assert(self@.rows + paired(self@.dels, self@.adds) =~= self@.rows);
        }
        self.push_row(Row::Raw(line.to_owned()));
    }

    /// Reads a line inside a hunk.
    fn body_line(&mut self, line: &str)
        requires
            old(self).wf(),
            old(self).in_hunk,
        ensures
            final(self).wf(),
            rows_kept(*old(self), *final(self)),
            final(self)@ == old(self)@.after(line@, body_meaning(line@)),
    {
        let chars = chars_of(line);
        if chars.len() == 0 || chars[0] == ' ' {
            self.flush_pairs();
            let from: usize = if chars.len() == 0 {
                0
            } else {
                1
            };
            let text = string_of(&chars, from, chars.len());
            let left = Cell {
                no: self.old_no,
                text: text.clone(),
                kind: Kind::Ctx,
                emph: Vec::new(),
            };
            let right = Cell { no: self.new_no, text, kind: Kind::Ctx, emph: Vec::new() };
            proof {
                let shown = if line@.len() == 0 {
                    line@
                } else {
                    line@.skip(1)
                };
                assert(text@ =~= shown);
                assert(left@.plain() =~= plain_cell(self.old_no, shown, Kind::Ctx));
                assert(right@.plain() =~= plain_cell(self.new_no, shown, Kind::Ctx));
            }
            self.push_row(Row::Line { left: Some(left), right: Some(right) });
            self.old_no = self.old_no.saturating_add(1);
            self.new_no = self.new_no.saturating_add(1);
        } else if chars[0] == '-' {
            let text = string_of(&chars, 1, chars.len());
            let ghost before = self.dels@;
            let cell = Cell { no: self.old_no, text, kind: Kind::Del, emph: Vec::new() };
            self.dels.push(cell);
            proof {
                assert(text@ =~= line@.skip(1));
                assert(cell@.emph =~= Seq::<(usize, usize)>::empty());
                assert(cell@ == plain_cell(self.old_no, line@.skip(1), Kind::Del));
                assert(cell_views(self.dels@) =~= cell_views(before).push(cell@));
            }
            self.old_no = self.old_no.saturating_add(1);
        } else if chars[0] == '+' {
            let text = string_of(&chars, 1, chars.len());
            let ghost before = self.adds@;
            let cell = Cell { no: self.new_no, text, kind: Kind::Add, emph: Vec::new() };
            self.adds.push(cell);
            proof {
                assert(text@ =~= line@.skip(1));
                assert(cell@.emph =~= Seq::<(usize, usize)>::empty());
                assert(cell@ == plain_cell(self.new_no, line@.skip(1), Kind::Add));
                assert(cell_views(self.adds@) =~= cell_views(before).push(cell@));
            }
            self.new_no = self.new_no.saturating_add(1);
        } else if chars[0] == '\\' {
            // "\ No newline at end of file"
        } else {
            self.flush_pairs();
            self.in_hunk = false;
            self.push_row(Row::Raw(line.to_owned()));
        }
    }
}

/// Whether a character is a digit to base 85.
fn digit85(c: char) -> (b: bool)
    ensures
        b == is_digit85(c),
{
    ('0' <= c && c <= '9') || ('A' <= c && c <= 'Z') || ('a' <= c && c <= 'z') || c == '!' || ('#'
        <= c && c <= '&') || ('(' <= c && c <= '+') || c == '-' || (';' <= c && c <= '@') || ('^'
        <= c && c <= '`') || ('{' <= c && c <= '~')
}

/// Whether a line is data to base 85.
fn data_line(chars: &Vec<char>) -> (b: bool)
    ensures
        b == is_data(chars@),
{
    if chars.len() < 2 || (chars.len() - 1) % 5 != 0 {
        return false;
    }
    let first = chars[0];
    if !(('A' <= first && first <= 'Z') || ('a' <= first && first <= 'z')) {
        return false;
    }
    let mut i: usize = 1;
    while i < chars.len()
        invariant
            1 <= i <= chars@.len(),
            forall|j: int| 1 <= j < i ==> is_digit85(#[trigger] chars@[j]),
        decreases chars@.len() - i,
    {
        if !digit85(chars[i]) {
            return false;
        }
        i += 1;
    }
    true
}

/// Whether the characters are a word and a space and then digits, and nothing else.
fn announces(chars: &Vec<char>, word: &str) -> (b: bool)
    ensures
        b == (has_prefix(chars@, word@) && all_digits(after_prefix(chars@, word@))),
{
    match strip_prefix(chars, word) {
        Some(rest) => digits_only(&chars_of(rest.as_str())),
        None => false,
    }
}

/// Whether a line belongs to the data of a binary patch.
fn payload_line(chars: &Vec<char>) -> (b: bool)
    ensures
        b == is_payload(chars@),
{
    chars.len() == 0 || announces(chars, "literal ") || announces(chars, "delta ") || data_line(
        chars,
    )
}

/// The name in the first line of a file section: what follows the last ` b/`.
fn file_name(rest: &str) -> (name: String)
    ensures
        name@ == section_name(rest@),
{
    let chars = chars_of(rest);
    match find_last(&chars, " b/") {
        Some(p) => {
            proof {
                reveal_strlit(" b/");
            }
            let n: usize = chars.len();
            let name = string_of(&chars, p + 3, n);
            assert(name@ =~= section_name(rest@));
            name
        },
        None => rest.to_owned(),
    }
}

/// A path without the `a/` or `b/` that it may begin with.
pub fn strip_prefix_ab(p: &str) -> (path: String)
    ensures
        path@ == bare_path(p@),
{
    let chars = chars_of(p);
    if let Some(rest) = strip_prefix(&chars, "a/") {
        rest
    } else if let Some(rest) = strip_prefix(&chars, "b/") {
        rest
    } else {
        p.to_owned()
    }
}

/// The number in front of the first comma of a word that begins with `sign`.
fn start_after(word: &str, sign: char) -> (n: Option<u32>)
    ensures
        n == signed_start(word@, sign),
{
    let chars = chars_of(word);
    if chars.len() == 0 || chars[0] != sign {
        return None;
    }
    let ghost field = chars@.skip(1);
    let mut end: usize = 1;
    while end < chars.len() && chars[end] != ','
        invariant
            1 <= end <= chars@.len(),
            field == chars@.skip(1),
            forall|i: int| 0 <= i < end - 1 ==> #[trigger] field[i] != ',',
        decreases chars@.len() - end,
    {
        assert(field[end - 1] == chars@[end as int]);
        end += 1;
    }
    proof {
        if end < chars@.len() {
            assert(field[end - 1] == chars@[end as int]);
        }
        lemma_run_len(field, not_comma(), (end - 1) as nat);
        assert(field.take(end - 1) =~= chars@.subrange(1, end as int));
    }
    parse_number(&chars, 1, end)
}

/// "@@ -a[,b] +c[,d] @@ …" → (a, c)
pub fn hunk_starts(line: &str) -> (starts: Option<(u32, u32)>)
    ensures
        starts == hunk_numbers(line@),
{
    let found = words_of(line);
    assert(strings(found@).len() == found@.len());
    if found.len() < 3 {
        return None;
    }
    assert(strings(found@)[1] == found@[1]@);
    assert(strings(found@)[2] == found@[2]@);
    let old = start_after(found[1].as_str(), '-')?;
    let new = start_after(found[2].as_str(), '+')?;
    Some((old, new))
}

/// The rows of a diff that has no escape sequences left.
pub fn parse_text(text: &str) -> (rows: Vec<Row>)
    ensures
        plain_rows(row_views(rows@)) == diff_rows(text@),
        all_emphasised(row_views(rows@)),
{
    let lines = lines_of(text);
    let ghost all = split_lines(text@);
    let mut p = Parser::new();
    let mut i: usize = 0;
    assert(all.take(0) =~= Seq::<Seq<char>>::empty());
    while i < lines.len()
        invariant
            all == strings(lines@),
            i <= lines@.len(),
            p.wf(),
            p@ == ParserView::initial().steps(all.take(i as int)),
        decreases lines@.len() - i,
    {
        p.line(lines[i].as_str());
        proof {
            assert(all.take(i + 1).drop_last() =~= all.take(i as int));
            assert(all.take(i + 1).last() == lines@[i as int]@);
        }
        i += 1;
    }
    assert(all.take(i as int) =~= all);
    p.flush_pairs();
    p.flush_status();
    p.rows
}

/// What `String::from_utf8_lossy` makes of bytes.
pub uninterp spec fn utf8_lossy(bytes: Seq<u8>) -> Seq<char>;

/// `String::from_utf8_lossy` reads bytes as UTF-8 and puts a replacement
/// character in place of what is not. Bytes that are UTF-8 throughout come out
/// as the text they encode; what other bytes become has no more than a name.
#[verifier::external_body]
pub(crate) fn read_utf8(bytes: &[u8]) -> (text: String)
    ensures
        text@ == utf8_lossy(bytes@),
        valid_utf8(bytes@) ==> text@ == decode_utf8(bytes@),
{
    String::from_utf8_lossy(bytes).into_owned()
}

/// The rows that a diff is shown as, whatever the bytes are.
pub fn parse(input: &[u8]) -> (rows: Vec<Row>)
    ensures
        plain_rows(row_views(rows@)) == diff_rows(utf8_lossy(without_escapes(input@))),
        valid_utf8(without_escapes(input@)) ==> plain_rows(row_views(rows@)) == diff_rows(
            decode_utf8(without_escapes(input@)),
        ),
        all_emphasised(row_views(rows@)),
{
    let clean = strip_ansi(input);
    let text = read_utf8(clean.as_slice());
    parse_text(text.as_str())
}

} // verus!
