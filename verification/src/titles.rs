//! What holds of the headers of file sections: their titles, their mode notes, and
//! what of them is not shown.

use vstd::prelude::*;

use crate::diff::{
    bare_path, header_meaning, is_digit85, is_payload, meaning, section_name, Meaning, ParserView,
    Place, RowView,
};
use crate::reading::lemma_other_start;
use crate::text::{
    after_prefix, decimal, has_prefix, lemma_decimal_digits, lemma_last_match, matches_at,
};

verus! {

/// A text that is put together from a front and a rest begins with the front.
proof fn lemma_prefixed(prefix: Seq<char>, rest: Seq<char>)
    ensures
        has_prefix(prefix + rest, prefix),
        after_prefix(prefix + rest, prefix) == rest,
{
    assert((prefix + rest).subrange(0, prefix.len() as int) =~= prefix);
    assert((prefix + rest).skip(prefix.len() as int) =~= rest);
}

/// A text does not begin with what differs from it somewhere.
proof fn lemma_other_at(s: Seq<char>, prefix: Seq<char>, i: int)
    requires
        0 <= i < prefix.len(),
        i < s.len() ==> s[i] != prefix[i],
    ensures
        !has_prefix(s, prefix),
{
    if has_prefix(s, prefix) {
        assert(s.subrange(0, prefix.len() as int)[i] == s[i]);
    }
}

/// Whether a line of a header section is read as one.
proof fn lemma_header_line(place: Place, line: Seq<char>)
    requires
        place == Place::Header,
        line.len() > 0 ==> line[0] != '@',
        line.len() > 1 ==> line[0] != 'd' || line[1] != 'i' || (line.len() > 2 && line[2] != 'f'),
    ensures
        meaning(place, line) == header_meaning(line),
{
    reveal_strlit("@@ ");
    reveal_strlit("diff --git ");
    lemma_other_start(line, "@@ "@);
    if line.len() == 0 || line[0] != 'd' {
        lemma_other_at(line, "diff --git "@, 0);
    } else if line.len() == 1 || line[1] != 'i' {
        lemma_other_at(line, "diff --git "@, 1);
    } else {
        lemma_other_at(line, "diff --git "@, 2);
    }
}

// ---------------------------------------------------------------------------
// The first line of a section
// ---------------------------------------------------------------------------

/// Whether a text stands nowhere in another one.
pub open spec fn is_nowhere(pat: Seq<char>, s: Seq<char>) -> bool {
    forall|i: int| !#[trigger] matches_at(s, pat, i)
}

/// The first line of a file section, as git writes it.
pub open spec fn first_line(old: Seq<char>, new: Seq<char>) -> Seq<char> {
    "diff --git a/"@ + old + " b/"@ + new
}

/// The name in the first line of a section is that of the new file.
proof fn lemma_section_name(front: Seq<char>, new: Seq<char>)
    requires
        is_nowhere(" b/"@, new),
    ensures
        section_name(front + " b/"@ + new) == new,
{
    reveal_strlit(" b/");
    let pat = " b/"@;
    let s = front + pat + new;
    let at = front.len() as int;
    assert(s.subrange(at, at + 3) =~= pat);
    assert forall|i: int| at < i <= s.len() implies !#[trigger] matches_at(s, pat, i) by {
        if matches_at(s, pat, i) {
            assert(s.subrange(i, i + 3)[0] == s[i]);
            if i < at + 3 {
                assert(s[i] == pat[i - at]);
            } else {
                assert(new.subrange(i - at - 3, i - at) =~= s.subrange(i, i + 3));
                assert(matches_at(new, pat, i - at - 3));
            }
        }
    }
    lemma_last_match(s, pat, s.len() as int);
    assert(matches_at(s, pat, at));
    assert(s.skip(at + 3) =~= new);
}

/// A file section begins with a row for its file, titled by the new file's name. What
/// came before it is finished, and a blank row keeps the two apart.
pub proof fn law_a_section_begins_with_its_file(p: ParserView, old: Seq<char>, new: Seq<char>)
    requires
        p.wf(),
        is_nowhere(" b/"@, new),
    ensures
        ({
            let before = p.finished();
            let after = p.step(first_line(old, new));
            &&& before.len() == 0 ==> after.rows == seq![RowView::File(new)]
            &&& before.len() > 0 ==> after.rows == before.push(RowView::Raw(seq![])).push(
                RowView::File(new),
            )
            &&& after.file_row == Some(after.rows.len() - 1)
            &&& after.place == Place::Header
            &&& after.dels.len() == 0 && after.adds.len() == 0
            &&& after.pending.len() == 0
            &&& after.section_start == after.rows.len()
            &&& !after.title_fixed && after.minus_path is None
        }),
{
    reveal_strlit("diff --git ");
    reveal_strlit("diff --git a/");
    let line = first_line(old, new);
    let rest = seq!['a', '/'] + old + " b/"@ + new;
    assert(line =~= "diff --git "@ + rest) by {
        assert("diff --git a/"@ =~= "diff --git "@ + seq!['a', '/']);
    }
    lemma_prefixed("diff --git "@, rest);
    lemma_section_name(seq!['a', '/'] + old, new);
    let after = p.step(line);
    let before = p.finished();
    if before.len() == 0 {
        assert(after.rows =~= seq![RowView::File(new)]);
    }
}

/// Where the first line of a section does not name a new file, it is the title as it is.
pub proof fn law_an_odd_first_line_is_the_title(p: ParserView, rest: Seq<char>)
    requires
        p.wf(),
        is_nowhere(" b/"@, rest),
    ensures
        p.step("diff --git "@ + rest).rows.last() == RowView::File(rest),
        p.step("diff --git "@ + rest).place == Place::Header,
{
    lemma_prefixed("diff --git "@, rest);
    lemma_last_match(rest, " b/"@, rest.len() as int);
}

// ---------------------------------------------------------------------------
// Titles
// ---------------------------------------------------------------------------

/// The path of the new file is the title of its section.
pub proof fn law_the_new_path_is_the_title(p: ParserView, path: Seq<char>)
    requires
        p.wf(),
        p.place == Place::Header,
        p.file_row is Some,
        !p.title_fixed,
    ensures
        p.step("+++ b/"@ + path).rows == p.rows.update(p.file_row->0, RowView::File(path)),
        p.step("+++ b/"@ + path).place == Place::Header,
        p.step("+++ b/"@ + path).pending == p.pending,
{
    reveal_strlit("+++ b/");
    reveal_strlit("+++ ");
    reveal_strlit("--- ");
    reveal_strlit("/dev/null");
    reveal_strlit("a/");
    reveal_strlit("b/");
    let line = "+++ b/"@ + path;
    let written = "b/"@ + path;
    assert(line =~= "+++ "@ + written);
    lemma_prefixed("+++ "@, written);
    lemma_header_line(p.place, line);
    lemma_other_at(line, "--- "@, 0);
    assert(written[0] == 'b' && "/dev/null"@[0] == '/');
    lemma_other_at(written, "a/"@, 0);
    lemma_prefixed("b/"@, path);
}

/// So it is with a path that is written without a side, as long as it is one.
pub proof fn law_any_new_path_is_the_title(p: ParserView, written: Seq<char>)
    requires
        p.wf(),
        p.place == Place::Header,
        p.file_row is Some,
        !p.title_fixed,
        written != "/dev/null"@,
        written.len() < 2 || written[1] != '/' || (written[0] != 'a' && written[0] != 'b'),
    ensures
        p.step("+++ "@ + written).rows == p.rows.update(p.file_row->0, RowView::File(written)),
{
    reveal_strlit("+++ ");
    reveal_strlit("--- ");
    let line = "+++ "@ + written;
    lemma_prefixed("+++ "@, written);
    lemma_header_line(p.place, line);
    lemma_other_at(line, "--- "@, 0);
    law_only_the_side_is_stripped(written);
}

/// The section of a file that is gone has the path of the old file for a title.
pub proof fn law_a_deleted_file_keeps_its_path(p: ParserView, path: Seq<char>)
    requires
        p.wf(),
        p.place == Place::Header,
        p.file_row is Some,
        !p.title_fixed,
    ensures
        p.step("--- a/"@ + path).step("+++ /dev/null"@).rows == p.rows.update(
            p.file_row->0,
            RowView::File(path),
        ),
        p.step("--- a/"@ + path).rows == p.rows,
{
    reveal_strlit("--- a/");
    reveal_strlit("+++ ");
    reveal_strlit("--- ");
    reveal_strlit("/dev/null");
    reveal_strlit("+++ /dev/null");
    reveal_strlit("a/");
    let line = "--- a/"@ + path;
    let written = "a/"@ + path;
    assert(line =~= "--- "@ + written);
    lemma_prefixed("--- "@, written);
    lemma_header_line(p.place, line);
    lemma_prefixed("a/"@, path);
    let q = p.step(line);
    let gone = "+++ /dev/null"@;
    assert(gone =~= "+++ "@ + "/dev/null"@);
    lemma_prefixed("+++ "@, "/dev/null"@);
    lemma_header_line(q.place, gone);
    lemma_other_at(gone, "--- "@, 0);
}

/// The section of a renamed file has both its names for a title, the old one first,
/// and the paths below do not change that.
pub proof fn law_a_renamed_file_has_both_names(
    p: ParserView,
    from: Seq<char>,
    to: Seq<char>,
    old_path: Seq<char>,
    new_path: Seq<char>,
)
    requires
        p.wf(),
        p.place == Place::Header,
        p.file_row is Some,
    ensures
        ({
            let renamed = p.step("rename from "@ + from).step("rename to "@ + to);
            let title = RowView::File(from + " → "@ + to);
            &&& renamed.rows == p.rows.update(p.file_row->0, title)
            &&& renamed.step("--- "@ + old_path).step("+++ "@ + new_path).rows == renamed.rows
        }),
{
    reveal_strlit("+++ ");
    reveal_strlit("--- ");
    reveal_strlit("rename from ");
    reveal_strlit("rename to ");
    let first = "rename from "@ + from;
    lemma_prefixed("rename from "@, from);
    lemma_header_line(p.place, first);
    lemma_other_at(first, "--- "@, 0);
    lemma_other_at(first, "+++ "@, 0);
    let q = p.step(first);
    let second = "rename to "@ + to;
    lemma_prefixed("rename to "@, to);
    lemma_header_line(q.place, second);
    lemma_other_at(second, "--- "@, 0);
    lemma_other_at(second, "+++ "@, 0);
    lemma_other_at(second, "rename from "@, 7);
    let r = q.step(second);
    assert(r.rows =~= p.rows.update(p.file_row->0, RowView::File(from + " → "@ + to)));
    let third = "--- "@ + old_path;
    lemma_prefixed("--- "@, old_path);
    lemma_header_line(r.place, third);
    let s = r.step(third);
    let fourth = "+++ "@ + new_path;
    lemma_prefixed("+++ "@, new_path);
    lemma_header_line(s.place, fourth);
    lemma_other_at(fourth, "--- "@, 0);
}

/// A path loses an `a/` or a `b/` that it begins with, and nothing else.
pub proof fn law_only_the_side_is_stripped(path: Seq<char>)
    ensures
        bare_path("a/"@ + path) == path,
        bare_path("b/"@ + path) == path,
        path.len() < 2 || path[1] != '/' || (path[0] != 'a' && path[0] != 'b') ==> bare_path(path)
            == path,
{
    reveal_strlit("a/");
    reveal_strlit("b/");
    lemma_prefixed("a/"@, path);
    lemma_prefixed("b/"@, path);
    lemma_other_at("b/"@ + path, "a/"@, 0);
    if path.len() < 2 || path[1] != '/' {
        lemma_other_at(path, "a/"@, 1);
        lemma_other_at(path, "b/"@, 1);
    } else if path[0] != 'a' && path[0] != 'b' {
        lemma_other_at(path, "a/"@, 0);
        lemma_other_at(path, "b/"@, 0);
    }
}

// ---------------------------------------------------------------------------
// Mode notes, and lines that are not shown
// ---------------------------------------------------------------------------

/// Whether a line is a note on a file's mode, or that it came or went.
pub open spec fn is_note(line: Seq<char>) -> bool {
    exists|rest: Seq<char>|
        #![trigger "old mode"@ + rest]
        line == "old mode"@ + rest || line == "new mode"@ + rest || line == "new file mode"@ + rest
            || line == "deleted file mode"@ + rest
}

/// A note is read as one.
proof fn lemma_note(place: Place, line: Seq<char>)
    requires
        place == Place::Header,
        is_note(line),
    ensures
        meaning(place, line) == Meaning::Status,
{
    let rest = choose|rest: Seq<char>|
        #![trigger "old mode"@ + rest]
        line == "old mode"@ + rest || line == "new mode"@ + rest || line == "new file mode"@ + rest
            || line == "deleted file mode"@ + rest;
    lemma_prefixed("old mode"@, rest);
    lemma_prefixed("new mode"@, rest);
    lemma_prefixed("new file mode"@, rest);
    lemma_prefixed("deleted file mode"@, rest);
    reveal_strlit("old mode");
    reveal_strlit("new mode");
    reveal_strlit("new file mode");
    reveal_strlit("deleted file mode");
    reveal_strlit("--- ");
    reveal_strlit("+++ ");
    reveal_strlit("rename from ");
    reveal_strlit("rename to ");
    reveal_strlit("Binary files ");
    lemma_header_line(place, line);
    lemma_other_at(line, "--- "@, 0);
    lemma_other_at(line, "+++ "@, 0);
    lemma_other_at(line, "rename from "@, 0);
    lemma_other_at(line, "rename to "@, 0);
    lemma_other_at(line, "Binary files "@, 0);
}

/// Notes wait for the end of their section.
proof fn lemma_notes_wait(p: ParserView, notes: Seq<Seq<char>>)
    requires
        p.place == Place::Header,
        forall|i: int| 0 <= i < notes.len() ==> is_note(#[trigger] notes[i]),
    ensures
        p.steps(notes) == (ParserView { pending: p.pending + notes, ..p }),
    decreases notes.len(),
{
    if notes.len() == 0 {
        assert(p.pending + notes =~= p.pending);
    } else {
        let front = notes.drop_last();
        assert forall|i: int| 0 <= i < front.len() implies is_note(#[trigger] front[i]) by {
            assert(front[i] == notes[i]);
        }
        lemma_notes_wait(p, front);
        assert(is_note(notes[notes.len() - 1]));
        lemma_note(p.place, notes.last());
        assert((p.pending + front).push(notes.last()) =~= p.pending + notes);
    }
}

/// Where a section has no content, its mode notes are shown below its title, all of
/// them and in order; where it has, they are not. That holds at the end of the diff and
/// where the next section begins.
pub proof fn law_mode_notes_stand_for_missing_content(
    p: ParserView,
    notes: Seq<Seq<char>>,
    content: Seq<RowView>,
)
    requires
        p.wf(),
        p.place == Place::Header,
        p.pending.len() == 0,
        p.rows.len() == p.section_start,
        p.dels.len() == 0,
        p.adds.len() == 0,
        forall|i: int| 0 <= i < notes.len() ==> is_note(#[trigger] notes[i]),
    ensures
        ({
            let q = p.steps(notes);
            &&& q.rows == p.rows
            &&& q.finished().len() == p.rows.len() + notes.len()
            &&& q.finished().take(p.rows.len() as int) == p.rows
            &&& forall|i: int|
                0 <= i < notes.len() ==> #[trigger] q.finished()[p.rows.len() + i] == RowView::Raw(
                    notes[i],
                )
            &&& content.len() > 0 ==> (ParserView { rows: p.rows + content, ..q }).finished()
                == p.rows + content
        }),
{
    lemma_notes_wait(p, notes);
    let q = p.steps(notes);
    assert(q.pending =~= notes);
    assert(q.pairs_flushed().rows =~= p.rows);
    assert(q.finished().take(p.rows.len() as int) =~= p.rows);
    let filled = ParserView { rows: p.rows + content, ..q };
    assert(filled.pairs_flushed().rows =~= p.rows + content);
}

/// Whether a line begins as the lines of a header do that have nothing to show.
pub open spec fn is_silent(line: Seq<char>, rest: Seq<char>) -> bool {
    line == "index "@ + rest || line == "similarity index "@ + rest || line
        == "dissimilarity index "@ + rest || line == "copy from "@ + rest || line == "copy to "@
        + rest
}

/// Hashes, similarity and copies are not shown, and change nothing.
pub proof fn law_header_noise_is_not_shown(p: ParserView, line: Seq<char>, rest: Seq<char>)
    requires
        p.place == Place::Header,
        is_silent(line, rest),
    ensures
        p.step(line) == p,
{
    lemma_prefixed("index "@, rest);
    lemma_prefixed("similarity index "@, rest);
    lemma_prefixed("dissimilarity index "@, rest);
    lemma_prefixed("copy from "@, rest);
    lemma_prefixed("copy to "@, rest);
    reveal_strlit("index ");
    reveal_strlit("similarity index ");
    reveal_strlit("dissimilarity index ");
    reveal_strlit("copy from ");
    reveal_strlit("copy to ");
    reveal_strlit("--- ");
    reveal_strlit("+++ ");
    reveal_strlit("rename from ");
    reveal_strlit("rename to ");
    reveal_strlit("Binary files ");
    reveal_strlit("new file mode");
    reveal_strlit("deleted file mode");
    reveal_strlit("old mode");
    reveal_strlit("new mode");
    reveal_strlit("GIT binary patch");
    lemma_header_line(p.place, line);
    lemma_other_at(line, "--- "@, 0);
    lemma_other_at(line, "+++ "@, 0);
    lemma_other_at(line, "rename from "@, 0);
    lemma_other_at(line, "rename to "@, 0);
    lemma_other_at(line, "Binary files "@, 0);
    lemma_other_at(line, "new file mode"@, 0);
    lemma_other_at(line, "deleted file mode"@, 1);
    lemma_other_at(line, "old mode"@, 0);
    lemma_other_at(line, "new mode"@, 0);
    assert(line[0] != "GIT binary patch"@[0]);
}

/// That binary files differ is shown, and is content.
pub proof fn law_binary_files_are_told_of(p: ParserView, rest: Seq<char>)
    requires
        p.wf(),
        p.place == Place::Header,
    ensures
        p.step("Binary files "@ + rest).rows == p.rows.push(
            RowView::Raw("Binary files "@ + rest),
        ),
        p.step("Binary files "@ + rest).finished() == p.rows.push(
            RowView::Raw("Binary files "@ + rest),
        ),
        p.step("Binary files "@ + rest).place == Place::Header,
{
    let line = "Binary files "@ + rest;
    lemma_prefixed("Binary files "@, rest);
    reveal_strlit("Binary files ");
    reveal_strlit("--- ");
    reveal_strlit("+++ ");
    reveal_strlit("rename from ");
    reveal_strlit("rename to ");
    lemma_header_line(p.place, line);
    lemma_other_at(line, "--- "@, 0);
    lemma_other_at(line, "+++ "@, 0);
    lemma_other_at(line, "rename from "@, 0);
    lemma_other_at(line, "rename to "@, 0);
    let q = p.step(line);
    assert(q.pairs_flushed().rows =~= q.rows);
}

// ---------------------------------------------------------------------------
// Binary patches
// ---------------------------------------------------------------------------

/// The digits to base 85.
pub open spec fn alphabet() -> Seq<char> {
    "0123456789ABCDEFGHIJKLMNOPQRSTUVWXYZabcdefghijklmnopqrstuvwxyz!#$%&()*+-;<=>?@^_`{|}~"@
}

/// Whether a line is data of a binary patch: a letter for its length, and digits to base
/// 85 in groups of five.
pub open spec fn is_patch_data(line: Seq<char>, groups: nat) -> bool {
    &&& groups > 0
    &&& line.len() == 1 + 5 * groups
    &&& 'A' <= line[0] <= 'Z' || 'a' <= line[0] <= 'z'
    &&& forall|i: int| 1 <= i < line.len() ==> alphabet().contains(#[trigger] line[i])
}

/// Whether a line belongs to a binary patch: its data, how much of it comes, or the blank
/// line behind it.
pub open spec fn is_patch_line(line: Seq<char>) -> bool {
    ||| line.len() == 0
    ||| exists|groups: nat| is_patch_data(line, groups)
    ||| exists|n: nat| line == "literal "@ + #[trigger] decimal(n)
    ||| exists|n: nat| line == "delta "@ + #[trigger] decimal(n)
}

/// A digit is one.
proof fn lemma_digit85(c: char)
    requires
        alphabet().contains(c),
    ensures
        is_digit85(c),
{
    reveal_strlit(
        "0123456789ABCDEFGHIJKLMNOPQRSTUVWXYZabcdefghijklmnopqrstuvwxyz!#$%&()*+-;<=>?@^_`{|}~",
    );
    let i = choose|i: int| 0 <= i < alphabet().len() && alphabet()[i] == c;
    assert(alphabet().len() == 85);
    assert(is_digit85(alphabet()[i]));
}

/// A line of a binary patch is taken for one.
proof fn lemma_patch_line(line: Seq<char>)
    requires
        is_patch_line(line),
    ensures
        is_payload(line),
        line.len() > 0 ==> line[0] != '@',
        !has_prefix(line, "diff --git "@),
{
    reveal_strlit("diff --git ");
    reveal_strlit("literal ");
    reveal_strlit("delta ");
    if line.len() == 0 {
        lemma_other_at(line, "diff --git "@, 0);
    } else if exists|groups: nat| is_patch_data(line, groups) {
        let groups = choose|groups: nat| is_patch_data(line, groups);
        assert((line.len() - 1) % 5 == 0) by (nonlinear_arith)
            requires
                line.len() == 1 + 5 * groups,
        ;
        assert forall|i: int| 1 <= i < line.len() implies is_digit85(#[trigger] line[i]) by {
            lemma_digit85(line[i]);
        }
        if line.len() > 4 && line[4] == ' ' {
            assert(is_digit85(line[4]));
        }
        lemma_other_at(line, "diff --git "@, 4);
    } else if exists|n: nat| line == "literal "@ + #[trigger] decimal(n) {
        let n = choose|n: nat| line == "literal "@ + #[trigger] decimal(n);
        lemma_prefixed("literal "@, decimal(n));
        lemma_decimal_digits(n);
        lemma_other_at(line, "diff --git "@, 0);
    } else {
        let n = choose|n: nat| line == "delta "@ + #[trigger] decimal(n);
        lemma_prefixed("delta "@, decimal(n));
        lemma_decimal_digits(n);
        lemma_other_at(line, "diff --git "@, 1);
    }
}

/// Of a binary patch nothing is shown, and it changes nothing but where reading stands.
pub proof fn law_binary_patches_are_not_shown(p: ParserView, lines: Seq<Seq<char>>)
    requires
        p.place == Place::Header,
        forall|i: int| 0 <= i < lines.len() ==> is_patch_line(#[trigger] lines[i]),
    ensures
        p.step("GIT binary patch"@).steps(lines) == (ParserView { place: Place::Payload, ..p }),
    decreases lines.len(),
{
    let first = "GIT binary patch"@;
    let begun = p.step(first);
    if lines.len() == 0 {
        reveal_strlit("GIT binary patch");
        reveal_strlit("--- ");
        reveal_strlit("+++ ");
        reveal_strlit("rename from ");
        reveal_strlit("rename to ");
        reveal_strlit("Binary files ");
        reveal_strlit("new file mode");
        reveal_strlit("deleted file mode");
        reveal_strlit("old mode");
        reveal_strlit("new mode");
        lemma_header_line(p.place, first);
        lemma_other_at(first, "--- "@, 0);
        lemma_other_at(first, "+++ "@, 0);
        lemma_other_at(first, "rename from "@, 0);
        lemma_other_at(first, "rename to "@, 0);
        lemma_other_at(first, "Binary files "@, 0);
        lemma_other_at(first, "new file mode"@, 0);
        lemma_other_at(first, "deleted file mode"@, 0);
        lemma_other_at(first, "old mode"@, 0);
        lemma_other_at(first, "new mode"@, 0);
    } else {
        let front = lines.drop_last();
        let line = lines.last();
        assert forall|i: int| 0 <= i < front.len() implies is_patch_line(#[trigger] front[i]) by {
            assert(front[i] == lines[i]);
        }
        law_binary_patches_are_not_shown(p, front);
        assert(is_patch_line(lines[lines.len() - 1]));
        lemma_patch_line(line);
        reveal_strlit("@@ ");
        lemma_other_at(line, "@@ "@, 0);
    }
}

} // verus!
