//! What holds of reading a diff, whatever the diff.

use vstd::prelude::*;
use vstd::utf8::*;

use crate::diff::{
    body_meaning, diff_rows, escape_len, header_meaning, hunk_numbers, is_final_byte, is_payload,
    lemma_params_len, meaning, paired, params_len, plain_cell, signed_start, without_escapes,
    CellView, ESC, Kind, Meaning, ParserView, Place, RowView,
};
use crate::text::{
    blank, decimal, has_prefix, inked, is_digit, is_white_space, law_number_reads_decimal,
    lemma_decimal_digits, lemma_run_len, lemma_run_len_bounds, not_comma, not_newline, run_len,
    split_lines, without_cr, without_plus, words,
};

verus! {

// ---------------------------------------------------------------------------
// Terminal escape sequences
// ---------------------------------------------------------------------------

/// Whether the bytes hold no escape character.
pub open spec fn unescaped(s: Seq<u8>) -> bool {
    forall|i: int| 0 <= i < s.len() ==> #[trigger] s[i] != ESC
}

/// What is left of any bytes holds no escape character.
pub proof fn law_no_escape_is_left(s: Seq<u8>)
    ensures
        unescaped(without_escapes(s)),
    decreases s.len(),
{
    if s.len() > 0 {
        if s[0] == ESC {
            if escape_len(s) < s.len() {
                law_no_escape_is_left(s.skip(escape_len(s) as int));
            }
        } else {
            law_no_escape_is_left(s.drop_first());
        }
    }
}

/// Bytes without an escape character in front stay as they are.
proof fn lemma_front_stays(a: Seq<u8>, b: Seq<u8>)
    requires
        unescaped(a),
    ensures
        without_escapes(a + b) == a + without_escapes(b),
    decreases a.len(),
{
    if a.len() == 0 {
        assert(a + b =~= b);
        assert(a + without_escapes(b) =~= without_escapes(b));
    } else {
        let s = a + b;
        assert(s[0] == a[0]);
        assert(s.drop_first() =~= a.drop_first() + b);
        assert forall|i: int| 0 <= i < a.drop_first().len() implies #[trigger] a.drop_first()[i]
            != ESC by {
            assert(a.drop_first()[i] == a[i + 1]);
        }
        lemma_front_stays(a.drop_first(), b);
        assert(a + without_escapes(b) =~= seq![a[0]] + (a.drop_first() + without_escapes(b)));
    }
}

/// Bytes without an escape character stay as they are.
pub proof fn law_unescaped_bytes_stay(s: Seq<u8>)
    requires
        unescaped(s),
    ensures
        without_escapes(s) == s,
{
    let none = Seq::<u8>::empty();
    lemma_front_stays(s, none);
    assert(s + none =~= s);
    assert(without_escapes(none) =~= none);
}

/// Stripping what has been stripped changes nothing.
pub proof fn law_stripping_twice(s: Seq<u8>)
    ensures
        without_escapes(without_escapes(s)) == without_escapes(s),
{
    law_no_escape_is_left(s);
    law_unescaped_bytes_stay(without_escapes(s));
}

/// Whether the bytes are one whole escape sequence.
pub open spec fn is_escape(q: Seq<u8>) -> bool {
    q.len() >= 2 && q[0] == ESC && escape_len(q) == q.len()
}

/// Colour codes, and all other control sequences, are whole escape sequences: `ESC [`,
/// bytes that end none, and one that does. So is `ESC` and any other single byte.
pub proof fn law_control_sequences_are_escapes(params: Seq<u8>, end: u8, other: u8)
    requires
        forall|i: int| 0 <= i < params.len() ==> (#[trigger] params[i]) < 0x40 || params[i] > 0x7e,
        0x40 <= end <= 0x7e,
        other != 0x5b,
    ensures
        is_escape(seq![0x1bu8, 0x5bu8] + params + seq![end]),
        is_escape(seq![0x1bu8, other]),
{
    let q = seq![0x1bu8, 0x5bu8] + params + seq![end];
    let tail = q.skip(2);
    assert(tail =~= params + seq![end]);
    assert forall|i: int| 0 <= i < params.len() implies !is_final_byte(#[trigger] tail[i]) by {
        assert(tail[i] == params[i]);
    }
    lemma_params_len(tail, params.len());
}

/// More bytes behind the final one do not move it.
proof fn lemma_params_before(s: Seq<u8>, b: Seq<u8>)
    requires
        params_len(s) < s.len(),
    ensures
        params_len(s + b) == params_len(s),
    decreases s.len(),
{
    assert((s + b)[0] == s[0]);
    if !is_final_byte(s[0]) {
        assert((s + b).drop_first() =~= s.drop_first() + b);
        lemma_params_before(s.drop_first(), b);
    }
}

/// A whole escape sequence goes, and nothing behind it.
proof fn lemma_escape_goes(q: Seq<u8>, b: Seq<u8>)
    requires
        is_escape(q),
    ensures
        without_escapes(q + b) == without_escapes(b),
{
    let s = q + b;
    assert(s[0] == q[0] && s[1] == q[1]);
    if q[1] == 0x5b {
        assert(s.skip(2) =~= q.skip(2) + b);
        lemma_params_before(q.skip(2), b);
    }
    assert(escape_len(s) == q.len());
    if b.len() == 0 {
        assert(without_escapes(b) =~= Seq::<u8>::empty());
    } else {
        assert(s.skip(q.len() as int) =~= b);
    }
}

/// A text with an escape sequence behind each of its parts.
pub open spec fn coloured(parts: Seq<(Seq<u8>, Seq<u8>)>) -> Seq<u8>
    decreases parts.len(),
{
    if parts.len() == 0 {
        seq![]
    } else {
        parts[0].0 + parts[0].1 + coloured(parts.drop_first())
    }
}

/// The same text without the sequences.
pub open spec fn uncoloured(parts: Seq<(Seq<u8>, Seq<u8>)>) -> Seq<u8>
    decreases parts.len(),
{
    if parts.len() == 0 {
        seq![]
    } else {
        parts[0].0 + uncoloured(parts.drop_first())
    }
}

/// Colored input is fine: with escape sequences anywhere in it, a diff is read as
/// it is without them.
pub proof fn law_coloured_input_reads_the_same(parts: Seq<(Seq<u8>, Seq<u8>)>)
    requires
        forall|i: int|
            0 <= i < parts.len() ==> unescaped((#[trigger] parts[i]).0) && is_escape(parts[i].1),
    ensures
        without_escapes(coloured(parts)) == uncoloured(parts),
        without_escapes(uncoloured(parts)) == uncoloured(parts),
    decreases parts.len(),
{
    if parts.len() > 0 {
        let (text, q) = parts[0];
        let rest = parts.drop_first();
        assert forall|i: int| 0 <= i < rest.len() implies unescaped((#[trigger] rest[i]).0)
            && is_escape(rest[i].1) by {
            assert(rest[i] == parts[i + 1]);
        }
        law_coloured_input_reads_the_same(rest);
        assert(text + q + coloured(rest) =~= text + (q + coloured(rest)));
        lemma_front_stays(text, q + coloured(rest));
        lemma_escape_goes(q, coloured(rest));
        lemma_front_stays(text, uncoloured(rest));
    } else {
        assert(without_escapes(coloured(parts)) =~= uncoloured(parts));
    }
}

/// An escape sequence that is cut off at the end goes as far as it is there, and nothing
/// in front of it.
pub proof fn law_cut_off_sequences_go(text: Seq<u8>, params: Seq<u8>)
    requires
        unescaped(text),
        forall|i: int| 0 <= i < params.len() ==> (#[trigger] params[i]) < 0x40 || params[i] > 0x7e,
    ensures
        without_escapes(text + (seq![0x1bu8, 0x5bu8] + params)) == text,
        without_escapes(text + seq![0x1bu8]) == text,
{
    let q = seq![0x1bu8, 0x5bu8] + params;
    let tail = q.skip(2);
    let none = Seq::<u8>::empty();
    assert(tail =~= params);
    assert forall|i: int| 0 <= i < params.len() implies !is_final_byte(#[trigger] tail[i]) by {
        assert(tail[i] == params[i]);
    }
    lemma_params_len(tail, params.len());
    lemma_front_stays(text, q);
    lemma_front_stays(text, seq![0x1bu8]);
    assert(text + none =~= text);
    assert(without_escapes(q) =~= none);
    assert(without_escapes(seq![0x1bu8]) =~= none);
}

// ---------------------------------------------------------------------------
// Lines
// ---------------------------------------------------------------------------

/// Lines with an end behind each.
pub open spec fn ended(lines: Seq<Seq<char>>, end: Seq<char>) -> Seq<char>
    decreases lines.len(),
{
    if lines.len() == 0 {
        seq![]
    } else {
        lines[0] + end + ended(lines.drop_first(), end)
    }
}

/// Whether a text is a line: no line feed in it, and no carriage return at its end.
pub open spec fn is_line(s: Seq<char>) -> bool {
    &&& forall|i: int| 0 <= i < s.len() ==> #[trigger] s[i] != '\n'
    &&& s.len() > 0 ==> s.last() != '\r'
}

/// A text is read line by line, be its lines ended by line feeds or by carriage returns
/// and line feeds; the last one may have no end.
pub proof fn law_lines_are_read_one_by_one(
    lines: Seq<Seq<char>>,
    end: Seq<char>,
    last: Seq<char>,
)
    requires
        forall|i: int| 0 <= i < lines.len() ==> is_line(#[trigger] lines[i]),
        is_line(last),
        end == seq!['\n'] || end == seq!['\r', '\n'],
    ensures
        last.len() == 0 ==> split_lines(ended(lines, end) + last) == lines,
        last.len() > 0 ==> split_lines(ended(lines, end) + last) == lines.push(last),
    decreases lines.len(),
{
    let s = ended(lines, end) + last;
    let all = if last.len() == 0 {
        lines
    } else {
        lines.push(last)
    };
    if lines.len() == 0 {
        assert(s =~= last);
        assert forall|i: int| 0 <= i < s.len() implies not_newline()(#[trigger] s[i]) by {
            assert(s[i] == last[i]);
        }
        lemma_run_len(s, not_newline(), s.len());
        assert(split_lines(s) =~= all);
    } else {
        let rest = lines.drop_first();
        assert forall|i: int| 0 <= i < rest.len() implies is_line(#[trigger] rest[i]) by {
            assert(rest[i] == lines[i + 1]);
        }
        law_lines_are_read_one_by_one(rest, end, last);
        let below = ended(rest, end) + last;
        let line = lines[0];
        let n = (line.len() + end.len() - 1) as nat;
        assert(s =~= line + end + below);
        assert(is_line(lines[0]));
        assert forall|i: int| 0 <= i < n implies not_newline()(#[trigger] s[i]) by {
            if i < line.len() {
                assert(s[i] == line[i]);
            }
        }
        lemma_run_len(s, not_newline(), n);
        assert(s.skip(n as int + 1) =~= below);
        let head = s.take(n as int);
        assert(without_cr(head) =~= line) by {
            if end.len() == 2 {
                assert(head.drop_last() =~= line);
            } else {
                assert(head =~= line);
            }
        }
        assert(split_lines(s) =~= all);
    }
}

// ---------------------------------------------------------------------------
// Hunk headers
// ---------------------------------------------------------------------------

/// A word in front of white space, or of nothing, is the first word.
proof fn lemma_first_word(w: Seq<char>, t: Seq<char>)
    requires
        w.len() > 0,
        forall|i: int| 0 <= i < w.len() ==> !is_white_space(#[trigger] w[i]),
        t.len() > 0 ==> is_white_space(t[0]),
    ensures
        words(w + t) == seq![w] + words(t),
{
    let s = w + t;
    assert(s[0] == w[0]);
    lemma_run_len(s, blank(), 0);
    assert(s.skip(0) =~= s);
    assert forall|i: int| 0 <= i < w.len() implies inked()(#[trigger] s[i]) by {
        assert(s[i] == w[i]);
    }
    if t.len() > 0 {
        assert(s[w.len() as int] == t[0]);
    }
    lemma_run_len(s, inked(), w.len());
    assert(s.take(w.len() as int) =~= w);
    assert(s.skip(w.len() as int) =~= t);
}

/// White space in front of a text does not change its words.
proof fn lemma_blank_in_front(c: char, t: Seq<char>)
    requires
        is_white_space(c),
    ensures
        words(seq![c] + t) == words(t),
{
    let s = seq![c] + t;
    assert(s.drop_first() =~= t);
    assert(run_len(s, blank()) == 1 + run_len(t, blank()));
    lemma_run_len_bounds(t, blank());
    let k = run_len(t, blank());
    assert(s.skip(1 + k as int) =~= t.skip(k as int));
}

/// A field of a hunk header: a sign, the first line and maybe how many lines.
pub open spec fn range_field(sign: char, start: u32, count: Option<u32>) -> Seq<char> {
    seq![sign] + decimal(start as nat) + match count {
        Some(n) => seq![','] + decimal(n as nat),
        None => seq![],
    }
}

/// A hunk header, `@@ -a[,b] +c[,d] @@`, and what comes behind it.
pub open spec fn hunk_header(
    old: u32,
    old_count: Option<u32>,
    new: u32,
    new_count: Option<u32>,
    tail: Seq<char>,
) -> Seq<char> {
    seq!['@', '@', ' '] + range_field('-', old, old_count) + seq![' '] + range_field(
        '+',
        new,
        new_count,
    ) + seq![' ', '@', '@'] + tail
}

/// A field is one word, and its number is the first line.
proof fn lemma_range_field(sign: char, start: u32, count: Option<u32>)
    requires
        sign == '-' || sign == '+',
    ensures
        range_field(sign, start, count).len() > 0,
        forall|i: int|
            0 <= i < range_field(sign, start, count).len() ==> !is_white_space(
                #[trigger] range_field(sign, start, count)[i],
            ),
        signed_start(range_field(sign, start, count), sign) == Some(start),
{
    let field = range_field(sign, start, count);
    let digits = decimal(start as nat);
    let rest: Seq<char> = match count {
        Some(n) => seq![','] + decimal(n as nat),
        None => seq![],
    };
    lemma_decimal_digits(start as nat);
    if let Some(n) = count {
        lemma_decimal_digits(n as nat);
    }
    assert forall|i: int| 0 <= i < field.len() implies !is_white_space(#[trigger] field[i]) by {
        if 1 <= i < 1 + digits.len() {
            assert(field[i] == digits[i - 1]);
            assert(is_digit(digits[i - 1]));
        } else if i > 1 + digits.len() {
            assert(field[i] == decimal(count->0 as nat)[i - 2 - digits.len()]);
            assert(is_digit(decimal(count->0 as nat)[i - 2 - digits.len()]));
        }
    }
    let tail = field.skip(1);
    assert(tail =~= digits + rest);
    assert forall|i: int| 0 <= i < digits.len() implies not_comma()(#[trigger] tail[i]) by {
        assert(tail[i] == digits[i]);
        assert(is_digit(digits[i]));
    }
    if rest.len() > 0 {
        assert(tail[digits.len() as int] == ',');
    }
    lemma_run_len(tail, not_comma(), digits.len());
    assert(tail.take(digits.len() as int) =~= digits);
    law_number_reads_decimal(start);
}

/// A text does not begin with what begins otherwise.
pub proof fn lemma_other_start(s: Seq<char>, prefix: Seq<char>)
    requires
        prefix.len() > 0,
        s.len() > 0 ==> s[0] != prefix[0],
    ensures
        !has_prefix(s, prefix),
{
    if has_prefix(s, prefix) {
        assert(s.subrange(0, prefix.len() as int)[0] == s[0]);
    }
}

/// A hunk header inside a file section is read as what it says: the first line of
/// the hunk in the old file and in the new one.
pub proof fn law_hunk_header_is_read(
    place: Place,
    old: u32,
    old_count: Option<u32>,
    new: u32,
    new_count: Option<u32>,
    tail: Seq<char>,
)
    requires
        place != Place::Outside,
    ensures
        hunk_numbers(hunk_header(old, old_count, new, new_count, tail)) == Some((old, new)),
        meaning(place, hunk_header(old, old_count, new, new_count, tail)) == Meaning::HunkStart(
            old,
            new,
        ),
{
    let line = hunk_header(old, old_count, new, new_count, tail);
    let minus = range_field('-', old, old_count);
    let plus = range_field('+', new, new_count);
    let end = seq!['@', '@'] + tail;
    let at = seq!['@', '@'];
    lemma_range_field('-', old, old_count);
    lemma_range_field('+', new, new_count);
    let after_plus = seq![' '] + end;
    let after_minus = seq![' '] + (plus + after_plus);
    let after_at = seq![' '] + (minus + after_minus);
    assert(line =~= at + after_at);
    lemma_first_word(at, after_at);
    lemma_blank_in_front(' ', minus + after_minus);
    lemma_first_word(minus, after_minus);
    lemma_blank_in_front(' ', plus + after_plus);
    lemma_first_word(plus, after_plus);
    let w = words(line);
    assert(w =~= seq![at] + (seq![minus] + (seq![plus] + words(after_plus))));
    assert(w[1] == minus && w[2] == plus);
    reveal_strlit("@@ ");
    reveal_strlit("diff --git ");
    assert(has_prefix(line, "@@ "@)) by {
        assert(line.subrange(0, 3) =~= "@@ "@);
    }
    lemma_other_start(line, "diff --git "@);
}

// ---------------------------------------------------------------------------
// Rows
// ---------------------------------------------------------------------------

/// Whether a row shows a line as a side-by-side view does: context on both sides
/// with the same text, a deletion on the left, an addition on the right, and never
/// nothing at all.
pub open spec fn well_shaped(row: RowView) -> bool {
    match row {
        RowView::Line { left: Some(l), right: Some(r) } => {
            ||| l.kind == Kind::Ctx && r.kind == Kind::Ctx && l.text == r.text
            ||| l.kind == Kind::Del && r.kind == Kind::Add
        },
        RowView::Line { left: Some(l), right: None } => l.kind == Kind::Del,
        RowView::Line { left: None, right: Some(r) } => r.kind == Kind::Add,
        RowView::Line { left: None, right: None } => false,
        _ => true,
    }
}

/// Whether every row is well shaped.
pub open spec fn all_well_shaped(rows: Seq<RowView>) -> bool {
    forall|i: int| 0 <= i < rows.len() ==> well_shaped(#[trigger] rows[i])
}

/// Deletions beside additions are well shaped.
proof fn lemma_pairs_shaped(p: ParserView)
    requires
        p.wf(),
        all_well_shaped(p.rows),
    ensures
        p.pairs_flushed().wf(),
        all_well_shaped(p.pairs_flushed().rows),
{
    let rows = p.pairs_flushed().rows;
    assert forall|i: int| 0 <= i < rows.len() implies well_shaped(#[trigger] rows[i]) by {
        if i >= p.rows.len() {
            let j = i - p.rows.len();
            assert(rows[i] == paired(p.dels, p.adds)[j]);
            if j < p.dels.len() {
                assert(p.dels[j].kind == Kind::Del);
            }
            if j < p.adds.len() {
                assert(p.adds[j].kind == Kind::Add);
            }
        } else {
            assert(rows[i] == p.rows[i]);
        }
    }
}

/// What holds between any two lines holds after one more.
pub proof fn lemma_step_wf(p: ParserView, line: Seq<char>)
    requires
        p.wf(),
    ensures
        p.step(line).wf(),
{
}

/// Every line keeps the rows well shaped.
proof fn lemma_step_shaped(p: ParserView, line: Seq<char>)
    requires
        p.wf(),
        all_well_shaped(p.rows),
    ensures
        p.step(line).wf(),
        all_well_shaped(p.step(line).rows),
{
    let q = p.step(line);
    lemma_pairs_shaped(p);
    let m = meaning(p.place, line);
    assert forall|i: int| 0 <= i < q.rows.len() implies well_shaped(#[trigger] q.rows[i]) by {
        let flushed = p.pairs_flushed().rows;
        if i < p.rows.len() {
            assert(well_shaped(p.rows[i]));
            assert(flushed[i] == p.rows[i]);
        }
        if i < flushed.len() {
            assert(well_shaped(flushed[i]));
        }
    }
}

/// Every line keeps the rows well shaped.
proof fn lemma_steps_shaped(p: ParserView, lines: Seq<Seq<char>>)
    requires
        p.wf(),
        all_well_shaped(p.rows),
    ensures
        p.steps(lines).wf(),
        all_well_shaped(p.steps(lines).rows),
    decreases lines.len(),
{
    if lines.len() > 0 {
        lemma_steps_shaped(p, lines.drop_last());
        lemma_step_shaped(p.steps(lines.drop_last()), lines.last());
    }
}

/// In whatever diff, context stands on both sides with the same text, deletions on
/// the left and additions on the right, and no row is empty on both sides.
pub proof fn law_rows_are_well_shaped(text: Seq<char>)
    ensures
        all_well_shaped(diff_rows(text)),
{
    let p = ParserView::initial().steps(split_lines(text));
    lemma_steps_shaped(ParserView::initial(), split_lines(text));
    lemma_pairs_shaped(p);
    let q = p.pairs_flushed();
    let rows = diff_rows(text);
    assert forall|i: int| 0 <= i < rows.len() implies well_shaped(#[trigger] rows[i]) by {
        if i < q.rows.len() {
            assert(well_shaped(q.rows[i]));
        }
    }
}

/// An empty input has no rows.
pub proof fn law_empty_input_has_no_rows()
    ensures
        valid_utf8(without_escapes(seq![])),
        diff_rows(decode_utf8(without_escapes(seq![]))) == Seq::<RowView>::empty(),
{
    assert(without_escapes(seq![]) =~= Seq::<u8>::empty());
    assert(decode_utf8(Seq::<u8>::empty()) =~= Seq::<char>::empty());
    let none = Seq::<char>::empty();
    assert(split_lines(none) =~= Seq::<Seq<char>>::empty());
    assert(diff_rows(none) =~= Seq::<RowView>::empty());
}

/// What is not understood is shown as it is: a line outside the file sections, a hunk
/// header that cannot be read, and a stray line inside a hunk. Each ends the hunk, if
/// there is one.
pub proof fn law_what_is_not_understood_is_shown(p: ParserView, line: Seq<char>)
    requires
        p.wf(),
        !has_prefix(line, "diff --git "@),
        p.place == Place::Outside || (has_prefix(line, "@@ "@) && hunk_numbers(line) is None) || (
        p.place == Place::Hunk && !has_prefix(line, "@@ "@) && !is_body_line(line)),
    ensures
        p.step(line).rows == p.pairs_flushed().rows.push(RowView::Raw(line)),
        p.step(line).place == Place::Outside,
{
}

/// So is a header line that is none of those that git writes. The section goes on, and
/// its mode notes are to be shown exactly if they were before.
pub proof fn law_unknown_header_lines_are_shown(p: ParserView, line: Seq<char>)
    requires
        p.wf(),
        p.place == Place::Header || (p.place == Place::Payload && !is_payload(line)),
        !has_prefix(line, "diff --git "@),
        !has_prefix(line, "@@ "@),
        header_meaning(line) == Meaning::Unknown,
    ensures
        p.step(line).rows == p.rows.push(RowView::Raw(line)),
        p.step(line).place == Place::Header,
        p.step(line).pending == p.pending,
        p.step(line).rows.len() == p.step(line).section_start <==> p.rows.len()
            == p.section_start,
{
}

// ---------------------------------------------------------------------------
// Hunks
// ---------------------------------------------------------------------------

/// The cells on the left of some rows, from top to bottom.
pub open spec fn left_cells(rows: Seq<RowView>) -> Seq<CellView>
    decreases rows.len(),
{
    if rows.len() == 0 {
        seq![]
    } else {
        match rows.last() {
            RowView::Line { left: Some(cell), .. } => left_cells(rows.drop_last()).push(cell),
            _ => left_cells(rows.drop_last()),
        }
    }
}

/// The cells on the right of some rows, from top to bottom.
pub open spec fn right_cells(rows: Seq<RowView>) -> Seq<CellView>
    decreases rows.len(),
{
    if rows.len() == 0 {
        seq![]
    } else {
        match rows.last() {
            RowView::Line { right: Some(cell), .. } => right_cells(rows.drop_last()).push(cell),
            _ => right_cells(rows.drop_last()),
        }
    }
}

/// Whether a line is one of a hunk's: context, a deletion, an addition, or the note
/// that a file does not end in a newline.
pub open spec fn is_body_line(line: Seq<char>) -> bool {
    line.len() == 0 || line[0] == ' ' || line[0] == '-' || line[0] == '+' || line[0] == '\\'
}

/// The line of the old file that a line of a hunk stands for.
pub open spec fn old_line(line: Seq<char>) -> Option<(Seq<char>, Kind)> {
    if line.len() == 0 {
        Some((line, Kind::Ctx))
    } else if line[0] == ' ' {
        Some((line.skip(1), Kind::Ctx))
    } else if line[0] == '-' {
        Some((line.skip(1), Kind::Del))
    } else {
        None
    }
}

/// The line of the new file that a line of a hunk stands for.
pub open spec fn new_line(line: Seq<char>) -> Option<(Seq<char>, Kind)> {
    if line.len() == 0 {
        Some((line, Kind::Ctx))
    } else if line[0] == ' ' {
        Some((line.skip(1), Kind::Ctx))
    } else if line[0] == '+' {
        Some((line.skip(1), Kind::Add))
    } else {
        None
    }
}

/// The lines of one file that the lines of a hunk stand for, as `side` picks them,
/// numbered from `no` on.
pub open spec fn numbered(
    lines: Seq<Seq<char>>,
    side: spec_fn(Seq<char>) -> Option<(Seq<char>, Kind)>,
    no: u32,
) -> Seq<CellView>
    decreases lines.len(),
{
    if lines.len() == 0 {
        seq![]
    } else {
        let before = numbered(lines.drop_last(), side, no);
        match side(lines.last()) {
            Some((text, kind)) => before.push(
                plain_cell(number_behind(no, before.len()), text, kind),
            ),
            None => before,
        }
    }
}

/// The number of the `n`-th line behind line `no`; the largest one stays.
pub open spec fn number_behind(no: u32, n: nat) -> u32 {
    if no + n <= u32::MAX {
        (no + n) as u32
    } else {
        u32::MAX
    }
}

/// The lines of the old file that the lines of a hunk stand for.
pub open spec fn old_side() -> spec_fn(Seq<char>) -> Option<(Seq<char>, Kind)> {
    |line: Seq<char>| old_line(line)
}

/// The lines of the new file that the lines of a hunk stand for.
pub open spec fn new_side() -> spec_fn(Seq<char>) -> Option<(Seq<char>, Kind)> {
    |line: Seq<char>| new_line(line)
}

/// Rows below others have their cells below.
proof fn lemma_cells_add(a: Seq<RowView>, b: Seq<RowView>)
    ensures
        left_cells(a + b) == left_cells(a) + left_cells(b),
        right_cells(a + b) == right_cells(a) + right_cells(b),
    decreases b.len(),
{
    if b.len() == 0 {
        assert(a + b =~= a);
        assert(left_cells(a) + left_cells(b) =~= left_cells(a));
        assert(right_cells(a) + right_cells(b) =~= right_cells(a));
    } else {
        assert((a + b).drop_last() =~= a + b.drop_last());
        assert((a + b).last() == b.last());
        lemma_cells_add(a, b.drop_last());
        assert(left_cells(a + b) =~= left_cells(a) + left_cells(b));
        assert(right_cells(a + b) =~= right_cells(a) + right_cells(b));
    }
}

/// Deletions beside additions are the deletions on the left and the additions on
/// the right.
proof fn lemma_cells_paired(dels: Seq<CellView>, adds: Seq<CellView>, n: int)
    requires
        0 <= n <= paired(dels, adds).len(),
    ensures
        left_cells(paired(dels, adds).take(n)) == dels.take(
            if n < dels.len() {
                n
            } else {
                dels.len() as int
            },
        ),
        right_cells(paired(dels, adds).take(n)) == adds.take(
            if n < adds.len() {
                n
            } else {
                adds.len() as int
            },
        ),
    decreases n,
{
    let rows = paired(dels, adds).take(n);
    let l = if n < dels.len() {
        n
    } else {
        dels.len() as int
    };
    let r = if n < adds.len() {
        n
    } else {
        adds.len() as int
    };
    if n > 0 {
        lemma_cells_paired(dels, adds, n - 1);
        assert(rows.drop_last() =~= paired(dels, adds).take(n - 1));
        assert(rows.last() == paired(dels, adds)[n - 1]);
    }
    assert(left_cells(rows) =~= dels.take(l));
    assert(right_cells(rows) =~= adds.take(r));
}

/// Putting the waiting deletions and additions in rows moves them there.
proof fn lemma_cells_flushed(p: ParserView)
    ensures
        left_cells(p.pairs_flushed().rows) == left_cells(p.rows) + p.dels,
        right_cells(p.pairs_flushed().rows) == right_cells(p.rows) + p.adds,
{
    let rows = paired(p.dels, p.adds);
    lemma_cells_add(p.rows, rows);
    lemma_cells_paired(p.dels, p.adds, rows.len() as int);
    assert(rows.take(rows.len() as int) =~= rows);
    assert(p.dels.take(p.dels.len() as int) =~= p.dels);
    assert(p.adds.take(p.adds.len() as int) =~= p.adds);
}

/// From inside a hunk, the lines of the hunk put the lines of the old file on the
/// left and those of the new file on the right: all of them, in order, under
/// consecutive numbers.
pub proof fn law_hunk_shows_both_files(p: ParserView, lines: Seq<Seq<char>>)
    requires
        p.place == Place::Hunk,
        forall|i: int| 0 <= i < lines.len() ==> is_body_line(#[trigger] lines[i]),
    ensures
        p.steps(lines).place == Place::Hunk,
        left_cells(p.steps(lines).pairs_flushed().rows) == left_cells(p.pairs_flushed().rows)
            + numbered(lines, old_side(), p.old_no),
        right_cells(p.steps(lines).pairs_flushed().rows) == right_cells(p.pairs_flushed().rows)
            + numbered(lines, new_side(), p.new_no),
        p.steps(lines).old_no == number_behind(
            p.old_no,
            numbered(lines, old_side(), p.old_no).len(),
        ),
        p.steps(lines).new_no == number_behind(
            p.new_no,
            numbered(lines, new_side(), p.new_no).len(),
        ),
    decreases lines.len(),
{
    let olds = numbered(lines, old_side(), p.old_no);
    let news = numbered(lines, new_side(), p.new_no);
    let left = left_cells(p.pairs_flushed().rows);
    let right = right_cells(p.pairs_flushed().rows);
    if lines.len() == 0 {
        assert(left + olds =~= left);
        assert(right + news =~= right);
    } else {
        let front = lines.drop_last();
        let line = lines.last();
        assert forall|i: int| 0 <= i < front.len() implies is_body_line(#[trigger] front[i]) by {
            assert(front[i] == lines[i]);
        }
        law_hunk_shows_both_files(p, front);
        let q = p.steps(front);
        let r = q.step(line);
        assert(is_body_line(lines[lines.len() - 1]));
        reveal_strlit("@@ ");
        reveal_strlit("diff --git ");
        lemma_other_start(line, "diff --git "@);
        lemma_other_start(line, "@@ "@);
        assert(meaning(q.place, line) == body_meaning(line));
        lemma_cells_flushed(q);
        lemma_cells_flushed(r);
        let flushed = q.pairs_flushed();
        let olds_before = numbered(front, old_side(), p.old_no);
        let news_before = numbered(front, new_side(), p.new_no);
        assert(left_cells(q.rows) + q.dels == left + olds_before);
        assert(right_cells(q.rows) + q.adds == right + news_before);
        assert(old_side()(line) == old_line(line));
        assert(new_side()(line) == new_line(line));
        if line.len() == 0 || line[0] == ' ' {
            let text = if line.len() == 0 {
                line
            } else {
                line.skip(1)
            };
            let old = plain_cell(q.old_no, text, Kind::Ctx);
            let new = plain_cell(q.new_no, text, Kind::Ctx);
            let row = RowView::Line { left: Some(old), right: Some(new) };
            assert(r.rows == flushed.rows.push(row));
            assert(r.rows.drop_last() =~= flushed.rows);
            assert(left_cells(r.rows) == left_cells(flushed.rows).push(old));
            assert(right_cells(r.rows) == right_cells(flushed.rows).push(new));
            assert(r.dels.len() == 0 && r.adds.len() == 0);
            assert(left_cells(r.rows) + r.dels =~= left_cells(r.rows));
            assert(right_cells(r.rows) + r.adds =~= right_cells(r.rows));
            assert(olds == olds_before.push(old));
            assert(news == news_before.push(new));
            assert((left + olds_before).push(old) =~= left + olds);
            assert((right + news_before).push(new) =~= right + news);
        } else if line[0] == '-' {
            let old = plain_cell(q.old_no, line.skip(1), Kind::Del);
            assert(r.dels == q.dels.push(old));
            assert(left_cells(r.rows) + r.dels =~= (left_cells(q.rows) + q.dels).push(old));
            assert((left + olds_before).push(old) =~= left + olds_before.push(old));
            assert(olds == olds_before.push(old));
            assert(news == news_before);
        } else if line[0] == '+' {
            let new = plain_cell(q.new_no, line.skip(1), Kind::Add);
            assert(r.adds == q.adds.push(new));
            assert(right_cells(r.rows) + r.adds =~= (right_cells(q.rows) + q.adds).push(new));
            assert((right + news_before).push(new) =~= right + news_before.push(new));
            assert(news == news_before.push(new));
            assert(olds == olds_before);
        } else {
            assert(r == q);
            assert(olds == olds_before && news == news_before);
        }
        assert(left_cells(r.pairs_flushed().rows) =~= left + olds);
        assert(right_cells(r.pairs_flushed().rows) =~= right + news);
    }
}

/// A hunk in a file section shows the old file's lines from the number that its
/// header gives them on, on the left, and so the new file's on the right.
pub proof fn law_hunk_is_numbered_from_its_header(
    p: ParserView,
    old: u32,
    old_count: Option<u32>,
    new: u32,
    new_count: Option<u32>,
    tail: Seq<char>,
    lines: Seq<Seq<char>>,
)
    requires
        p.place != Place::Outside,
        forall|i: int| 0 <= i < lines.len() ==> is_body_line(#[trigger] lines[i]),
    ensures
        ({
            let header = hunk_header(old, old_count, new, new_count, tail);
            let shown = p.step(header).steps(lines).pairs_flushed().rows;
            &&& left_cells(shown) == left_cells(p.pairs_flushed().rows) + numbered(
                lines,
                old_side(),
                old,
            )
            &&& right_cells(shown) == right_cells(p.pairs_flushed().rows) + numbered(
                lines,
                new_side(),
                new,
            )
        }),
{
    let header = hunk_header(old, old_count, new, new_count, tail);
    law_hunk_header_is_read(p.place, old, old_count, new, new_count, tail);
    let q = p.step(header);
    law_hunk_shows_both_files(q, lines);
    lemma_cells_flushed(q);
    assert(q.rows.drop_last() =~= p.pairs_flushed().rows);
    assert(left_cells(q.rows) + q.dels =~= left_cells(p.pairs_flushed().rows));
    assert(right_cells(q.rows) + q.adds =~= right_cells(p.pairs_flushed().rows));
}

/// A hunk header that can be read has the two numbers where they should be: behind a
/// minus sign in its second word, and behind a plus sign in its third.
pub proof fn law_numbers_stand_behind_their_signs(line: Seq<char>)
    requires
        hunk_numbers(line) is Some,
    ensures
        words(line).len() >= 3,
        words(line)[1].len() > 1 && words(line)[1][0] == '-',
        words(line)[2].len() > 1 && words(line)[2][0] == '+',
        is_digit(words(line)[1][1]) || words(line)[1][1] == '+',
        is_digit(words(line)[2][1]) || words(line)[2][1] == '+',
{
    lemma_signed(words(line)[1], '-');
    lemma_signed(words(line)[2], '+');
}

/// A number behind a sign begins with a digit, or with a plus sign.
proof fn lemma_signed(word: Seq<char>, sign: char)
    requires
        signed_start(word, sign) is Some,
    ensures
        word.len() > 1 && word[0] == sign,
        is_digit(word[1]) || word[1] == '+',
{
    let field = word.skip(1);
    let n = run_len(field, not_comma());
    lemma_run_len_bounds(field, not_comma());
    let digits = field.take(n as int);
    let bare = without_plus(digits);
    assert(bare.len() > 0);
    assert(is_digit(bare[0]));
    assert(digits[0] == word[1]);
}

} // verus!
