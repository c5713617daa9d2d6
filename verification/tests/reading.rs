use scopic::diff::{
    Cell, Kind, Parser, Row, hunk_starts, parse, parse_text, strip_ansi, strip_prefix_ab,
};
use scopic::intraline::{Change, ChangeTag, emph_ranges, word_emph};
use scopic::text::{
    control_code, decimal_len, decimal_string, join, lines_of, parse_number, white_space, words_of,
};

fn plain(no: u32, text: &str, kind: Kind) -> Option<Cell> {
    Some(Cell {
        no,
        text: text.into(),
        kind,
        emph: vec![],
    })
}

fn raw(text: &str) -> Row {
    Row::Raw(text.into())
}

fn change(tag: ChangeTag, text: &str) -> Change {
    Change {
        tag,
        text: text.into(),
    }
}

#[test]
fn stripping_takes_whole_sequences_and_no_more() {
    assert_eq!(strip_ansi(b"a\x1b[1;31mb\x1b[0mc"), b"abc");
    // ESC and one more byte
    assert_eq!(strip_ansi(b"a\x1b7b"), b"ab");
    // a sequence that is cut off goes as far as the bytes do
    assert_eq!(strip_ansi(b"a\x1b[12"), b"a");
    assert_eq!(strip_ansi(b"a\x1b["), b"a");
    assert_eq!(strip_ansi(b"a\x1b"), b"a");
    // an escape inside the parameters is one of them
    assert_eq!(strip_ansi(b"\x1b[\x1bmx"), b"x");
    assert_eq!(strip_ansi(b""), b"");
}

#[test]
fn stripping_leaves_no_escape_and_is_done_once() {
    let input: &[u8] = b"x\x1b[31m\x1b\x1by\x1b[K\x1b[";
    let once = strip_ansi(input);
    assert!(!once.contains(&0x1b));
    assert_eq!(strip_ansi(&once), once);
    assert_eq!(strip_ansi(b"no escapes"), b"no escapes");
}

#[test]
fn hunk_headers_are_read_with_and_without_counts() {
    assert_eq!(hunk_starts("@@ -10,3 +12,4 @@ fn main() {"), Some((10, 12)));
    assert_eq!(hunk_starts("@@ -1 +2 @@"), Some((1, 2)));
    assert_eq!(hunk_starts("@@ -0,0 +4294967295 @@"), Some((0, 4294967295)));
    // the number of one more does not fit
    assert_eq!(hunk_starts("@@ -0,0 +4294967296 @@"), None);
    assert_eq!(hunk_starts("@@ -a +1 @@"), None);
    assert_eq!(hunk_starts("@@ 1 +1 @@"), None);
    assert_eq!(hunk_starts("@@ -1 1 @@"), None);
    assert_eq!(hunk_starts("@@ -1"), None);
    assert_eq!(hunk_starts("@@ -, +1 @@"), None);
}

#[test]
fn paths_lose_one_prefix() {
    assert_eq!(strip_prefix_ab("a/x"), "x");
    assert_eq!(strip_prefix_ab("b/a/x"), "a/x");
    assert_eq!(strip_prefix_ab("c/x"), "c/x");
}

#[test]
fn a_hunk_shows_both_files_in_order_under_consecutive_numbers() {
    let rows = parse_text(
        "diff --git a/f b/f\n--- a/f\n+++ b/f\n@@ -7,4 +9,4 @@\n one\n-two\n-three\n+zwei\n\n+five\n",
    );
    let mut left = Vec::new();
    let mut right = Vec::new();
    for row in rows {
        if let Row::Line { left: l, right: r } = row {
            left.extend(l.map(|c| (c.no, c.text, c.kind)));
            right.extend(r.map(|c| (c.no, c.text, c.kind)));
        }
    }
    assert_eq!(
        left,
        vec![
            (7, "one".to_string(), Kind::Ctx),
            (8, "two".to_string(), Kind::Del),
            (9, "three".to_string(), Kind::Del),
            (10, String::new(), Kind::Ctx),
        ]
    );
    assert_eq!(
        right,
        vec![
            (9, "one".to_string(), Kind::Ctx),
            (10, "zwei".to_string(), Kind::Add),
            (11, String::new(), Kind::Ctx),
            (12, "five".to_string(), Kind::Add),
        ]
    );
}

#[test]
fn an_addition_before_a_deletion_is_paired_too() {
    let rows = parse_text("diff --git a/f b/f\n@@ -1 +1 @@\n+new\n-old\n");
    assert_eq!(rows.len(), 3);
    let Row::Line {
        left: Some(l),
        right: Some(r),
    } = &rows[2]
    else {
        panic!("expected a pair, got {:?}", rows[2]);
    };
    assert_eq!((l.text.as_str(), l.kind), ("old", Kind::Del));
    assert_eq!((r.text.as_str(), r.kind), ("new", Kind::Add));
}

#[test]
fn the_note_on_a_missing_newline_is_not_shown() {
    let rows = parse_text("diff --git a/f b/f\n@@ -1 +1 @@\n same\n\\ No newline at end of file\n");
    assert_eq!(
        rows,
        vec![
            Row::File("f".into()),
            Row::Hunk("@@ -1 +1 @@".into()),
            Row::Line {
                left: plain(1, "same", Kind::Ctx),
                right: plain(1, "same", Kind::Ctx),
            },
        ]
    );
}

#[test]
fn what_is_not_understood_ends_the_hunk_and_is_shown() {
    let rows = parse_text("diff --git a/f b/f\n@@ -1 +1 @@\n-gone\nstray\n-shown as it is\n");
    assert_eq!(
        rows,
        vec![
            Row::File("f".into()),
            Row::Hunk("@@ -1 +1 @@".into()),
            Row::Line {
                left: plain(1, "gone", Kind::Del),
                right: None,
            },
            raw("stray"),
            raw("-shown as it is"),
        ]
    );
    // a hunk header outside any file section is nothing special
    assert_eq!(parse_text("@@ -1 +1 @@\n"), vec![raw("@@ -1 +1 @@")]);
}

#[test]
fn a_deleted_file_keeps_its_old_path() {
    let rows = parse_text("diff --git a/x b/y\n--- a/old.txt\n+++ /dev/null\n");
    assert_eq!(rows, vec![Row::File("old.txt".into())]);
    let rows = parse_text("diff --git a/x b/y\n+++ /dev/null\n");
    assert_eq!(rows, vec![Row::File("".into())]);
}

#[test]
fn a_section_is_named_by_what_follows_the_last_b() {
    assert_eq!(
        parse_text("diff --git a/a b/b b/c\n"),
        vec![Row::File("c".into())]
    );
    assert_eq!(
        parse_text("diff --git nonsense\n"),
        vec![Row::File("nonsense".into())]
    );
}

#[test]
fn a_rename_settles_the_title() {
    let rows = parse_text(
        "diff --git a/o b/n\nrename from o\nrename to n\n--- a/o\n+++ b/other\n",
    );
    assert_eq!(rows, vec![Row::File("o → n".into())]);
}

#[test]
fn sections_are_a_blank_row_apart() {
    let rows = parse_text("diff --git a/f b/f\ndiff --git a/g b/g\n");
    assert_eq!(
        rows,
        vec![Row::File("f".into()), raw(""), Row::File("g".into())]
    );
}

#[test]
fn bytes_that_are_not_text_are_replaced() {
    assert_eq!(parse(b"a\xffb\n"), vec![raw("a\u{fffd}b")]);
    // a carriage return in front of a line feed goes, and no other
    assert_eq!(parse(b"a\r\nb\rc\n"), vec![raw("a"), raw("b\rc")]);
    assert_eq!(parse("naïve → 界".as_bytes()), vec![raw("naïve → 界")]);
}

#[test]
fn a_parser_reads_line_by_line() {
    let mut p = Parser::new();
    p.line("diff --git a/f b/f");
    assert_eq!(p.title(), "f");
    p.line("old mode 100644");
    p.line("new mode 100755");
    p.set_title("g".into());
    p.flush_pairs();
    p.flush_status();
    assert_eq!(
        p.rows,
        vec![
            Row::File("g".into()),
            raw("old mode 100644"),
            raw("new mode 100755")
        ]
    );
    assert_eq!(Parser::new().title(), "");
}

#[test]
fn emphasis_follows_the_changes() {
    let changes = vec![
        change(ChangeTag::Equal, "é"),
        change(ChangeTag::Delete, "ab"),
        change(ChangeTag::Insert, "x"),
        change(ChangeTag::Equal, " "),
        change(ChangeTag::Insert, "界"),
        change(ChangeTag::Delete, "c"),
    ];
    assert_eq!(
        emph_ranges(&changes),
        (vec![(2, 4), (5, 6)], vec![(2, 3), (4, 7)])
    );
    assert_eq!(emph_ranges(&vec![]), (vec![], vec![]));
}

#[test]
fn the_word_diff_marks_words_and_nothing_in_equal_lines() {
    assert_eq!(
        word_emph("let x = 1;", "let x = 1;"),
        (vec![], vec![])
    );
    assert_eq!(
        word_emph("let old = 1;", "let new = 1;"),
        (vec![(4, 7)], vec![(4, 7)])
    );
    assert_eq!(word_emph("", "a"), (vec![], vec![(0, 1)]));
    assert_eq!(word_emph("a", ""), (vec![(0, 1)], vec![]));
}

#[test]
fn outside_their_emphasis_lines_are_the_same() {
    let (a, b) = ("fn früh(x: i32) -> i32", "fn spät(x: i64) -> bool");
    let (ea, eb) = word_emph(a, b);
    let kept = |text: &str, ranges: &[(usize, usize)]| {
        let mut out = String::new();
        let mut at = 0;
        for &(lo, hi) in ranges {
            assert!(at <= lo && lo < hi && hi <= text.len());
            out.push_str(&text[at..lo]);
            at = hi;
        }
        out.push_str(&text[at..]);
        out
    };
    assert_eq!(kept(a, &ea), kept(b, &eb));
}

#[test]
fn numbers_are_written_and_read() {
    for n in [0u32, 7, 10, 99, 4294967295] {
        let text = decimal_string(n as u128);
        assert_eq!(text, n.to_string());
        assert_eq!(decimal_len(n), text.len());
        let chars: Vec<char> = text.chars().collect();
        assert_eq!(parse_number(&chars, 0, chars.len()), Some(n));
    }
    let chars: Vec<char> = "+12x".chars().collect();
    assert_eq!(parse_number(&chars, 0, 3), Some(12));
    assert_eq!(parse_number(&chars, 0, 4), None);
    assert_eq!(parse_number(&chars, 0, 0), None);
    assert_eq!(parse_number(&chars, 0, 1), None);
}

#[test]
fn white_space_and_control_characters_are_those_of_std() {
    for n in 0..0x11_0000u32 {
        if let Some(c) = char::from_u32(n) {
            assert_eq!(white_space(c), c.is_whitespace(), "{n:x}");
            assert_eq!(control_code(c), c.is_control(), "{n:x}");
        }
    }
}

#[test]
fn lines_and_words_are_those_of_std() {
    for text in ["", "\n", "a\r\nb\r\n\r", "a\n\nb", "\r\n", "x\r"] {
        assert_eq!(lines_of(text), text.lines().collect::<Vec<_>>(), "{text:?}");
    }
    for text in ["", "  ", " a\tb ", "a\u{2003}b\u{85}c", "x"] {
        let words: Vec<&str> = text.split_whitespace().collect();
        assert_eq!(words_of(text), words, "{text:?}");
        assert_eq!(join(&words_of(text), ", "), words.join(", "));
    }
}

#[test]
fn unknown_header_lines_are_shown() {
    let mut p = Parser::new();
    p.line("diff --git a/f b/f");
    p.header_line("frobnicate 7");
    assert_eq!(p.rows, vec![Row::File("f".into()), raw("frobnicate 7")]);
    // the section goes on behind it
    let rows = parse_text("diff --git a/f b/f\nfrobnicate 7\n@@ -1 +1 @@\n same\n");
    assert_eq!(
        rows,
        vec![
            Row::File("f".into()),
            raw("frobnicate 7"),
            Row::Hunk("@@ -1 +1 @@".into()),
            Row::Line {
                left: plain(1, "same", Kind::Ctx),
                right: plain(1, "same", Kind::Ctx),
            },
        ]
    );
}

#[test]
fn mode_notes_stand_behind_unknown_header_lines() {
    let head = "diff --git a/e b/e\nnew file mode 100644\nfrobnicate 7\n";
    let noted = vec![
        Row::File("e".into()),
        raw("frobnicate 7"),
        raw("new file mode 100644"),
    ];
    assert_eq!(parse_text(head), noted);
    // whichever of them comes first, and however many there are
    assert_eq!(
        parse_text(
            "diff --git a/e b/e\nfrobnicate 7\nold mode 100644\ntwist 8\nnew mode 100755\n"
        ),
        vec![
            Row::File("e".into()),
            raw("frobnicate 7"),
            raw("twist 8"),
            raw("old mode 100644"),
            raw("new mode 100755"),
        ]
    );
    // the next section has its notes to itself
    let rows = parse_text(&format!("{head}diff --git a/f b/f\ndeleted file mode 100644\n"));
    assert_eq!(rows[..3], noted[..]);
    assert_eq!(
        rows[3..],
        [
            raw(""),
            Row::File("f".into()),
            raw("deleted file mode 100644")
        ]
    );
    // a hunk is content: the notes give way to it
    assert_eq!(
        parse_text(&format!("{head}@@ -0,0 +1 @@\n+x\n")),
        vec![
            Row::File("e".into()),
            raw("frobnicate 7"),
            Row::Hunk("@@ -0,0 +1 @@".into()),
            Row::Line {
                left: None,
                right: plain(1, "x", Kind::Add),
            },
        ]
    );
    // and so is a binary file, also with an unknown line behind it
    assert_eq!(
        parse_text(
            "diff --git a/e b/e\nnew file mode 100644\nBinary files /dev/null and b/e differ\n\
             frobnicate 7\n"
        ),
        vec![
            Row::File("e".into()),
            raw("Binary files /dev/null and b/e differ"),
            raw("frobnicate 7"),
        ]
    );
}

#[test]
fn known_header_lines_have_nothing_to_show() {
    let rows = parse_text(
        "diff --git a/f b/g\nsimilarity index 90%\ndissimilarity index 10%\nindex 1..2 100644\n\
         copy from f\ncopy to g\n",
    );
    assert_eq!(rows, vec![Row::File("g".into())]);
}

#[test]
fn binary_patches_are_passed_over_as_far_as_they_go() {
    let patch = "diff --git a/i b/i\nindex 1..2\nGIT binary patch\nliteral 3\nKcmZQzWMT#Y01f~L\n\n\
                 literal 0\nHcmV?d00001\n\n";
    assert_eq!(parse_text(patch), vec![Row::File("i".into())]);
    // what is no data ends it, and then data is nothing special
    let rows = parse_text(&format!("{patch}what is this\nHcmV?d00001\n\n"));
    assert_eq!(
        rows,
        vec![
            Row::File("i".into()),
            raw("what is this"),
            raw("HcmV?d00001"),
            raw("")
        ]
    );
    for stray in ["literal x", "delta", "1bcdef", "abcde", "abcd f"] {
        let rows = parse_text(&format!("{patch}{stray}\n"));
        assert_eq!(rows, vec![Row::File("i".into()), raw(stray)], "{stray}");
    }
    assert_eq!(
        parse_text(&format!("{patch}delta 12\n")),
        vec![Row::File("i".into())]
    );
}

#[test]
fn a_note_on_a_missing_newline_keeps_pairs_and_emphasis() {
    let mut p = Parser::new();
    for line in [
        "diff --git a/f b/f",
        "@@ -1,2 +1,2 @@",
        "-let old = 1;",
        "+let new = 1;",
        " same",
        "-a",
    ] {
        p.line(line);
    }
    let rows = p.rows.clone();
    p.line("\\ No newline at end of file");
    assert_eq!(p.rows, rows);
    p.line("+b");
    p.flush_pairs();
    assert_eq!(p.rows[..rows.len()], rows[..]);
    assert_eq!(p.rows.len(), rows.len() + 1);
    let Row::Line { left: Some(l), .. } = &p.rows[2] else {
        panic!("expected a pair, got {:?}", p.rows[2]);
    };
    assert_eq!(l.emph, vec![(4, 7)]);
}

#[test]
fn words_in_common_at_the_front_are_not_marked() {
    let (a, b) = ("same same old end", "same same same end");
    let (ea, eb) = word_emph(a, b);
    assert!(ea.iter().chain(&eb).all(|&(lo, _)| lo >= "same same ".len()));
    assert!(!ea.is_empty() && !eb.is_empty());
}

#[test]
fn every_line_is_numbered_from_its_hunk() {
    let rows = parse_text(
        "diff --git a/f b/f\n@@ -3 +9 @@\n-a\n+b\n+c\n d\n@@ -4294967295 +1 @@\n x\n y\n\
         @@ -q +1 @@\n z\ndiff --git a/g b/g\n@@ -1 +1 @@\n+w\n",
    );
    let mut next = None;
    for row in rows {
        next = match row {
            Row::Hunk(header) => hunk_starts(&header),
            Row::Line { left, right } => {
                let (mut old, mut new) = next.unwrap();
                if let Some(cell) = left {
                    assert_eq!(cell.no, old);
                    old = old.saturating_add(1);
                }
                if let Some(cell) = right {
                    assert_eq!(cell.no, new);
                    new = new.saturating_add(1);
                }
                Some((old, new))
            }
            _ => None,
        };
    }
}

#[test]
fn common_words_at_the_end_are_kept() {
    // front "let ", end " = start;"
    assert_eq!(
        word_emph("let old = start;", "let fresh = start;"),
        (vec![(4, 7)], vec![(4, 9)])
    );
    // nothing in common but the end
    assert_eq!(
        word_emph("red fish", "blue fish"),
        (vec![(0, 3)], vec![(0, 4)])
    );
    // the end is what is left behind the front: no word of the old line is marked
    let (ea, eb) = word_emph("one two", "one two two");
    assert_eq!(ea, vec![]);
    assert_eq!(eb.len(), 2);
    // however long the lines between are
    let tail = "the end";
    let a: String = (0..4000).map(|i| format!("a{i} ")).collect();
    let b: String = (0..4000).map(|i| format!("b{i} ")).collect();
    let (ea, eb) = word_emph(&format!("{a}{tail}"), &format!("{b}{tail}"));
    assert!(ea.iter().all(|r| r.1 < a.len()));
    assert!(ea.len() <= 7999 && eb.len() <= 7999);
}
