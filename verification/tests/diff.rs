use scopic::diff::{parse, strip_ansi, Cell, Kind, Row};
use scopic::intraline::word_emph;

const BASIC: &str = "\
diff --git a/src/main.rs b/src/main.rs
index 1111111..2222222 100644
--- a/src/main.rs
+++ b/src/main.rs
@@ -10,3 +10,4 @@ fn main() {
 fn main() {
-    let x = 1;
+    let x = 2;
+    let y = 3;
 }
";

fn cell(no: u32, text: &str, kind: Kind) -> Option<Cell> {
    Some(Cell {
        no,
        text: text.into(),
        kind,
        emph: vec![],
    })
}

// like `cell` but ignores emph when comparing; tests that don't care about
// intraline strip emph from actual rows first
fn without_emph(rows: Vec<Row>) -> Vec<Row> {
    rows.into_iter()
        .map(|r| match r {
            Row::Line { left, right } => Row::Line {
                left: left.map(|mut c| {
                    c.emph.clear();
                    c
                }),
                right: right.map(|mut c| {
                    c.emph.clear();
                    c
                }),
            },
            other => other,
        })
        .collect()
}

#[test]
fn strip_ansi_removes_csi() {
    let colored = b"\x1b[31m-old line\x1b[0m\n";
    assert_eq!(strip_ansi(colored), b"-old line\n");
}

#[test]
fn parses_single_hunk_with_pairing() {
    let rows = without_emph(parse(BASIC.as_bytes()));
    assert_eq!(
        rows,
        vec![
            Row::File("src/main.rs".into()),
            Row::Hunk("@@ -10,3 +10,4 @@ fn main() {".into()),
            Row::Line {
                left: cell(10, "fn main() {", Kind::Ctx),
                right: cell(10, "fn main() {", Kind::Ctx)
            },
            Row::Line {
                left: cell(11, "    let x = 1;", Kind::Del),
                right: cell(11, "    let x = 2;", Kind::Add)
            },
            Row::Line {
                left: None,
                right: cell(12, "    let y = 3;", Kind::Add)
            },
            Row::Line {
                left: cell(12, "}", Kind::Ctx),
                right: cell(13, "}", Kind::Ctx)
            },
        ]
    );
}

#[test]
fn intraline_marks_changed_word() {
    let rows = parse(BASIC.as_bytes());
    let Row::Line {
        left: Some(l),
        right: Some(r),
    } = &rows[3]
    else {
        panic!("expected paired line, got {:?}", rows[3]);
    };
    assert_eq!(l.emph, vec![(12, 13)]); // the "1"
    assert_eq!(r.emph, vec![(12, 13)]); // the "2"
}

#[test]
fn unequal_runs_leave_one_sided() {
    let input = "\
diff --git a/f b/f
--- a/f
+++ b/f
@@ -1,2 +1,1 @@
-one
-two
+uno
";
    let rows = without_emph(parse(input.as_bytes()));
    assert_eq!(
        rows[2..],
        vec![
            Row::Line {
                left: cell(1, "one", Kind::Del),
                right: cell(1, "uno", Kind::Add)
            },
            Row::Line {
                left: cell(2, "two", Kind::Del),
                right: None
            },
        ]
    );
}

#[test]
fn added_file_uses_new_path() {
    let input = "\
diff --git a/n.txt b/n.txt
new file mode 100644
--- /dev/null
+++ b/n.txt
@@ -0,0 +1 @@
+hi
";
    let rows = without_emph(parse(input.as_bytes()));
    assert_eq!(
        rows,
        vec![
            Row::File("n.txt".into()),
            Row::Hunk("@@ -0,0 +1 @@".into()),
            Row::Line {
                left: None,
                right: cell(1, "hi", Kind::Add)
            },
        ]
    );
}

#[test]
fn rename_headers_merge_title() {
    let input = "\
diff --git a/old.rs b/new.rs
similarity index 90%
rename from old.rs
rename to new.rs
";
    assert_eq!(
        parse(input.as_bytes()),
        vec![Row::File("old.rs → new.rs".into())]
    );
}

#[test]
fn binary_and_junk_become_raw() {
    let input = "\
garbage before anything
diff --git a/img.png b/img.png
Binary files a/img.png and b/img.png differ
";
    assert_eq!(
        parse(input.as_bytes()),
        vec![
            Row::Raw("garbage before anything".into()),
            Row::Raw("".into()),
            Row::File("img.png".into()),
            Row::Raw("Binary files a/img.png and b/img.png differ".into()),
        ]
    );
}

#[test]
fn malformed_hunk_header_degrades_to_raw_not_silence() {
    let input = "\
diff --git a/g b/g
--- a/g
+++ b/g
@@ -x,1 +1,1 @@
-a
+b
";
    let rows = parse(input.as_bytes());
    assert_eq!(
        rows,
        vec![
            Row::File("g".into()),
            Row::Raw("@@ -x,1 +1,1 @@".into()),
            Row::Raw("-a".into()),
            Row::Raw("+b".into()),
        ]
    );
}

#[test]
fn huge_line_pair_completes_fast_with_valid_ranges() {
    let a: String = (0..5000).map(|i| format!("a{}.b{};", i, i % 97)).collect();
    let b: String = (0..5000).map(|i| format!("a{}.b{};", i, i % 89)).collect();
    let start = std::time::Instant::now();
    let (ea, eb) = word_emph(&a, &b);
    assert!(
        start.elapsed().as_secs() < 2,
        "intraline diff not time-bounded"
    );
    for (ranges, s) in [(&ea, &a), (&eb, &b)] {
        for &(lo, hi) in ranges.iter() {
            assert!(hi <= s.len() && s.is_char_boundary(lo) && s.is_char_boundary(hi));
        }
        // cell_spans' take_while cap silently depends on ascending, non-overlapping ranges
        for w in ranges.windows(2) {
            assert!(
                w[0].1 <= w[1].0,
                "ranges out of order: {:?} then {:?}",
                w[0],
                w[1]
            );
        }
    }
}

#[test]
fn statusonly_sections_keep_mode_headers() {
    let input = "\
diff --git a/e b/e
new file mode 100644
index 0000000..e69de29
diff --git a/x b/x
old mode 100644
new mode 100755
";
    assert_eq!(
        parse(input.as_bytes()),
        vec![
            Row::File("e".into()),
            Row::Raw("new file mode 100644".into()),
            Row::Raw("".into()),
            Row::File("x".into()),
            Row::Raw("old mode 100644".into()),
            Row::Raw("new mode 100755".into()),
        ]
    );
}

#[test]
fn sections_with_hunks_suppress_mode_headers() {
    let input = "\
diff --git a/n.txt b/n.txt
new file mode 100644
--- /dev/null
+++ b/n.txt
@@ -0,0 +1 @@
+hi
";
    let rows = parse(input.as_bytes());
    assert!(
        !rows
            .iter()
            .any(|r| matches!(r, Row::Raw(t) if t.contains("new file mode")))
    );
}

#[test]
fn huge_hunk_start_numbers_saturate_instead_of_panicking() {
    let input = "\
diff --git a/f b/f
--- a/f
+++ b/f
@@ -4294967294,3 +1,3 @@
 a
 b
 c
";
    let rows = parse(input.as_bytes());
    let Row::Line { left: Some(l), .. } = &rows[4] else {
        panic!("expected line row, got {:?}", rows[4]);
    };
    assert_eq!(l.no, u32::MAX);
}

#[test]
fn empty_input_no_rows() {
    assert_eq!(parse(b""), vec![]);
    assert_eq!(parse(b"\n"), vec![Row::Raw("".into())]);
}

#[test]
fn colored_input_parses_same() {
    let colored: String = BASIC
        .lines()
        .map(|l| format!("\x1b[1m\x1b[32m{l}\x1b[0m\n"))
        .collect();
    assert_eq!(parse(colored.as_bytes()), parse(BASIC.as_bytes()));
}
