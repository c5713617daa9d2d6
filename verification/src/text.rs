//! Text helpers: characters, lines, words, prefixes and decimal numbers.

use vstd::prelude::*;
use vstd::string::*;

verus! {

/// `String::push` appends the given character to the end of the string.
pub assume_specification[ String::push ](s: &mut String, c: char)
    ensures
        final(s)@ == old(s)@.push(c),
;

/// The contents of a list of strings.
pub open spec fn strings(v: Seq<String>) -> Seq<Seq<char>> {
    v.map_values(|s: String| s@)
}

/// The characters of a string, in order.
pub fn chars_of(s: &str) -> (v: Vec<char>)
    ensures
        v@ == s@,
{
    let mut v: Vec<char> = Vec::new();
    for c in it: s.chars()
        invariant
            it.seq() == s@,
            v@ == s@.take(it.index() as int),
    {
        v.push(c);
    }
    v
}

/// The string made of the characters `from..to`.
pub fn string_of(chars: &Vec<char>, from: usize, to: usize) -> (s: String)
    requires
        from <= to <= chars@.len(),
    ensures
        s@ == chars@.subrange(from as int, to as int),
{
    let mut s = String::new();
    let mut i: usize = from;
    while i < to
        invariant
            from <= i <= to <= chars@.len(),
            s@ == chars@.subrange(from as int, i as int),
        decreases to - i,
    {
        s.push(chars[i]);
        i += 1;
    }
    s
}

/// `n` copies of `c`.
pub open spec fn repeated(c: char, n: nat) -> Seq<char> {
    Seq::new(n, |i: int| c)
}

/// A string of `n` spaces.
pub fn spaces(n: usize) -> (s: String)
    ensures
        s@ == repeated(' ', n as nat),
{
    let mut s = String::new();
    let mut i: usize = 0;
    while i < n
        invariant
            i <= n,
            s@ == repeated(' ', i as nat),
        decreases n - i,
    {
        s.push(' ');
        i += 1;
    }
    s
}

/// Appends all of `tail` to `s`.
pub fn push_all(s: &mut String, tail: &str)
    ensures
        final(s)@ == old(s)@ + tail@,
{
    s.append(tail);
}

// ---------------------------------------------------------------------------
// Runs of characters
// ---------------------------------------------------------------------------

/// How many characters at the front of `s` satisfy `p`.
pub open spec fn run_len(s: Seq<char>, p: spec_fn(char) -> bool) -> nat
    decreases s.len(),
{
    if s.len() > 0 && p(s[0]) {
        1 + run_len(s.drop_first(), p)
    } else {
        0
    }
}

/// The front run ends where `p` fails first.
pub proof fn lemma_run_len(s: Seq<char>, p: spec_fn(char) -> bool, n: nat)
    requires
        n <= s.len(),
        forall|i: int| 0 <= i < n ==> p(#[trigger] s[i]),
        n < s.len() ==> !p(s[n as int]),
    ensures
        run_len(s, p) == n,
    decreases n,
{
    if n > 0 {
        let t = s.drop_first();
        assert forall|i: int| 0 <= i < n - 1 implies p(#[trigger] t[i]) by {
            assert(t[i] == s[i + 1]);
        }
        assert(p(s[0]));
        lemma_run_len(t, p, (n - 1) as nat);
    }
}

/// What holds of the front run.
pub proof fn lemma_run_len_bounds(s: Seq<char>, p: spec_fn(char) -> bool)
    ensures
        run_len(s, p) <= s.len(),
        forall|i: int| 0 <= i < run_len(s, p) ==> p(#[trigger] s[i]),
        run_len(s, p) < s.len() ==> !p(s[run_len(s, p) as int]),
    decreases s.len(),
{
    if s.len() > 0 && p(s[0]) {
        let t = s.drop_first();
        lemma_run_len_bounds(t, p);
        assert forall|i: int| 0 <= i < run_len(s, p) implies p(#[trigger] s[i]) by {
            if i > 0 {
                assert(s[i] == t[i - 1]);
            }
        }
    }
}

// ---------------------------------------------------------------------------
// Lines
// ---------------------------------------------------------------------------

/// Everything but the line feed.
pub open spec fn not_newline() -> spec_fn(char) -> bool {
    |c: char| c != '\n'
}

/// Everything but the comma.
pub open spec fn not_comma() -> spec_fn(char) -> bool {
    |c: char| c != ','
}

/// A line without the carriage return before its line feed.
pub open spec fn without_cr(line: Seq<char>) -> Seq<char> {
    if line.len() > 0 && line.last() == '\r' {
        line.drop_last()
    } else {
        line
    }
}

/// The lines of a text: each ends at a line feed, which is dropped together
/// with a carriage return right before it. What follows the last line feed is
/// a line of its own unless it is empty, and keeps all its characters.
pub open spec fn split_lines(s: Seq<char>) -> Seq<Seq<char>>
    decreases s.len(),
{
    let n = run_len(s, not_newline());
    if s.len() == 0 {
        seq![]
    } else if n >= s.len() {
        seq![s]
    } else {
        seq![without_cr(s.take(n as int))] + split_lines(s.skip(n as int + 1))
    }
}

/// The lines of a text.
pub fn lines_of(text: &str) -> (lines: Vec<String>)
    ensures
        strings(lines@) == split_lines(text@),
{
    let chars = chars_of(text);
    let mut lines: Vec<String> = Vec::new();
    let mut start: usize = 0;
    assert(chars@.skip(0) == chars@);
    assert(strings(lines@) =~= Seq::<Seq<char>>::empty());
    while start < chars.len()
        invariant
            start <= chars@.len(),
            split_lines(chars@) == strings(lines@) + split_lines(chars@.skip(start as int)),
        decreases chars@.len() - start,
    {
        let ghost rest = chars@.skip(start as int);
        let mut end: usize = start;
        while end < chars.len() && chars[end] != '\n'
            invariant
                start <= end <= chars@.len(),
                rest == chars@.skip(start as int),
                forall|i: int| 0 <= i < end - start ==> #[trigger] rest[i] != '\n',
            decreases chars@.len() - end,
        {
            assert(rest[end - start] == chars@[end as int]);
            end += 1;
        }
        let ghost n = (end - start) as nat;
        proof {
            if end < chars@.len() {
                assert(rest[n as int] == chars@[end as int]);
            }
            lemma_run_len(rest, not_newline(), n);
        }
        let ghost before = lines@;
        if end == chars.len() {
            let line = string_of(&chars, start, end);
            assert(line@ =~= rest);
            lines.push(line);
            assert(strings(lines@) =~= strings(before).push(line@));
            assert(chars@.skip(end as int) =~= Seq::<char>::empty());
            assert(split_lines(chars@.skip(end as int)) =~= Seq::<Seq<char>>::empty());
            assert(strings(before) + split_lines(rest) =~= strings(lines@) + split_lines(
                chars@.skip(end as int),
            ));
            start = end;
        } else {
            let stop: usize = if end > start && chars[end - 1] == '\r' {
                end - 1
            } else {
                end
            };
            let line = string_of(&chars, start, stop);
            proof {
                let full = rest.take(n as int);
                if n > 0 {
                    assert(full.last() == chars@[end - 1]);
                }
                assert(line@ =~= without_cr(full));
                assert(rest.skip(n as int + 1) =~= chars@.skip(end + 1));
            }
            lines.push(line);
            assert(strings(lines@) =~= strings(before).push(line@));
            assert(strings(before) + split_lines(rest) =~= strings(lines@) + split_lines(
                chars@.skip(end + 1),
            ));
            start = end + 1;
        }
    }
    assert(chars@.skip(start as int) =~= Seq::<char>::empty());
    assert(split_lines(chars@) =~= strings(lines@));
    lines
}

// ---------------------------------------------------------------------------
// Words
// ---------------------------------------------------------------------------

/// The characters with the Unicode property White_Space.
pub open spec fn is_white_space(c: char) -> bool {
    ||| '\u{9}' <= c <= '\u{d}'
    ||| c == '\u{20}'
    ||| c == '\u{85}'
    ||| c == '\u{a0}'
    ||| c == '\u{1680}'
    ||| '\u{2000}' <= c <= '\u{200a}'
    ||| c == '\u{2028}'
    ||| c == '\u{2029}'
    ||| c == '\u{202f}'
    ||| c == '\u{205f}'
    ||| c == '\u{3000}'
}

/// Whether a character is white space.
pub fn white_space(c: char) -> (b: bool)
    ensures
        b == is_white_space(c),
{
    ('\u{9}' <= c && c <= '\u{d}') || c == '\u{20}' || c == '\u{85}' || c == '\u{a0}' || c
        == '\u{1680}' || ('\u{2000}' <= c && c <= '\u{200a}') || c == '\u{2028}' || c == '\u{2029}'
        || c == '\u{202f}' || c == '\u{205f}' || c == '\u{3000}'
}

/// The control characters: Unicode general category Cc.
pub open spec fn is_control_code(c: char) -> bool {
    c <= '\u{1f}' || '\u{7f}' <= c <= '\u{9f}'
}

/// Whether a character is a control character.
pub fn control_code(c: char) -> (b: bool)
    ensures
        b == is_control_code(c),
{
    c <= '\u{1f}' || ('\u{7f}' <= c && c <= '\u{9f}')
}

/// White space, as a predicate.
pub open spec fn blank() -> spec_fn(char) -> bool {
    |c: char| is_white_space(c)
}

/// Everything but white space, as a predicate.
pub open spec fn inked() -> spec_fn(char) -> bool {
    |c: char| !is_white_space(c)
}

/// The words of a text: its longest runs without white space.
pub open spec fn words(s: Seq<char>) -> Seq<Seq<char>>
    decreases s.len(),
{
    let t = s.skip(run_len(s, blank()) as int);
    let n = run_len(t, inked());
    if s.len() == 0 || run_len(s, blank()) >= s.len() || n == 0 || n > t.len() {
        seq![]
    } else {
        seq![t.take(n as int)] + words(t.skip(n as int))
    }
}

/// The words of a text.
pub fn words_of(text: &str) -> (found: Vec<String>)
    ensures
        strings(found@) == words(text@),
{
    let chars = chars_of(text);
    let mut found: Vec<String> = Vec::new();
    let mut start: usize = 0;
    assert(chars@.skip(0) == chars@);
    assert(strings(found@) =~= Seq::<Seq<char>>::empty());
    while start < chars.len()
        invariant
            start <= chars@.len(),
            words(chars@) == strings(found@) + words(chars@.skip(start as int)),
        decreases chars@.len() - start,
    {
        let ghost rest = chars@.skip(start as int);
        let mut from: usize = start;
        while from < chars.len() && white_space(chars[from])
            invariant
                start <= from <= chars@.len(),
                rest == chars@.skip(start as int),
                forall|i: int| 0 <= i < from - start ==> is_white_space(#[trigger] rest[i]),
            decreases chars@.len() - from,
        {
            assert(rest[from - start] == chars@[from as int]);
            from += 1;
        }
        let ghost skipped = (from - start) as nat;
        proof {
            if from < chars@.len() {
                assert(rest[skipped as int] == chars@[from as int]);
            }
            lemma_run_len(rest, blank(), skipped);
        }
        let ghost tail = rest.skip(skipped as int);
        let mut to: usize = from;
        while to < chars.len() && !white_space(chars[to])
            invariant
                from <= to <= chars@.len(),
                start <= from,
                tail == chars@.skip(from as int),
                forall|i: int| 0 <= i < to - from ==> !is_white_space(#[trigger] tail[i]),
            decreases chars@.len() - to,
        {
            assert(tail[to - from] == chars@[to as int]);
            to += 1;
        }
        let ghost n = (to - from) as nat;
        proof {
            if to < chars@.len() {
                assert(tail[n as int] == chars@[to as int]);
            }
            lemma_run_len(tail, inked(), n);
        }
        if from < chars.len() {
            let word = string_of(&chars, from, to);
            let ghost before = found@;
            assert(word@ =~= tail.take(n as int));
            assert(tail.skip(n as int) =~= chars@.skip(to as int));
            found.push(word);
            assert(strings(found@) =~= strings(before).push(word@));
            assert(strings(before) + words(rest) =~= strings(found@) + words(
                chars@.skip(to as int),
            ));
            start = to;
        } else {
            assert(words(rest) =~= Seq::<Seq<char>>::empty());
            assert(chars@.skip(from as int) =~= Seq::<char>::empty());
            assert(words(chars@.skip(from as int)) =~= Seq::<Seq<char>>::empty());
            start = from;
        }
    }
    assert(chars@.skip(start as int) =~= Seq::<char>::empty());
    assert(words(chars@) =~= strings(found@));
    found
}

/// Words joined by a separator.
pub open spec fn joined(parts: Seq<Seq<char>>, sep: Seq<char>) -> Seq<char>
    decreases parts.len(),
{
    if parts.len() == 0 {
        seq![]
    } else if parts.len() == 1 {
        parts[0]
    } else {
        joined(parts.drop_last(), sep) + sep + parts.last()
    }
}

/// Joins the parts, with the separator between each two.
pub fn join(parts: &Vec<String>, sep: &str) -> (s: String)
    ensures
        s@ == joined(strings(parts@), sep@),
{
    let mut s = String::new();
    let mut i: usize = 0;
    assert(strings(parts@).take(0) =~= Seq::<Seq<char>>::empty());
    while i < parts.len()
        invariant
            i <= parts@.len(),
            s@ == joined(strings(parts@).take(i as int), sep@),
        decreases parts@.len() - i,
    {
        let ghost done = strings(parts@).take(i + 1);
        assert(done.drop_last() =~= strings(parts@).take(i as int));
        assert(done.last() == parts@[i as int]@);
        if i > 0 {
            push_all(&mut s, sep);
        }
        push_all(&mut s, parts[i].as_str());
        assert(s@ =~= joined(done, sep@));
        i += 1;
    }
    assert(strings(parts@).take(i as int) =~= strings(parts@));
    s
}

// ---------------------------------------------------------------------------
// Prefixes and occurrences
// ---------------------------------------------------------------------------

/// Whether `pat` stands in `s` at position `i`.
pub open spec fn matches_at(s: Seq<char>, pat: Seq<char>, i: int) -> bool {
    0 <= i && i + pat.len() <= s.len() && s.subrange(i, i + pat.len()) == pat
}

/// Whether `pat` stands in `chars` at position `at`.
fn occurs_at(chars: &Vec<char>, pat: &str, at: usize) -> (b: bool)
    requires
        at <= chars@.len(),
    ensures
        b == matches_at(chars@, pat@, at as int),
{
    let pattern = chars_of(pat);
    if pattern.len() > chars.len() - at {
        return false;
    }
    let mut i: usize = 0;
    while i < pattern.len()
        invariant
            pattern@ == pat@,
            at + pattern@.len() <= chars.len(),
            i <= pattern@.len(),
            forall|j: int| 0 <= j < i ==> chars@[at + j] == #[trigger] pattern@[j],
        decreases pattern@.len() - i,
    {
        if chars[at + i] != pattern[i] {
            proof {
                let piece = chars@.subrange(at as int, at + pat@.len());
                assert(piece[i as int] == chars@[at + i]);
                assert(piece != pat@);
            }
            return false;
        }
        i += 1;
    }
    assert(chars@.subrange(at as int, at + pat@.len()) =~= pat@);
    true
}

/// Whether a text begins with `prefix`.
pub open spec fn has_prefix(s: Seq<char>, prefix: Seq<char>) -> bool {
    matches_at(s, prefix, 0)
}

/// What follows a prefix.
pub open spec fn after_prefix(s: Seq<char>, prefix: Seq<char>) -> Seq<char> {
    s.skip(prefix.len() as int)
}

/// Whether the characters begin with `prefix`.
pub fn starts_with(chars: &Vec<char>, prefix: &str) -> (b: bool)
    ensures
        b == has_prefix(chars@, prefix@),
{
    occurs_at(chars, prefix, 0)
}

/// What follows `prefix`, where the characters begin with it.
pub fn strip_prefix(chars: &Vec<char>, prefix: &str) -> (rest: Option<String>)
    ensures
        rest is Some <==> has_prefix(chars@, prefix@),
        rest is Some ==> rest->0@ == after_prefix(chars@, prefix@),
{
    if starts_with(chars, prefix) {
        let n: usize = prefix.unicode_len();
        let rest = string_of(chars, n, chars.len());
        assert(rest@ =~= after_prefix(chars@, prefix@));
        Some(rest)
    } else {
        None
    }
}

/// The last position up to `i` at which `pat` stands in `s`.
pub open spec fn last_match_up_to(s: Seq<char>, pat: Seq<char>, i: int) -> Option<int>
    decreases i + 1,
{
    if i < 0 {
        None
    } else if matches_at(s, pat, i) {
        Some(i)
    } else {
        last_match_up_to(s, pat, i - 1)
    }
}

/// The last position at which `pat` stands in `s`.
pub open spec fn last_match(s: Seq<char>, pat: Seq<char>) -> Option<int> {
    last_match_up_to(s, pat, s.len() as int)
}

/// The last position at which `pat` stands in the characters.
pub fn find_last(chars: &Vec<char>, pat: &str) -> (at: Option<usize>)
    ensures
        at is Some <==> last_match(chars@, pat@) is Some,
        at is Some ==> at->0 == last_match(chars@, pat@)->0 && at->0 + pat@.len() <= chars@.len(),
{
    let mut i: usize = chars.len();
    while !occurs_at(chars, pat, i)
        invariant
            i <= chars@.len(),
            last_match(chars@, pat@) == last_match_up_to(chars@, pat@, i as int),
        decreases i,
    {
        if i == 0 {
            assert(last_match_up_to(chars@, pat@, -1) is None);
            return None;
        }
        i -= 1;
    }
    Some(i)
}

/// The last match is a match, and none comes after it.
pub proof fn lemma_last_match(s: Seq<char>, pat: Seq<char>, i: int)
    ensures
        last_match_up_to(s, pat, i) matches Some(k) ==> k <= i && matches_at(s, pat, k) && (forall|
            j: int,
        |
            k < j <= i ==> !#[trigger] matches_at(s, pat, j)),
        last_match_up_to(s, pat, i) is None ==> forall|j: int|
            j <= i ==> !#[trigger] matches_at(s, pat, j),
    decreases i + 1,
{
    if i >= 0 && !matches_at(s, pat, i) {
        lemma_last_match(s, pat, i - 1);
    }
}

// ---------------------------------------------------------------------------
// Decimal numbers
// ---------------------------------------------------------------------------

/// The digit character of `d`, for `d` below ten.
pub open spec fn digit(d: nat) -> char {
    (48 + d) as char
}

/// A number in decimal, without leading zeros.
pub open spec fn decimal(n: nat) -> Seq<char>
    decreases n,
{
    if n < 10 {
        seq![digit(n)]
    } else {
        decimal(n / 10).push(digit(n % 10))
    }
}

/// Appends a number in decimal.
pub fn push_decimal(s: &mut String, n: u128)
    ensures
        final(s)@ == old(s)@ + decimal(n as nat),
    decreases n,
{
    if n >= 10 {
        push_decimal(s, n / 10);
    }
    let c = (48u8 + (n % 10) as u8) as char;
    let ghost before = s@;
    s.push(c);
    assert(c == digit((n % 10) as nat));
    if n >= 10 {
        assert(s@ =~= old(s)@ + decimal(n as nat));
    } else {
        assert(s@ =~= old(s)@ + decimal(n as nat));
    }
}

/// A number in decimal.
pub fn decimal_string(n: u128) -> (s: String)
    ensures
        s@ == decimal(n as nat),
{
    let mut s = String::new();
    push_decimal(&mut s, n);
    assert(s@ =~= decimal(n as nat));
    s
}

/// How many digits a number has in decimal.
pub fn decimal_len(n: u32) -> (len: usize)
    ensures
        len == decimal(n as nat).len(),
        1 <= len <= 10,
{
    let mut len: usize = 1;
    let mut left: u32 = n;
    let ghost mut bound: nat = 4_294_967_295;
    while left >= 10
        invariant
            1 <= len,
            left <= bound,
            len == 1 ==> bound == 4_294_967_295,
            len == 2 ==> bound == 429_496_729,
            len == 3 ==> bound == 42_949_672,
            len == 4 ==> bound == 4_294_967,
            len == 5 ==> bound == 429_496,
            len == 6 ==> bound == 42_949,
            len == 7 ==> bound == 4_294,
            len == 8 ==> bound == 429,
            len == 9 ==> bound == 42,
            len == 10 ==> bound == 4,
            len <= 10,
            decimal(n as nat).len() == decimal(left as nat).len() + len - 1,
        decreases left,
    {
        left = left / 10;
        len += 1;
        proof {
            bound = bound / 10;
        }
    }
    len
}

/// Whether a character is a decimal digit.
pub open spec fn is_digit(c: char) -> bool {
    '0' <= c <= '9'
}

/// The value of a row of digits.
pub open spec fn digits_value(s: Seq<char>) -> nat
    decreases s.len(),
{
    if s.len() == 0 {
        0
    } else {
        digits_value(s.drop_last()) * 10 + (s.last() as nat - 48) as nat
    }
}

/// Whether a text is one or more digits and nothing else.
pub open spec fn all_digits(s: Seq<char>) -> bool {
    s.len() > 0 && forall|i: int| 0 <= i < s.len() ==> is_digit(#[trigger] s[i])
}

/// Whether the characters are one or more digits and nothing else.
pub fn digits_only(chars: &Vec<char>) -> (b: bool)
    ensures
        b == all_digits(chars@),
{
    let mut i: usize = 0;
    while i < chars.len()
        invariant
            i <= chars@.len(),
            forall|j: int| 0 <= j < i ==> is_digit(#[trigger] chars@[j]),
        decreases chars@.len() - i,
    {
        if !('0' <= chars[i] && chars[i] <= '9') {
            return false;
        }
        i += 1;
    }
    chars.len() > 0
}

/// A text without the one plus sign that it may begin with.
pub open spec fn without_plus(s: Seq<char>) -> Seq<char> {
    if s.len() > 0 && s[0] == '+' {
        s.skip(1)
    } else {
        s
    }
}

/// The number that a text writes in decimal: digits, after at most one plus
/// sign, whose value fits 32 bits.
pub open spec fn number(s: Seq<char>) -> Option<u32> {
    let d = without_plus(s);
    if all_digits(d) && digits_value(d) <= u32::MAX {
        Some(digits_value(d) as u32)
    } else {
        None
    }
}

/// Further digits never make a number smaller.
proof fn lemma_value_grows(s: Seq<char>, k: int)
    requires
        0 <= k <= s.len(),
    ensures
        digits_value(s.take(k)) <= digits_value(s),
    decreases s.len() - k,
{
    if k == s.len() {
        assert(s.take(k) =~= s);
    } else {
        assert(s.take(k + 1).drop_last() =~= s.take(k));
        lemma_value_grows(s, k + 1);
    }
}

/// Reads the number that `chars[from..to]` writes in decimal.
pub fn parse_number(chars: &Vec<char>, from: usize, to: usize) -> (n: Option<u32>)
    requires
        from <= to <= chars@.len(),
    ensures
        n == number(chars@.subrange(from as int, to as int)),
{
    let ghost s = chars@.subrange(from as int, to as int);
    let start: usize = if from < to && chars[from] == '+' {
        from + 1
    } else {
        from
    };
    let ghost d = without_plus(s);
    proof {
        if from < to {
            assert(s[0] == chars@[from as int]);
        }
        assert(d =~= chars@.subrange(start as int, to as int));
    }
    if start == to {
        return None;
    }
    let mut value: u32 = 0;
    let mut i: usize = start;
    assert(d.take(0) =~= Seq::<char>::empty());
    while i < to
        invariant
            start <= i <= to <= chars@.len(),
            start < to,
            s == chars@.subrange(from as int, to as int),
            d == chars@.subrange(start as int, to as int),
            d == without_plus(s),
            value == digits_value(d.take(i - start)),
            forall|j: int| 0 <= j < i - start ==> is_digit(#[trigger] d[j]),
        decreases to - i,
    {
        let c = chars[i];
        let ghost k = i - start;
        assert(d[k] == c);
        if !('0' <= c && c <= '9') {
            assert(!is_digit(d[k]));
            return None;
        }
        let v: u64 = value as u64 * 10 + (c as u64 - 48);
        proof {
            assert(d.take(k + 1).drop_last() =~= d.take(k));
            assert(d.take(k + 1).last() == c);
            assert(v == digits_value(d.take(k + 1)));
            lemma_value_grows(d, k + 1);
        }
        if v > u32::MAX as u64 {
            return None;
        }
        value = v as u32;
        i += 1;
    }
    assert(d.take(to - start) =~= d);
    Some(value)
}

/// Writing a number in decimal and reading it back gives the number.
pub proof fn law_number_reads_decimal(n: u32)
    ensures
        number(decimal(n as nat)) == Some(n),
{
    lemma_decimal_digits(n as nat);
    let s = decimal(n as nat);
    assert(is_digit(s[0]));
    assert(without_plus(s) == s);
}

/// A decimal is made of digits and has the value it was made from.
pub proof fn lemma_decimal_digits(n: nat)
    ensures
        all_digits(decimal(n)),
        digits_value(decimal(n)) == n,
    decreases n,
{
    if n < 10 {
        let s = seq![digit(n)];
        assert(s.drop_last() =~= Seq::<char>::empty());
        assert(digits_value(s.drop_last()) == 0);
        assert(digit(n) as nat == 48 + n);
    } else {
        lemma_decimal_digits(n / 10);
        let s = decimal(n);
        assert(s.drop_last() =~= decimal(n / 10));
        assert(digit(n % 10) as nat == 48 + n % 10);
        assert forall|i: int| 0 <= i < s.len() implies is_digit(#[trigger] s[i]) by {
            if i < s.len() - 1 {
                assert(s[i] == decimal(n / 10)[i]);
            }
        }
    }
}

/// A number in decimal has no leading zero.
pub proof fn law_decimal_has_no_leading_zero(n: nat)
    ensures
        decimal(n).len() > 0,
        n > 0 ==> decimal(n)[0] != '0',
        n == 0 ==> decimal(n) == seq!['0'],
    decreases n,
{
    if n >= 10 {
        law_decimal_has_no_leading_zero(n / 10);
    }
}

} // verus!
