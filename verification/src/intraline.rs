//! Intraline emphasis: which byte ranges of two paired lines differ.

use vstd::prelude::*;
use vstd::utf8::*;

use crate::bytes::{
    boundary, byte_len, lemma_boundary, lemma_byte_len_positive, lemma_encode_concat, len_of,
};
use crate::wrap::concat;

verus! {

/// What became of a piece of text from one line to the other.
#[derive(Clone, Copy, Debug, PartialEq, Eq, Structural)]
pub enum ChangeTag {
    /// in both lines
    Equal,
    /// in the old line only
    Delete,
    /// in the new line only
    Insert,
}

/// A piece of text and what became of it.
#[derive(Clone, Debug, PartialEq, Eq)]
pub struct Change {
    pub tag: ChangeTag,
    pub text: String,
}

/// A change, by its contents.
pub struct ChangeView {
    pub tag: ChangeTag,
    pub text: Seq<char>,
}

impl View for Change {
    type V = ChangeView;

    open spec fn view(&self) -> ChangeView {
        ChangeView { tag: self.tag, text: self.text@ }
    }
}

/// Byte ranges of a line.
pub type Ranges = Vec<(usize, usize)>;

/// The changes, by their contents.
pub open spec fn change_views(changes: Seq<Change>) -> Seq<ChangeView> {
    changes.map_values(|c: Change| c@)
}

/// The pieces that do not carry `tag`, put together.
pub open spec fn text_without(changes: Seq<ChangeView>, tag: ChangeTag) -> Seq<char>
    decreases changes.len(),
{
    if changes.len() == 0 {
        seq![]
    } else if changes.last().tag == tag {
        text_without(changes.drop_last(), tag)
    } else {
        text_without(changes.drop_last(), tag) + changes.last().text
    }
}

/// The old line that the changes lead away from.
pub open spec fn old_text(changes: Seq<ChangeView>) -> Seq<char> {
    text_without(changes, ChangeTag::Insert)
}

/// The new line that the changes lead to.
pub open spec fn new_text(changes: Seq<ChangeView>) -> Seq<char> {
    text_without(changes, ChangeTag::Delete)
}

/// Whether the changes lead from line `a` to line `b`, in pieces of at least
/// one character.
pub open spec fn describes(changes: Seq<ChangeView>, a: Seq<char>, b: Seq<char>) -> bool {
    &&& old_text(changes) == a
    &&& new_text(changes) == b
    &&& forall|i: int| 0 <= i < changes.len() ==> (#[trigger] changes[i]).text.len() > 0
}

/// Where the pieces tagged `tag` stand in the line made of the pieces that do
/// not carry `other`.
pub open spec fn ranges_of(changes: Seq<ChangeView>, tag: ChangeTag, other: ChangeTag) -> Seq<
    (usize, usize),
>
    decreases changes.len(),
{
    if changes.len() == 0 {
        seq![]
    } else {
        let before = ranges_of(changes.drop_last(), tag, other);
        if changes.last().tag == tag {
            let lo = byte_len(text_without(changes.drop_last(), other));
            before.push((lo as usize, (lo + byte_len(changes.last().text)) as usize))
        } else {
            before
        }
    }
}

/// Where the deleted pieces stand in the old line.
pub open spec fn deleted_ranges(changes: Seq<ChangeView>) -> Seq<(usize, usize)> {
    ranges_of(changes, ChangeTag::Delete, ChangeTag::Insert)
}

/// Where the inserted pieces stand in the new line.
pub open spec fn inserted_ranges(changes: Seq<ChangeView>) -> Seq<(usize, usize)> {
    ranges_of(changes, ChangeTag::Insert, ChangeTag::Delete)
}

/// The changes that do not carry `tag`.
pub open spec fn changes_without(changes: Seq<ChangeView>, tag: ChangeTag) -> Seq<ChangeView> {
    changes.filter(|c: ChangeView| c.tag != tag)
}

/// The pieces that do not carry `tag`, one by one.
pub open spec fn pieces_without(changes: Seq<ChangeView>, tag: ChangeTag) -> Seq<Seq<char>> {
    changes_without(changes, tag).map_values(|c: ChangeView| c.text)
}

/// The changes that keep a piece.
pub open spec fn kept_changes(changes: Seq<ChangeView>) -> Seq<ChangeView> {
    changes.filter(|c: ChangeView| c.tag == ChangeTag::Equal)
}

/// The words of a text, and what stands between them, as `similar` cuts it.
pub uninterp spec fn word_pieces(text: Seq<char>) -> Seq<Seq<char>>;

/// Whether every piece that is kept, deleted or inserted is a word of its line, or
/// what stands between two.
pub open spec fn by_words(changes: Seq<ChangeView>, a: Seq<char>, b: Seq<char>) -> bool {
    &&& pieces_without(changes, ChangeTag::Insert) == word_pieces(a)
    &&& pieces_without(changes, ChangeTag::Delete) == word_pieces(b)
}

/// How many words two texts have in common at their front.
pub open spec fn shared_front(a: Seq<Seq<char>>, b: Seq<Seq<char>>) -> nat
    decreases a.len(),
{
    if a.len() > 0 && b.len() > 0 && a[0] == b[0] {
        1 + shared_front(a.drop_first(), b.drop_first())
    } else {
        0
    }
}

/// Whether the words that two lines have in common at their front are kept.
pub open spec fn keeps_front(changes: Seq<ChangeView>, a: Seq<char>, b: Seq<char>) -> bool {
    let n = shared_front(word_pieces(a), word_pieces(b));
    n <= changes.len() && forall|i: int|
        0 <= i < n ==> (#[trigger] changes[i]).tag == ChangeTag::Equal
}

/// How many words two texts have in common at their end.
pub open spec fn shared_end(a: Seq<Seq<char>>, b: Seq<Seq<char>>) -> nat
    decreases a.len(),
{
    if a.len() > 0 && b.len() > 0 && a.last() == b.last() {
        1 + shared_end(a.drop_last(), b.drop_last())
    } else {
        0
    }
}

/// How many words two lines have in common at the end of what is left of them
/// behind their common front.
pub open spec fn common_end(a: Seq<char>, b: Seq<char>) -> nat {
    let n = shared_front(word_pieces(a), word_pieces(b)) as int;
    shared_end(word_pieces(a).skip(n), word_pieces(b).skip(n))
}

/// Whether the words that two lines have in common at their end are kept: none of
/// them is deleted from the old line, and as many words are kept in all as the lines
/// have in common at either end, or more.
pub open spec fn keeps_end(changes: Seq<ChangeView>, a: Seq<char>, b: Seq<char>) -> bool {
    let old = changes_without(changes, ChangeTag::Insert);
    let m = common_end(a, b);
    &&& m <= old.len()
    &&& forall|i: int|
        old.len() - m <= i < old.len() ==> (#[trigger] old[i]).tag == ChangeTag::Equal
    &&& shared_front(word_pieces(a), word_pieces(b)) + m <= kept_changes(changes).len()
}

/// Whether changes lead from `a` to `b` word by word and keep what the two have in
/// common at either end, and the ranges are what they delete and insert.
pub open spec fn marked_by(
    changes: Seq<ChangeView>,
    a: Seq<char>,
    b: Seq<char>,
    ea: Seq<(usize, usize)>,
    eb: Seq<(usize, usize)>,
) -> bool {
    &&& describes(changes, a, b)
    &&& by_words(changes, a, b)
    &&& keeps_front(changes, a, b)
    &&& keeps_end(changes, a, b)
    &&& ea == deleted_ranges(changes)
    &&& eb == inserted_ranges(changes)
}

/// Whether the ranges mark what some such changes from `a` to `b` delete and insert;
/// where the lines are the same, nothing at all.
pub open spec fn emphasises(
    a: Seq<char>,
    b: Seq<char>,
    ea: Seq<(usize, usize)>,
    eb: Seq<(usize, usize)>,
) -> bool {
    &&& exists|changes: Seq<ChangeView>| marked_by(changes, a, b, ea, eb)
    &&& a == b ==> ea.len() == 0 && eb.len() == 0
}

/// `similar`'s word diff, `TextDiffConfig::diff_unicode_words`, with a limit on
/// the time it takes, followed by `TextDiff::iter_all_changes`. The changes
/// handed out lead from `a` to `b`: the pieces kept or deleted, put together,
/// are `a`, those kept or inserted are `b`, and none is empty. Piece by piece they
/// are the words of the two texts, which have a name above. The words that the two
/// have in common at their front are found before the search and kept, and so are
/// those at the end of what is left: none of these is deleted from `a`, and at least
/// as many words are kept as the front and the end have. Of a text and itself
/// everything is kept. Which other words are kept rests on the time the search had and
/// is left unsaid, and so is before which of several equal words one is inserted.
#[verifier::external_body]
fn word_changes(a: &str, b: &str, limit_ms: u64) -> (changes: Vec<Change>)
    ensures
        describes(change_views(changes@), a@, b@),
        pieces_without(change_views(changes@), ChangeTag::Insert) == word_pieces(a@),
        pieces_without(change_views(changes@), ChangeTag::Delete) == word_pieces(b@),
        keeps_front(change_views(changes@), a@, b@),
        keeps_end(change_views(changes@), a@, b@),
        a@ == b@ ==> forall|i: int|
            0 <= i < changes@.len() ==> (#[trigger] changes@[i]).tag == ChangeTag::Equal,
{
    similar::TextDiff::configure()
        .timeout(std::time::Duration::from_millis(limit_ms))
        .diff_unicode_words(a, b)
        .iter_all_changes()
        .map(|change| Change {
            tag: match change.tag() {
                similar::ChangeTag::Equal => ChangeTag::Equal,
                similar::ChangeTag::Delete => ChangeTag::Delete,
                similar::ChangeTag::Insert => ChangeTag::Insert,
            },
            text: change.value().to_string(),
        })
        .collect()
}

/// How long the word diff of one pair of lines may take: a line the size of a
/// bundled file would otherwise hold up the viewer for minutes.
pub const WORD_DIFF_LIMIT_MS: u64 = 5;

/// A front part of the changes makes a front part of the line.
proof fn lemma_text_grows(changes: Seq<ChangeView>, tag: ChangeTag, k: int)
    requires
        0 <= k <= changes.len(),
    ensures
        byte_len(text_without(changes.take(k), tag)) <= byte_len(text_without(changes, tag)),
    decreases changes.len() - k,
{
    if k == changes.len() {
        assert(changes.take(k) =~= changes);
    } else {
        let next = changes.take(k + 1);
        assert(next.drop_last() =~= changes.take(k));
        lemma_encode_concat(text_without(changes.take(k), tag), next.last().text);
        lemma_text_grows(changes, tag, k + 1);
    }
}

/// The byte ranges that changes delete from the old line and insert into the
/// new one.
pub fn emph_ranges(changes: &Vec<Change>) -> (r: (Ranges, Ranges))
    requires
        byte_len(old_text(change_views(changes@))) <= usize::MAX,
        byte_len(new_text(change_views(changes@))) <= usize::MAX,
    ensures
        r.0@ == deleted_ranges(change_views(changes@)),
        r.1@ == inserted_ranges(change_views(changes@)),
{
    let ghost all = change_views(changes@);
    let mut ai: usize = 0;
    let mut bi: usize = 0;
    let mut ea: Ranges = Vec::new();
    let mut eb: Ranges = Vec::new();
    let mut i: usize = 0;
    assert(all.take(0) =~= Seq::<ChangeView>::empty());
    assert(byte_len(Seq::<char>::empty()) == 0);
    while i < changes.len()
        invariant
            all == change_views(changes@),
            byte_len(old_text(all)) <= usize::MAX,
            byte_len(new_text(all)) <= usize::MAX,
            i <= changes@.len(),
            ai == byte_len(old_text(all.take(i as int))),
            bi == byte_len(new_text(all.take(i as int))),
            ea@ == deleted_ranges(all.take(i as int)),
            eb@ == inserted_ranges(all.take(i as int)),
        decreases changes@.len() - i,
    {
        let len: usize = len_of(changes[i].text.as_str());
        proof {
            let next = all.take(i + 1);
            let done = all.take(i as int);
            assert(next.drop_last() =~= done);
            assert(next.last() == changes@[i as int]@);
            lemma_encode_concat(old_text(done), next.last().text);
            lemma_encode_concat(new_text(done), next.last().text);
            lemma_text_grows(all, ChangeTag::Insert, i + 1);
            lemma_text_grows(all, ChangeTag::Delete, i + 1);
        }
        match changes[i].tag {
            ChangeTag::Equal => {
                ai += len;
                bi += len;
            },
            ChangeTag::Delete => {
                ea.push((ai, ai + len));
                ai += len;
            },
            ChangeTag::Insert => {
                eb.push((bi, bi + len));
                bi += len;
            },
        }
        i += 1;
    }
    assert(all.take(i as int) =~= all);
    (ea, eb)
}

/// Where everything is kept, nothing is marked.
proof fn lemma_nothing_marked(changes: Seq<ChangeView>, tag: ChangeTag, other: ChangeTag)
    requires
        tag != ChangeTag::Equal,
        forall|i: int| 0 <= i < changes.len() ==> (#[trigger] changes[i]).tag == ChangeTag::Equal,
    ensures
        ranges_of(changes, tag, other).len() == 0,
    decreases changes.len(),
{
    if changes.len() > 0 {
        assert(changes[changes.len() - 1].tag == ChangeTag::Equal);
        lemma_nothing_marked(changes.drop_last(), tag, other);
    }
}

/// The byte ranges of two paired lines in which they differ, word by word.
pub fn word_emph(a: &str, b: &str) -> (r: (Ranges, Ranges))
    ensures
        emphasises(a@, b@, r.0@, r.1@),
{
    let changes = word_changes(a, b, WORD_DIFF_LIMIT_MS);
    let a_len: usize = len_of(a);
    let b_len: usize = len_of(b);
    proof {
        let views = change_views(changes@);
        assert(byte_len(old_text(views)) == a_len && byte_len(new_text(views)) == b_len);
        if a@ == b@ {
            assert forall|i: int| 0 <= i < views.len() implies (#[trigger] views[i]).tag
                == ChangeTag::Equal by {
                assert(changes@[i].tag == ChangeTag::Equal);
            }
            lemma_nothing_marked(views, ChangeTag::Delete, ChangeTag::Insert);
            lemma_nothing_marked(views, ChangeTag::Insert, ChangeTag::Delete);
        }
        assert(marked_by(views, a@, b@, deleted_ranges(views), inserted_ranges(views)));
    }
    emph_ranges(&changes)
}

// ---------------------------------------------------------------------------
// What holds of the emphasis, whichever words the search found
// ---------------------------------------------------------------------------

/// The marks of one line: they lie inside it, on character boundaries, in
/// ascending order and without overlap, and none is empty.
pub open spec fn marks(text: Seq<char>, ranges: Seq<(usize, usize)>) -> bool {
    &&& forall|i: int|
        0 <= i < ranges.len() ==> {
            let r = #[trigger] ranges[i];
            r.0 < r.1 <= byte_len(text) && boundary(text, r.0 as int) && boundary(text, r.1 as int)
        }
    &&& forall|i: int, j: int|
        0 <= i < j < ranges.len() ==> (#[trigger] ranges[i]).1 <= (#[trigger] ranges[j]).0
}

/// The bytes of a line outside its marks.
pub open spec fn unmarked(bytes: Seq<u8>, ranges: Seq<(usize, usize)>) -> Seq<u8>
    decreases ranges.len(),
{
    if ranges.len() == 0 {
        bytes
    } else {
        unmarked(bytes.take(ranges.last().0 as int), ranges.drop_last()) + bytes.skip(
            ranges.last().1 as int,
        )
    }
}

/// The pieces in both lines, put together.
pub open spec fn kept_text(changes: Seq<ChangeView>) -> Seq<char>
    decreases changes.len(),
{
    if changes.len() == 0 {
        seq![]
    } else if changes.last().tag == ChangeTag::Equal {
        kept_text(changes.drop_last()) + changes.last().text
    } else {
        kept_text(changes.drop_last())
    }
}

/// One side of a list of changes: its marks are in order, and what they leave
/// unmarked is what both lines keep.
proof fn lemma_side(changes: Seq<ChangeView>, tag: ChangeTag, other: ChangeTag)
    requires
        tag == ChangeTag::Delete && other == ChangeTag::Insert || tag == ChangeTag::Insert && other
            == ChangeTag::Delete,
        byte_len(text_without(changes, other)) <= usize::MAX,
        forall|i: int| 0 <= i < changes.len() ==> (#[trigger] changes[i]).text.len() > 0,
    ensures
        marks(text_without(changes, other), ranges_of(changes, tag, other)),
        unmarked(encode_utf8(text_without(changes, other)), ranges_of(changes, tag, other))
            == encode_utf8(kept_text(changes)),
    decreases changes.len(),
{
    if changes.len() > 0 {
        let front = changes.drop_last();
        let last = changes.last();
        assert(last == changes[changes.len() - 1]);
        let text = text_without(front, other);
        let ranges = ranges_of(front, tag, other);
        let bytes = encode_utf8(text);
        lemma_encode_concat(text, last.text);
        assert forall|i: int| 0 <= i < front.len() implies (#[trigger] front[i]).text.len()
            > 0 by {
            assert(front[i] == changes[i]);
        }
        lemma_side(front, tag, other);
        lemma_byte_len_positive(last.text);
        if last.tag != other {
            let longer = text + last.text;
            assert forall|i: int| 0 <= i < ranges.len() implies {
                let r = #[trigger] ranges[i];
                r.0 < r.1 <= byte_len(longer) && boundary(longer, r.0 as int) && boundary(
                    longer,
                    r.1 as int,
                )
            } by {
                lemma_boundary_longer(text, last.text, ranges[i].0 as int);
                lemma_boundary_longer(text, last.text, ranges[i].1 as int);
            }
            let after = ranges_of(changes, tag, other);
            lemma_encode_concat(kept_text(front), last.text);
            if last.tag == tag {
                let lo = byte_len(text);
                lemma_boundary(text, last.text);
                lemma_boundary(longer, Seq::<char>::empty());
                assert(longer + Seq::<char>::empty() =~= longer);
                assert(after == ranges.push((lo as usize, byte_len(longer) as usize)));
                assert(after.drop_last() =~= ranges);
                assert(encode_utf8(longer).take(lo as int) =~= bytes);
                assert(encode_utf8(longer).skip(byte_len(longer) as int) =~= Seq::<u8>::empty());
                assert(unmarked(bytes, ranges) + Seq::<u8>::empty() =~= unmarked(bytes, ranges));
            } else {
                assert(after == ranges);
                let more = encode_utf8(last.text);
                if ranges.len() == 0 {
                    assert(unmarked(bytes + more, ranges) =~= unmarked(bytes, ranges) + more);
                } else {
                    let r = ranges.last();
                    assert(r == ranges[ranges.len() - 1]);
                    assert((bytes + more).take(r.0 as int) =~= bytes.take(r.0 as int));
                    assert((bytes + more).skip(r.1 as int) =~= bytes.skip(r.1 as int) + more);
                    assert(unmarked(bytes + more, ranges) =~= unmarked(bytes, ranges) + more);
                }
            }
        }
    }
}

/// A boundary stays one when text is appended.
proof fn lemma_boundary_longer(text: Seq<char>, more: Seq<char>, at: int)
    requires
        boundary(text, at),
    ensures
        boundary(text + more, at),
{
    let bytes = encode_utf8(text);
    let longer = encode_utf8(text + more);
    lemma_encode_concat(text, more);
    encode_utf8_valid_utf8(text);
    encode_utf8_valid_utf8(text + more);
    if at < bytes.len() {
        is_char_boundary_iff_not_is_continuation_byte(bytes, at);
        is_char_boundary_iff_not_is_continuation_byte(longer, at);
        assert(longer[at] == bytes[at]);
    } else {
        lemma_boundary(text, more);
    }
}

/// Whichever words the search finds, the emphasis of either line lies inside
/// the line, on character boundaries, ascending and without overlap.
pub proof fn law_emphasis_in_order(
    a: Seq<char>,
    b: Seq<char>,
    ea: Seq<(usize, usize)>,
    eb: Seq<(usize, usize)>,
)
    requires
        emphasises(a, b, ea, eb),
        byte_len(a) <= usize::MAX,
        byte_len(b) <= usize::MAX,
    ensures
        marks(a, ea),
        marks(b, eb),
{
    let changes = choose|changes: Seq<ChangeView>| marked_by(changes, a, b, ea, eb);
    lemma_side(changes, ChangeTag::Delete, ChangeTag::Insert);
    lemma_side(changes, ChangeTag::Insert, ChangeTag::Delete);
}

/// Outside their emphasis the two lines are the same.
pub proof fn law_unmarked_text_is_shared(
    a: Seq<char>,
    b: Seq<char>,
    ea: Seq<(usize, usize)>,
    eb: Seq<(usize, usize)>,
)
    requires
        emphasises(a, b, ea, eb),
        byte_len(a) <= usize::MAX,
        byte_len(b) <= usize::MAX,
    ensures
        unmarked(encode_utf8(a), ea) == unmarked(encode_utf8(b), eb),
{
    let changes = choose|changes: Seq<ChangeView>| marked_by(changes, a, b, ea, eb);
    lemma_side(changes, ChangeTag::Delete, ChangeTag::Insert);
    lemma_side(changes, ChangeTag::Insert, ChangeTag::Delete);
}

/// The pieces of a line, put together, are the line.
proof fn lemma_pieces(changes: Seq<ChangeView>, other: ChangeTag)
    ensures
        concat(pieces_without(changes, other)) == text_without(changes, other),
    decreases changes.len(),
{
    reveal(Seq::filter);
    if changes.len() > 0 {
        let front = changes.drop_last();
        lemma_pieces(front, other);
        if changes.last().tag == other {
            assert(pieces_without(changes, other) =~= pieces_without(front, other));
        } else {
            assert(pieces_without(changes, other).drop_last() =~= pieces_without(front, other));
            assert(pieces_without(changes, other).last() == changes.last().text);
        }
    }
}

/// Pieces that are all kept belong to either line.
proof fn lemma_all_kept(changes: Seq<ChangeView>, other: ChangeTag)
    requires
        other != ChangeTag::Equal,
        forall|i: int| 0 <= i < changes.len() ==> (#[trigger] changes[i]).tag == ChangeTag::Equal,
    ensures
        pieces_without(changes, other).len() == changes.len(),
    decreases changes.len(),
{
    reveal(Seq::filter);
    if changes.len() > 0 {
        assert(changes[changes.len() - 1].tag == ChangeTag::Equal);
        lemma_all_kept(changes.drop_last(), other);
    }
}

/// Whether a range covers one of some words that stand one behind the other, and
/// nothing else.
pub open spec fn is_word_at(words: Seq<Seq<char>>, range: (usize, usize)) -> bool {
    exists|w: int|
        0 <= w < words.len() && range.0 == byte_len(concat(#[trigger] words.take(w))) && range.1
            == range.0 + byte_len(words[w])
}

/// Every mark covers one word.
pub proof fn law_marks_are_words(
    a: Seq<char>,
    b: Seq<char>,
    ea: Seq<(usize, usize)>,
    eb: Seq<(usize, usize)>,
)
    requires
        emphasises(a, b, ea, eb),
        byte_len(a) <= usize::MAX,
        byte_len(b) <= usize::MAX,
    ensures
        forall|i: int| 0 <= i < ea.len() ==> is_word_at(word_pieces(a), #[trigger] ea[i]),
        forall|i: int| 0 <= i < eb.len() ==> is_word_at(word_pieces(b), #[trigger] eb[i]),
{
    let changes = choose|changes: Seq<ChangeView>| marked_by(changes, a, b, ea, eb);
    lemma_words_marked(changes, ChangeTag::Delete, ChangeTag::Insert);
    lemma_words_marked(changes, ChangeTag::Insert, ChangeTag::Delete);
}

/// Every mark covers one piece.
proof fn lemma_words_marked(changes: Seq<ChangeView>, tag: ChangeTag, other: ChangeTag)
    requires
        tag != other,
        byte_len(text_without(changes, other)) <= usize::MAX,
    ensures
        forall|i: int|
            0 <= i < ranges_of(changes, tag, other).len() ==> is_word_at(
                pieces_without(changes, other),
                #[trigger] ranges_of(changes, tag, other)[i],
            ),
    decreases changes.len(),
{
    if changes.len() > 0 {
        let front = changes.drop_last();
        let last = changes.last();
        let fewer = pieces_without(front, other);
        let words = pieces_without(changes, other);
        let before = ranges_of(front, tag, other);
        let after = ranges_of(changes, tag, other);
        lemma_text_grows(changes, other, changes.len() - 1);
        assert(changes.take(changes.len() - 1) =~= front);
        lemma_words_marked(front, tag, other);
        lemma_pieces(front, other);
        lemma_encode_concat(text_without(front, other), last.text);
        if last.tag == other {
            assert(words =~= fewer) by {
                reveal(Seq::filter);
            }
        } else {
            assert(words =~= fewer.push(last.text)) by {
                reveal(Seq::filter);
            }
        }
        assert forall|i: int| 0 <= i < after.len() implies is_word_at(
            words,
            #[trigger] after[i],
        ) by {
            if i < before.len() {
                assert(after[i] == before[i]);
                let w = choose|w: int|
                    0 <= w < fewer.len() && before[i].0 == byte_len(
                        concat(#[trigger] fewer.take(w)),
                    ) && before[i].1 == before[i].0 + byte_len(fewer[w]);
                assert(words.take(w) =~= fewer.take(w));
            } else {
                assert(words.take(fewer.len() as int) =~= fewer);
                assert(words[fewer.len() as int] == last.text);
            }
        }
    }
}

/// Nothing is marked before the first piece that is not kept.
proof fn lemma_marks_behind(changes: Seq<ChangeView>, tag: ChangeTag, other: ChangeTag, n: int)
    requires
        tag != ChangeTag::Equal,
        0 <= n <= changes.len(),
        forall|i: int| 0 <= i < n ==> (#[trigger] changes[i]).tag == ChangeTag::Equal,
        byte_len(text_without(changes, other)) <= usize::MAX,
    ensures
        forall|i: int|
            0 <= i < ranges_of(changes, tag, other).len() ==> byte_len(
                text_without(changes.take(n), other),
            ) <= (#[trigger] ranges_of(changes, tag, other)[i]).0,
    decreases changes.len(),
{
    if n == changes.len() {
        lemma_nothing_marked(changes, tag, other);
    } else {
        let front = changes.drop_last();
        assert(front.take(n) =~= changes.take(n));
        assert forall|i: int| 0 <= i < n implies (#[trigger] front[i]).tag
            == ChangeTag::Equal by {
            assert(front[i] == changes[i]);
        }
        lemma_text_grows(changes, other, changes.len() - 1);
        assert(changes.take(changes.len() - 1) =~= front);
        lemma_marks_behind(front, tag, other, n);
        lemma_text_grows(front, other, n);
        let before = ranges_of(front, tag, other);
        let after = ranges_of(changes, tag, other);
        assert forall|i: int| 0 <= i < after.len() implies byte_len(
            text_without(changes.take(n), other),
        ) <= (#[trigger] after[i]).0 by {
            if i < before.len() {
                assert(after[i] == before[i]);
            } else {
                assert(after[i].0 == byte_len(text_without(front, other)));
            }
        }
    }
}

/// Where the words end that a line has in common with another at its front.
pub open spec fn front_end(line: Seq<char>, other: Seq<char>) -> nat {
    byte_len(
        concat(
            word_pieces(line).take(shared_front(word_pieces(line), word_pieces(other)) as int),
        ),
    )
}

/// The words that two lines have in common at their front are never marked.
pub proof fn law_common_front_is_unmarked(
    a: Seq<char>,
    b: Seq<char>,
    ea: Seq<(usize, usize)>,
    eb: Seq<(usize, usize)>,
)
    requires
        emphasises(a, b, ea, eb),
        byte_len(a) <= usize::MAX,
        byte_len(b) <= usize::MAX,
    ensures
        forall|i: int| 0 <= i < ea.len() ==> front_end(a, b) <= (#[trigger] ea[i]).0,
        forall|i: int| 0 <= i < eb.len() ==> front_end(b, a) <= (#[trigger] eb[i]).0,
{
    let changes = choose|changes: Seq<ChangeView>| marked_by(changes, a, b, ea, eb);
    let n = shared_front(word_pieces(a), word_pieces(b)) as int;
    lemma_shared_either_way(word_pieces(a), word_pieces(b));
    lemma_front_of(changes, ChangeTag::Insert, n);
    lemma_front_of(changes, ChangeTag::Delete, n);
    lemma_marks_behind(changes, ChangeTag::Delete, ChangeTag::Insert, n);
    lemma_marks_behind(changes, ChangeTag::Insert, ChangeTag::Delete, n);
}

/// Two texts have the same words in common, whichever comes first.
proof fn lemma_shared_either_way(a: Seq<Seq<char>>, b: Seq<Seq<char>>)
    ensures
        shared_front(a, b) == shared_front(b, a),
    decreases a.len(),
{
    if a.len() > 0 && b.len() > 0 && a[0] == b[0] {
        lemma_shared_either_way(a.drop_first(), b.drop_first());
    }
}

/// The first pieces, all kept, are the first words of either line.
proof fn lemma_front_of(changes: Seq<ChangeView>, other: ChangeTag, n: int)
    requires
        other != ChangeTag::Equal,
        0 <= n <= changes.len(),
        forall|i: int| 0 <= i < n ==> (#[trigger] changes[i]).tag == ChangeTag::Equal,
    ensures
        concat(pieces_without(changes, other).take(n)) == text_without(changes.take(n), other),
{
    let keep = |c: ChangeView| c.tag != other;
    let front = changes.take(n);
    assert forall|i: int| 0 <= i < front.len() implies (#[trigger] front[i]).tag
        == ChangeTag::Equal by {
        assert(front[i] == changes[i]);
    }
    lemma_pieces(front, other);
    lemma_all_kept(front, other);
    Seq::filter_distributes_over_add(front, changes.skip(n), keep);
    assert(front + changes.skip(n) =~= changes);
    assert(pieces_without(changes, other).take(n) =~= pieces_without(front, other));
}

/// Where the words begin that the old line has in common with the new one at the end
/// of what is left behind their common front.
pub open spec fn end_start(a: Seq<char>, b: Seq<char>) -> nat {
    byte_len(concat(word_pieces(a).take(word_pieces(a).len() - common_end(a, b))))
}

/// The words that two lines have in common at the end of what is left behind their
/// common front are never marked in the old line. In either line no more words are
/// marked than are left between the front and the end.
pub proof fn law_common_end_is_kept(
    a: Seq<char>,
    b: Seq<char>,
    ea: Seq<(usize, usize)>,
    eb: Seq<(usize, usize)>,
)
    requires
        emphasises(a, b, ea, eb),
        byte_len(a) <= usize::MAX,
    ensures
        forall|i: int| 0 <= i < ea.len() ==> (#[trigger] ea[i]).1 <= end_start(a, b),
        ea.len() + shared_front(word_pieces(a), word_pieces(b)) + common_end(a, b) <= word_pieces(
            a,
        ).len(),
        eb.len() + shared_front(word_pieces(a), word_pieces(b)) + common_end(a, b) <= word_pieces(
            b,
        ).len(),
{
    let changes = choose|changes: Seq<ChangeView>| marked_by(changes, a, b, ea, eb);
    lemma_marks_before(changes, common_end(a, b));
    lemma_counts(changes, ChangeTag::Delete, ChangeTag::Insert);
    lemma_counts(changes, ChangeTag::Insert, ChangeTag::Delete);
}

/// Of the words of a line, each is kept or marked.
proof fn lemma_counts(changes: Seq<ChangeView>, tag: ChangeTag, other: ChangeTag)
    requires
        tag == ChangeTag::Delete && other == ChangeTag::Insert || tag == ChangeTag::Insert && other
            == ChangeTag::Delete,
    ensures
        pieces_without(changes, other).len() == kept_changes(changes).len() + ranges_of(
            changes,
            tag,
            other,
        ).len(),
    decreases changes.len(),
{
    reveal(Seq::filter);
    if changes.len() > 0 {
        lemma_counts(changes.drop_last(), tag, other);
    }
}

/// Nothing is deleted behind the last piece of the old line that is not kept.
proof fn lemma_marks_before(changes: Seq<ChangeView>, m: nat)
    requires
        m <= changes_without(changes, ChangeTag::Insert).len(),
        forall|i: int|
            changes_without(changes, ChangeTag::Insert).len() - m <= i < changes_without(
                changes,
                ChangeTag::Insert,
            ).len() ==> (#[trigger] changes_without(changes, ChangeTag::Insert)[i]).tag
                == ChangeTag::Equal,
        byte_len(old_text(changes)) <= usize::MAX,
    ensures
        ({
            let words = pieces_without(changes, ChangeTag::Insert);
            forall|i: int|
                0 <= i < deleted_ranges(changes).len() ==> (#[trigger] deleted_ranges(changes)[i]).1
                    <= byte_len(concat(words.take(words.len() - m)))
        }),
    decreases changes.len(),
{
    reveal(Seq::filter);
    if changes.len() > 0 {
        let front = changes.drop_last();
        let last = changes.last();
        let old = changes_without(changes, ChangeTag::Insert);
        let words = pieces_without(changes, ChangeTag::Insert);
        let fewer = pieces_without(front, ChangeTag::Insert);
        let before = deleted_ranges(front);
        let after = deleted_ranges(changes);
        lemma_text_grows(changes, ChangeTag::Insert, changes.len() - 1);
        assert(changes.take(changes.len() - 1) =~= front);
        if last.tag == ChangeTag::Insert {
            assert(old == changes_without(front, ChangeTag::Insert));
            lemma_marks_before(front, m);
        } else {
            let old_front = changes_without(front, ChangeTag::Insert);
            assert(old == old_front.push(last));
            if m > 0 {
                assert(old[old.len() - 1].tag == ChangeTag::Equal);
                assert forall|i: int| old_front.len() - (m - 1) <= i < old_front.len() implies (
                #[trigger] old_front[i]).tag == ChangeTag::Equal by {
                    assert(old[i] == old_front[i]);
                }
                lemma_marks_before(front, (m - 1) as nat);
                assert(words.take(words.len() - m) =~= fewer.take(fewer.len() - (m - 1)));
                assert(after == before);
            } else {
                lemma_marks_before(front, 0);
                lemma_pieces(front, ChangeTag::Insert);
                lemma_pieces(changes, ChangeTag::Insert);
                assert(fewer.take(fewer.len() as int) =~= fewer);
                assert(words.take(words.len() as int) =~= words);
                lemma_encode_concat(old_text(front), last.text);
                assert forall|i: int| 0 <= i < after.len() implies (#[trigger] after[i]).1
                    <= byte_len(old_text(changes)) by {
                    if i < before.len() {
                        assert(after[i] == before[i]);
                    }
                }
            }
        }
    }
}

} // verus!
