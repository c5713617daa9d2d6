//! Text in grapheme clusters, and the clusters in lines of a given width.

use vstd::prelude::*;
use vstd::string::*;

use crate::bytes::{
    boundary, byte_len, lemma_boundary, lemma_byte_len_positive, lemma_encode_concat, len_of,
};

verus! {

// ---------------------------------------------------------------------------
// Pieces of text
// ---------------------------------------------------------------------------

/// What unicode-segmentation takes for the grapheme clusters of a text:
/// extended ones, or legacy ones.
pub uninterp spec fn grapheme_clusters(text: Seq<char>, extended: bool) -> Seq<Seq<char>>;

/// How many terminal columns unicode-width gives a text.
pub uninterp spec fn display_width(text: Seq<char>) -> nat;

/// Parts of a text, put together.
pub open spec fn concat(parts: Seq<Seq<char>>) -> Seq<char>
    decreases parts.len(),
{
    if parts.len() == 0 {
        seq![]
    } else {
        concat(parts.drop_last()) + parts.last()
    }
}

/// The clusters that stand at some offsets.
pub open spec fn cluster_texts(found: Seq<(usize, &str)>) -> Seq<Seq<char>> {
    found.map_values(|f: (usize, &str)| f.1@)
}

/// `UnicodeSegmentation::grapheme_indices`: the grapheme clusters of a text
/// with their byte offsets. They are what has been named above; put together
/// they are the text, none is empty, and each stands at the offset where the
/// ones before it end. Which characters form a cluster is left to the name.
#[verifier::external_body]
fn grapheme_indices(text: &str, extended: bool) -> (found: Vec<(usize, &str)>)
    ensures
        cluster_texts(found@) == grapheme_clusters(text@, extended),
        concat(cluster_texts(found@)) == text@,
        forall|i: int| 0 <= i < found@.len() ==> (#[trigger] found@[i]).1@.len() > 0,
        forall|i: int|
            0 <= i < found@.len() ==> (#[trigger] found@[i]).0 == byte_len(
                concat(cluster_texts(found@).take(i)),
            ),
{
    unicode_segmentation::UnicodeSegmentation::grapheme_indices(text, extended).collect()
}

/// `UnicodeWidthStr::width`: the width that has been named above.
#[verifier::external_body]
pub(crate) fn width_of(text: &str) -> (n: usize)
    ensures
        n as nat == display_width(text@),
{
    unicode_width::UnicodeWidthStr::width(text)
}

/// How many columns a grapheme cluster takes: a tab takes four.
pub open spec fn columns(cluster: Seq<char>) -> nat {
    if cluster == "\t"@ {
        4
    } else {
        display_width(cluster)
    }
}

/// A grapheme cluster of a text: where its bytes begin and end, and how many
/// columns it takes.
#[derive(Clone, Debug, PartialEq, Eq)]
pub struct Piece {
    pub start: usize,
    pub end: usize,
    pub text: String,
    pub cols: usize,
}

/// A piece, by its contents.
pub struct PieceView {
    pub start: nat,
    pub end: nat,
    pub text: Seq<char>,
    pub cols: nat,
}

impl View for Piece {
    type V = PieceView;

    open spec fn view(&self) -> PieceView {
        PieceView {
            start: self.start as nat,
            end: self.end as nat,
            text: self.text@,
            cols: self.cols as nat,
        }
    }
}

/// The pieces, by their contents.
pub open spec fn piece_views(pieces: Seq<Piece>) -> Seq<PieceView> {
    pieces.map_values(|p: Piece| p@)
}

/// The texts of the pieces.
pub open spec fn piece_texts(pieces: Seq<PieceView>) -> Seq<Seq<char>> {
    pieces.map_values(|p: PieceView| p.text)
}

/// The `i`-th of the clusters as a piece.
pub open spec fn nth_piece(clusters: Seq<Seq<char>>, i: int) -> PieceView {
    let start = byte_len(concat(clusters.take(i)));
    PieceView {
        start,
        end: start + byte_len(clusters[i]),
        text: clusters[i],
        cols: columns(clusters[i]),
    }
}

/// The pieces of a text: its extended grapheme clusters.
pub open spec fn pieces_of(text: Seq<char>) -> Seq<PieceView> {
    let clusters = grapheme_clusters(text, true);
    Seq::new(clusters.len(), |i: int| nth_piece(clusters, i))
}

/// Whether the pieces are the whole text, one behind the other, none empty.
pub open spec fn tile(text: Seq<char>, pieces: Seq<PieceView>) -> bool {
    &&& concat(piece_texts(pieces)) == text
    &&& forall|i: int|
        0 <= i < pieces.len() ==> {
            let p = #[trigger] pieces[i];
            &&& p.text.len() > 0
            &&& p.start == byte_len(concat(piece_texts(pieces).take(i)))
            &&& p.end == p.start + byte_len(p.text)
        }
}

/// A front part of the parts makes a front part of the text.
pub proof fn lemma_concat_split(parts: Seq<Seq<char>>, k: int)
    requires
        0 <= k <= parts.len(),
    ensures
        concat(parts) == concat(parts.take(k)) + concat(parts.skip(k)),
    decreases parts.len() - k,
{
    if k == parts.len() {
        assert(parts.take(k) =~= parts);
        assert(parts.skip(k) =~= Seq::<Seq<char>>::empty());
        assert(concat(parts) + concat(parts.skip(k)) =~= concat(parts));
    } else {
        let front = parts.drop_last();
        lemma_concat_split(front, k);
        assert(front.take(k) =~= parts.take(k));
        assert(parts.skip(k).drop_last() =~= front.skip(k));
        assert(parts.skip(k).last() == parts.last());
        assert(concat(parts) =~= concat(parts.take(k)) + concat(parts.skip(k)));
    }
}

/// The pieces of a text.
pub fn pieces(text: &str) -> (r: Vec<Piece>)
    ensures
        piece_views(r@) == pieces_of(text@),
        tile(text@, pieces_of(text@)),
{
    let found = grapheme_indices(text, true);
    let tab = "\t".to_owned();
    let total: usize = len_of(text);
    let ghost clusters = cluster_texts(found@);
    let ghost all = pieces_of(text@);
    let mut r: Vec<Piece> = Vec::new();
    let mut i: usize = 0;
    assert(piece_views(r@) =~= all.take(0));
    while i < found.len()
        invariant
            tab@ == "\t"@,
            total == byte_len(text@),
            clusters == cluster_texts(found@),
            clusters == grapheme_clusters(text@, true),
            concat(clusters) == text@,
            all == pieces_of(text@),
            forall|j: int|
                0 <= j < found@.len() ==> (#[trigger] found@[j]).0 == byte_len(
                    concat(clusters.take(j)),
                ),
            i <= found@.len(),
            piece_views(r@) == all.take(i as int),
        decreases found@.len() - i,
    {
        let (start, cluster) = found[i];
        let len: usize = len_of(cluster);
        proof {
            lemma_concat_split(clusters, i + 1);
            lemma_encode_concat(concat(clusters.take(i + 1)), concat(clusters.skip(i + 1)));
            assert(clusters.take(i + 1).drop_last() =~= clusters.take(i as int));
            lemma_encode_concat(concat(clusters.take(i as int)), clusters[i as int]);
        }
        let text = cluster.to_owned();
        let cols: usize = if text == tab {
            4
        } else {
            width_of(cluster)
        };
        let piece = Piece { start, end: start + len, text, cols };
        let ghost before = r@;
        r.push(piece);
        proof {
            assert(piece@ == nth_piece(clusters, i as int));
            assert(piece_views(r@) =~= piece_views(before).push(piece@));
            assert(piece_views(r@) =~= all.take(i + 1));
        }
        i += 1;
    }
    proof {
        assert(all.take(i as int) =~= all);
        assert(piece_texts(all) =~= clusters);
        assert forall|j: int| 0 <= j < all.len() implies {
            let p = #[trigger] all[j];
            &&& p.text.len() > 0
            &&& p.start == byte_len(concat(piece_texts(all).take(j)))
            &&& p.end == p.start + byte_len(p.text)
        } by {
            assert(found@[j].1@ == clusters[j]);
        }
    }
    r
}

// ---------------------------------------------------------------------------
// Wrapping
// ---------------------------------------------------------------------------

/// How many columns the pieces take.
pub open spec fn total_cols(pieces: Seq<PieceView>) -> nat
    decreases pieces.len(),
{
    if pieces.len() == 0 {
        0
    } else {
        total_cols(pieces.drop_last()) + pieces.last().cols
    }
}

/// Whether a piece is indentation: a space or a tab.
pub open spec fn is_indent(p: PieceView) -> bool {
    p.text == " "@ || p.text == "\t"@
}

/// How many columns a line is indented by.
pub open spec fn indent_cols(pieces: Seq<PieceView>) -> nat
    decreases pieces.len(),
{
    if pieces.len() > 0 && is_indent(pieces[0]) {
        pieces[0].cols + indent_cols(pieces.drop_first())
    } else {
        0
    }
}

/// Where continuation lines begin: at the line's own indent, or at the left
/// where the indent and the widest character, a tab, would not fit.
pub open spec fn hang(pieces: Seq<PieceView>, budget: nat) -> nat {
    if indent_cols(pieces) + 4 <= budget {
        indent_cols(pieces)
    } else {
        0
    }
}

/// The column at which the `k`-th line begins.
pub open spec fn line_start(k: int, indent: nat) -> nat {
    if k == 0 {
        0
    } else {
        indent
    }
}

/// How far the last line reaches.
pub open spec fn used_cols(lines: Seq<Seq<PieceView>>, indent: nat) -> nat {
    line_start(lines.len() - 1, indent) + total_cols(lines.last())
}

/// The pieces in lines. A piece that would reach past `budget` columns behind the
/// ones before it begins a line; one wider than a whole line is dropped.
pub open spec fn wrapped(pieces: Seq<PieceView>, budget: nat, indent: nat) -> Seq<Seq<PieceView>>
    decreases pieces.len(),
{
    if pieces.len() == 0 {
        seq![seq![]]
    } else {
        let lines = wrapped(pieces.drop_last(), budget, indent);
        let used = used_cols(lines, indent);
        let p = pieces.last();
        if p.cols > budget {
            lines
        } else if used + p.cols > budget && used > 0 {
            lines.push(seq![p])
        } else {
            lines.update(lines.len() - 1, lines.last().push(p))
        }
    }
}

/// There is always a line.
pub proof fn lemma_wrapped_nonempty(pieces: Seq<PieceView>, budget: nat, indent: nat)
    ensures
        wrapped(pieces, budget, indent).len() > 0,
    decreases pieces.len(),
{
    if pieces.len() > 0 {
        lemma_wrapped_nonempty(pieces.drop_last(), budget, indent);
    }
}

/// The indentation behind some pieces of indentation.
proof fn lemma_indent_from(pieces: Seq<PieceView>, k: int)
    requires
        0 <= k <= pieces.len(),
        forall|i: int| 0 <= i < k ==> is_indent(#[trigger] pieces[i]),
    ensures
        indent_cols(pieces) == total_cols(pieces.take(k)) + indent_cols(pieces.skip(k)),
    decreases k,
{
    if k == 0 {
        assert(pieces.skip(0) =~= pieces);
    } else {
        lemma_indent_from(pieces, k - 1);
        let rest = pieces.skip(k - 1);
        assert(rest[0] == pieces[k - 1]);
        assert(rest.drop_first() =~= pieces.skip(k));
        assert(pieces.take(k).drop_last() =~= pieces.take(k - 1));
    }
}

/// Where continuation lines begin.
pub fn hang_of(pieces: &Vec<Piece>, budget: usize) -> (indent: usize)
    ensures
        indent == hang(piece_views(pieces@), budget as nat),
{
    let space = " ".to_owned();
    let tab = "\t".to_owned();
    let ghost all = piece_views(pieces@);
    let mut sum: usize = 0;
    let mut i: usize = 0;
    assert(all.take(0) =~= Seq::<PieceView>::empty());
    while i < pieces.len() && (pieces[i].text == space || pieces[i].text == tab)
        invariant
            space@ == " "@,
            tab@ == "\t"@,
            all == piece_views(pieces@),
            i <= pieces@.len(),
            sum <= budget,
            sum == total_cols(all.take(i as int)),
            forall|j: int| 0 <= j < i ==> is_indent(#[trigger] all[j]),
        decreases pieces@.len() - i,
    {
        assert(is_indent(all[i as int]));
        assert(all.take(i + 1).drop_last() =~= all.take(i as int));
        if pieces[i].cols > budget - sum {
            proof {
                lemma_indent_from(all, i + 1);
            }
            return 0;
        }
        sum += pieces[i].cols;
        i += 1;
    }
    proof {
        lemma_indent_from(all, i as int);
        if i < all.len() {
            assert(all.skip(i as int)[0] == all[i as int]);
            assert(!is_indent(all[i as int]));
        }
    }
    if budget - sum >= 4 {
        sum
    } else {
        0
    }
}

// ---------------------------------------------------------------------------
// Laws of wrapping
// ---------------------------------------------------------------------------

/// What stands on some lines, in reading order.
pub open spec fn placed(lines: Seq<Seq<PieceView>>) -> Seq<PieceView>
    decreases lines.len(),
{
    if lines.len() == 0 {
        seq![]
    } else {
        placed(lines.drop_last()) + lines.last()
    }
}

/// Wrapping puts every piece that is not wider than the whole pane on one line,
/// once, and keeps their order.
pub proof fn law_wrapping_keeps_text(pieces: Seq<PieceView>, budget: nat, indent: nat)
    ensures
        placed(wrapped(pieces, budget, indent)) == pieces.filter(
            |p: PieceView| p.cols <= budget,
        ),
    decreases pieces.len(),
{
    reveal(Seq::filter);
    let lines = wrapped(pieces, budget, indent);
    if pieces.len() == 0 {
        assert(lines.drop_last() =~= Seq::<Seq<PieceView>>::empty());
        reveal_with_fuel(placed, 2);
        assert(placed(lines) =~= Seq::<PieceView>::empty());
    } else {
        let front = pieces.drop_last();
        let before = wrapped(front, budget, indent);
        let p = pieces.last();
        law_wrapping_keeps_text(front, budget, indent);
        lemma_wrapped_nonempty(front, budget, indent);
        if p.cols <= budget {
            if lines.len() > before.len() {
                assert(lines.drop_last() =~= before);
            } else {
                assert(lines.drop_last() =~= before.drop_last());
            }
            assert(placed(lines) =~= placed(before).push(p));
        }
    }
}

/// No line reaches past the end of the pane, unless it is a continuation that
/// holds a single cluster wider than a tab, for which the indent leaves too
/// little room. Every continuation holds something.
pub proof fn law_lines_fit(pieces: Seq<PieceView>, budget: nat)
    ensures
        ({
            let indent = hang(pieces, budget);
            let lines = wrapped(pieces, budget, indent);
            forall|k: int|
                0 <= k < lines.len() ==> {
                    let line = #[trigger] lines[k];
                    &&& line_start(k, indent) + total_cols(line) <= budget || (k > 0 && line.len()
                        == 1 && line[0].cols > 4)
                    &&& k > 0 ==> line.len() > 0
                }
        }),
{
    lemma_lines_fit(pieces, budget, hang(pieces, budget));
}

proof fn lemma_lines_fit(pieces: Seq<PieceView>, budget: nat, indent: nat)
    requires
        indent == 0 || indent + 4 <= budget,
    ensures
        ({
            let lines = wrapped(pieces, budget, indent);
            forall|k: int|
                0 <= k < lines.len() ==> {
                    let line = #[trigger] lines[k];
                    &&& line_start(k, indent) + total_cols(line) <= budget || (k > 0 && line.len()
                        == 1 && line[0].cols > 4)
                    &&& k > 0 ==> line.len() > 0
                }
        }),
    decreases pieces.len(),
{
    if pieces.len() > 0 {
        let front = pieces.drop_last();
        let before = wrapped(front, budget, indent);
        let lines = wrapped(pieces, budget, indent);
        let p = pieces.last();
        lemma_lines_fit(front, budget, indent);
        lemma_wrapped_nonempty(front, budget, indent);
        assert forall|k: int| 0 <= k < lines.len() implies {
            let line = #[trigger] lines[k];
            &&& line_start(k, indent) + total_cols(line) <= budget || (k > 0 && line.len() == 1
                && line[0].cols > 4)
            &&& k > 0 ==> line.len() > 0
        } by {
            if k < before.len() - 1 || p.cols > budget {
                assert(lines[k] == before[k]);
            } else if lines.len() > before.len() {
                if k == before.len() {
                    assert(lines[k] =~= seq![p]);
                    assert(lines[k].drop_last() =~= Seq::<PieceView>::empty());
                    assert(total_cols(lines[k]) == p.cols) by {
                        reveal_with_fuel(total_cols, 2);
                    }
                } else {
                    assert(lines[k] == before[k]);
                }
            } else {
                assert(lines[k] == before[k].push(p));
                assert(lines[k].drop_last() =~= before[k]);
            }
        }
    }
}

/// A break is forced: what begins a line would not have fitted on the line before.
pub proof fn law_breaks_are_forced(pieces: Seq<PieceView>, budget: nat, indent: nat)
    ensures
        ({
            let lines = wrapped(pieces, budget, indent);
            forall|k: int|
                0 < k < lines.len() ==> {
                    &&& (#[trigger] lines[k]).len() > 0
                    &&& line_start(k - 1, indent) + total_cols(lines[k - 1]) + lines[k][0].cols
                        > budget
                }
        }),
    decreases pieces.len(),
{
    if pieces.len() > 0 {
        let front = pieces.drop_last();
        let before = wrapped(front, budget, indent);
        let lines = wrapped(pieces, budget, indent);
        let p = pieces.last();
        law_breaks_are_forced(front, budget, indent);
        lemma_wrapped_nonempty(front, budget, indent);
        assert forall|k: int| 0 < k < lines.len() implies {
            &&& (#[trigger] lines[k]).len() > 0
            &&& line_start(k - 1, indent) + total_cols(lines[k - 1]) + lines[k][0].cols > budget
        } by {
            if k < before.len() {
                assert(before[k].len() > 0);
                assert(lines[k][0] == before[k][0]);
                assert(lines[k - 1] == before[k - 1]);
            }
        }
    }
}

/// Whether a piece is a part of the text.
pub open spec fn part_of(text: Seq<char>, p: PieceView) -> bool {
    p.start < p.end && boundary(text, p.start as int) && boundary(text, p.end as int)
}

/// Whether a line holds parts of the text in order.
pub open spec fn ordered(text: Seq<char>, line: Seq<PieceView>) -> bool {
    &&& forall|i: int| 0 <= i < line.len() ==> part_of(text, #[trigger] line[i])
    &&& forall|i: int, j: int|
        0 <= i < j < line.len() ==> (#[trigger] line[i]).end <= (#[trigger] line[j]).start
}

/// A piece is a part of the text, and ends where the pieces up to it do.
pub proof fn lemma_piece_part(text: Seq<char>, pieces: Seq<PieceView>, i: int)
    requires
        tile(text, pieces),
        0 <= i < pieces.len(),
    ensures
        part_of(text, pieces[i]),
        pieces[i].end == byte_len(concat(piece_texts(pieces).take(i + 1))),
{
    let texts = piece_texts(pieces);
    lemma_concat_split(texts, i);
    lemma_concat_split(texts, i + 1);
    lemma_boundary(concat(texts.take(i)), concat(texts.skip(i)));
    lemma_boundary(concat(texts.take(i + 1)), concat(texts.skip(i + 1)));
    assert(texts.take(i + 1).drop_last() =~= texts.take(i));
    lemma_encode_concat(concat(texts.take(i)), texts[i]);
    lemma_byte_len_positive(texts[i]);
}

/// Wrapping puts parts of the text on lines in order.
pub proof fn lemma_lines_ordered(
    text: Seq<char>,
    pieces: Seq<PieceView>,
    n: int,
    budget: nat,
    indent: nat,
)
    requires
        tile(text, pieces),
        0 <= n <= pieces.len(),
    ensures
        ({
            let lines = wrapped(pieces.take(n), budget, indent);
            forall|k: int|
                0 <= k < lines.len() ==> {
                    let line = #[trigger] lines[k];
                    &&& ordered(text, line)
                    &&& forall|i: int|
                        0 <= i < line.len() ==> (#[trigger] line[i]).end <= byte_len(
                            concat(piece_texts(pieces).take(n)),
                        )
                }
        }),
    decreases n,
{
    let lines = wrapped(pieces.take(n), budget, indent);
    if n > 0 {
        let p = pieces[n - 1];
        let before = wrapped(pieces.take(n - 1), budget, indent);
        assert(pieces.take(n).drop_last() =~= pieces.take(n - 1));
        assert(pieces.take(n).last() == p);
        lemma_lines_ordered(text, pieces, n - 1, budget, indent);
        lemma_wrapped_nonempty(pieces.take(n - 1), budget, indent);
        lemma_piece_part(text, pieces, n - 1);
        assert(p.start == byte_len(concat(piece_texts(pieces).take(n - 1))));
        assert forall|k: int| 0 <= k < lines.len() implies {
            let line = #[trigger] lines[k];
            &&& ordered(text, line)
            &&& forall|i: int|
                0 <= i < line.len() ==> (#[trigger] line[i]).end <= byte_len(
                    concat(piece_texts(pieces).take(n)),
                )
        } by {
            if p.cols > budget || k < before.len() - 1 {
                assert(lines[k] == before[k]);
            } else if lines.len() > before.len() {
                if k < before.len() {
                    assert(lines[k] == before[k]);
                } else {
                    assert(lines[k] =~= seq![p]);
                }
            } else {
                let line = before[k];
                assert(lines[k] == line.push(p));
            }
        }
    }
}

} // verus!
