//! Byte offsets into text: how long a text is in UTF-8, where its characters
//! begin, and the piece of it between two offsets.

use vstd::prelude::*;
use vstd::utf8::*;

verus! {

/// How many bytes a text takes in UTF-8.
pub open spec fn byte_len(s: Seq<char>) -> nat {
    encode_utf8(s).len()
}

/// Whether an offset is the start of a character of `s`, or its end.
pub open spec fn boundary(s: Seq<char>, at: int) -> bool {
    0 <= at <= byte_len(s) && is_char_boundary(encode_utf8(s), at)
}

/// The piece of `s` between two byte offsets.
pub open spec fn byte_slice(s: Seq<char>, from: int, to: int) -> Seq<char> {
    decode_utf8(encode_utf8(s).subrange(from, to))
}

/// UTF-8 encodes a concatenation piece by piece.
pub proof fn lemma_encode_concat(a: Seq<char>, b: Seq<char>)
    ensures
        encode_utf8(a + b) == encode_utf8(a) + encode_utf8(b),
        byte_len(a + b) == byte_len(a) + byte_len(b),
    decreases a.len(),
{
    if a.len() == 0 {
        assert(a + b =~= b);
        assert(encode_utf8(a) + encode_utf8(b) =~= encode_utf8(b));
    } else {
        assert((a + b).drop_first() =~= a.drop_first() + b);
        lemma_encode_concat(a.drop_first(), b);
        assert(encode_utf8(a + b) =~= encode_utf8(a) + encode_utf8(b));
    }
}

/// A character takes at least one byte.
pub proof fn lemma_byte_len_positive(s: Seq<char>)
    ensures
        s.len() > 0 ==> byte_len(s) > 0,
        s.len() == 0 ==> byte_len(s) == 0,
{
    if s.len() > 0 {
        assert(encode_utf8(s) == encode_scalar(s[0] as u32) + encode_utf8(s.drop_first()));
    }
}

/// Where one piece of a text ends and the next begins is a boundary.
pub proof fn lemma_boundary(a: Seq<char>, b: Seq<char>)
    ensures
        boundary(a + b, byte_len(a) as int),
    decreases a.len(),
{
    encode_utf8_valid_utf8(a + b);
    lemma_encode_concat(a, b);
    if a.len() > 0 {
        let s = a + b;
        let bytes = encode_utf8(s);
        encode_utf8_first_scalar(s);
        assert(s.drop_first() =~= a.drop_first() + b);
        assert(s[0] == a[0]);
        assert(pop_first_scalar(bytes) =~= encode_utf8(s.drop_first()));
        lemma_boundary(a.drop_first(), b);
        assert(byte_len(a) - length_of_first_scalar(bytes) == byte_len(a.drop_first()));
    }
}

/// The piece of a text between two of its parts' ends is the part between.
pub proof fn lemma_slice(a: Seq<char>, b: Seq<char>, c: Seq<char>)
    ensures
        byte_slice(a + b + c, byte_len(a) as int, (byte_len(a) + byte_len(b)) as int) == b,
{
    lemma_encode_concat(a + b, c);
    lemma_encode_concat(a, b);
    assert(encode_utf8(a + b + c).subrange(
        byte_len(a) as int,
        (byte_len(a) + byte_len(b)) as int,
    ) =~= encode_utf8(b));
    encode_utf8_decode_utf8(b);
}

/// Between two different boundaries lies something.
pub proof fn lemma_slice_nonempty(s: Seq<char>, from: int, to: int)
    requires
        from < to,
        boundary(s, from),
        boundary(s, to),
    ensures
        byte_slice(s, from, to).len() > 0,
{
    let bytes = encode_utf8(s);
    encode_utf8_valid_utf8(s);
    let front = bytes.subrange(0, to);
    lemma_boundary_in_front(bytes, from, to);
    valid_utf8_split(front, from);
    let piece = front.subrange(from, to);
    assert(piece =~= bytes.subrange(from, to));
    decode_utf8_encode_utf8(piece);
    if decode_utf8(piece).len() == 0 {
        assert(encode_utf8(decode_utf8(piece)).len() == 0);
    }
}

/// The length of a text in bytes.
pub fn len_of(s: &str) -> (n: usize)
    ensures
        n == byte_len(s@),
{
    s.as_bytes().len()
}

/// The piece of a text between two byte offsets.
pub fn slice_of(s: &str, from: usize, to: usize) -> (piece: &str)
    requires
        from <= to,
        boundary(s@, from as int),
        boundary(s@, to as int),
    ensures
        piece@ == byte_slice(s@, from as int, to as int),
{
    let ghost bytes = encode_utf8(s@);
    let head = s.split_at(to).0;
    proof {
        encode_utf8_valid_utf8(s@);
        encode_utf8_valid_utf8(head@);
        encode_utf8_decode_utf8(s@);
        lemma_boundary_in_front(bytes, from as int, to as int);
        assert(encode_utf8(head@) == bytes.subrange(0, to as int));
    }
    let piece = head.split_at(from).1;
    proof {
        encode_utf8_decode_utf8(piece@);
        assert(encode_utf8(piece@) =~= bytes.subrange(from as int, to as int));
    }
    piece
}

/// A boundary stays one when the bytes are cut at a later boundary.
proof fn lemma_boundary_in_front(bytes: Seq<u8>, from: int, to: int)
    requires
        valid_utf8(bytes),
        0 <= from <= to <= bytes.len(),
        is_char_boundary(bytes, from),
        is_char_boundary(bytes, to),
    ensures
        valid_utf8(bytes.subrange(0, to)),
        is_char_boundary(bytes.subrange(0, to), from),
{
    let front = bytes.subrange(0, to);
    valid_utf8_split(bytes, to);
    if from < to {
        is_char_boundary_iff_not_is_continuation_byte(bytes, from);
        is_char_boundary_iff_not_is_continuation_byte(front, from);
        assert(front[from] == bytes[from]);
    } else {
        is_char_boundary_start_end_of_seq(front);
    }
}

} // verus!
