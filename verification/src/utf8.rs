//! UTF-8: validity, and decoding that replaces what is not valid.

use vstd::prelude::*;
use vstd::utf8::*;

verus! {

/// What `String::from_utf8_lossy` makes of bytes that are not valid UTF-8.
pub uninterp spec fn utf8_repaired(bytes: Seq<u8>) -> Seq<char>;

/// The text of some bytes: decoded where they are valid UTF-8, repaired where not.
pub open spec fn lossy(bytes: Seq<u8>) -> Seq<char> {
    if valid_utf8(bytes) {
        decode_utf8(bytes)
    } else {
        utf8_repaired(bytes)
    }
}

/// `String::from_utf8_lossy` decodes valid UTF-8; for other bytes it replaces what is
/// not valid, always in the same way for the same bytes.
#[verifier::external_body]
pub(crate) fn lossy_text(bytes: &[u8]) -> (r: String)
    ensures
        r@ == (if valid_utf8(bytes@) {
            decode_utf8(bytes@)
        } else {
            utf8_repaired(bytes@)
        }),
{
    String::from_utf8_lossy(bytes).into_owned()
}

/// `std::str::from_utf8` succeeds exactly on valid UTF-8.
#[verifier::external_body]
pub(crate) fn is_utf8(bytes: &[u8]) -> (r: bool)
    ensures
        r == valid_utf8(bytes@),
{
    std::str::from_utf8(bytes).is_ok()
}

/// The bytes of two texts in a row are the bytes of the one and then of the other.
pub proof fn lemma_encode_concat(a: Seq<char>, b: Seq<char>)
    ensures
        encode_utf8(a + b) == encode_utf8(a) + encode_utf8(b),
    decreases a.len(),
{
    if a.len() == 0 {
        assert(a + b == b);
        assert(encode_utf8(a) + encode_utf8(b) == encode_utf8(b));
    } else {
        lemma_encode_concat(a.drop_first(), b);
        assert((a + b).drop_first() == a.drop_first() + b);
        assert((a + b)[0] == a[0]);
        let first = encode_scalar(a[0] as u32);
        assert(first + (encode_utf8(a.drop_first()) + encode_utf8(b)) == first + encode_utf8(
            a.drop_first(),
        ) + encode_utf8(b));
    }
}

/// The characters of `line` whose bytes lie from `start` up to `end`.
pub open spec fn slice_of(line: Seq<char>, start: int, end: int) -> Seq<char> {
    decode_utf8(encode_utf8(line).subrange(start, end))
}

/// A boundary between characters stays one once the text before an earlier boundary is
/// cut away.
pub proof fn lemma_boundary_in_tail(bytes: Seq<u8>, start: int, end: int)
    requires
        valid_utf8(bytes),
        is_char_boundary(bytes, start),
        is_char_boundary(bytes, end),
        start <= end,
    ensures
        0 <= start <= end <= bytes.len(),
        valid_utf8(bytes.subrange(start, bytes.len() as int)),
        is_char_boundary(bytes.subrange(start, bytes.len() as int), end - start),
{
    let tail = bytes.subrange(start, bytes.len() as int);
    assert(0 <= start <= end <= bytes.len());
    valid_utf8_split(bytes, start);
    if end == bytes.len() {
        is_char_boundary_start_end_of_seq(tail);
    } else {
        is_char_boundary_iff_not_is_continuation_byte(bytes, end);
        is_char_boundary_iff_not_is_continuation_byte(tail, end - start);
        assert(tail[end - start] == bytes[end]);
    }
}

/// What a string is, told by its bytes.
pub proof fn lemma_text_of_bytes(s: Seq<char>, bytes: Seq<u8>)
    requires
        encode_utf8(s) == bytes,
    ensures
        s == decode_utf8(bytes),
{
    encode_utf8_decode_utf8(s);
}

/// The bytes of a stretch of characters.
pub proof fn lemma_slice(line: Seq<char>, i: int, j: int)
    requires
        0 <= i <= j <= line.len(),
    ensures
        slice_of(
            line,
            encode_utf8(line.take(i)).len() as int,
            encode_utf8(line.take(j)).len() as int,
        ) == line.subrange(i, j),
        encode_utf8(line.take(i)).len() <= encode_utf8(line.take(j)).len() <= encode_utf8(
            line,
        ).len(),
{
    let a = line.take(i);
    let b = line.subrange(i, j);
    let c = line.skip(j);
    assert(line.take(j) == a + b);
    assert(line == a + b + c);
    lemma_encode_concat(a, b);
    lemma_encode_concat(a + b, c);
    assert(encode_utf8(line).subrange(
        encode_utf8(a).len() as int,
        encode_utf8(a + b).len() as int,
    ) == encode_utf8(b));
    encode_utf8_decode_utf8(b);
}

} // verus!
