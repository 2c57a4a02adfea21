//! Byte slices as UTF-8 text.

use vstd::prelude::*;
use vstd::string::StringSliceAdditionalSpecFns;
use vstd::utf8::{
    decode_utf8, decode_utf8_encode_utf8, encode_scalar, encode_utf8, is_char_boundary,
    is_char_boundary_iff_not_is_continuation_byte, is_char_boundary_start_end_of_seq,
    is_continuation_byte, length_of_first_scalar, pop_first_scalar, valid_utf8,
    valid_utf8_split,
};

verus! {

/// `core::str::from_utf8`: the bytes as text, where they are valid UTF-8,
/// and nothing where they are not.
#[verifier::external_body]
pub(crate) fn str_from_utf8<'a>(bytes: &'a [u8]) -> (r: Option<&'a str>)
    ensures
        r is Some <==> valid_utf8(bytes@),
        r matches Some(s) ==> s.spec_bytes() == bytes@,
{
    core::str::from_utf8(bytes).ok()
}

/// `String::from_utf8`: the bytes as a string, where they are valid UTF-8,
/// and nothing where they are not.
#[verifier::external_body]
pub(crate) fn string_from_utf8(bytes: Vec<u8>) -> (r: Option<String>)
    ensures
        r is Some <==> valid_utf8(bytes@),
        r matches Some(s) ==> s@ == decode_utf8(bytes@),
{
    String::from_utf8(bytes).ok()
}

/// `char::encode_utf8`: the bytes that encode a character in UTF-8.
#[verifier::external_body]
pub(crate) fn char_encode_utf8(c: char) -> (r: Vec<u8>)
    ensures
        r@ == encode_scalar(c as u32),
{
    let mut buf = [0u8; 4];
    c.encode_utf8(&mut buf).as_bytes().to_vec()
}

/// In valid UTF-8 a character begins at every ASCII byte, and the next one
/// right after it.
pub proof fn lemma_ascii_boundaries(bytes: Seq<u8>, i: int)
    requires
        valid_utf8(bytes),
        0 <= i < bytes.len(),
        bytes[i] < 0x80,
    ensures
        is_char_boundary(bytes, i),
        is_char_boundary(bytes, i + 1),
{
    is_char_boundary_iff_not_is_continuation_byte(bytes, i);
    if i + 1 == bytes.len() {
        is_char_boundary_start_end_of_seq(bytes);
    } else {
        valid_utf8_split(bytes, i);
        let tail = bytes.subrange(i, bytes.len() as int);
        assert(tail[0] == bytes[i]);
        assert(length_of_first_scalar(tail) == 1);
        let rest = pop_first_scalar(tail);
        assert(rest =~= bytes.subrange(i + 1, bytes.len() as int));
        assert(valid_utf8(rest));
        is_char_boundary_iff_not_is_continuation_byte(rest, 0);
        assert(rest[0] == bytes[i + 1]);
        assert(!is_continuation_byte(bytes[i + 1]));
        is_char_boundary_iff_not_is_continuation_byte(bytes, i + 1);
    }
}

/// In valid UTF-8 the bytes between two character boundaries are valid
/// UTF-8 by themselves.
pub proof fn lemma_valid_between(bytes: Seq<u8>, from: int, to: int)
    requires
        valid_utf8(bytes),
        0 <= from <= to <= bytes.len(),
        is_char_boundary(bytes, from),
        is_char_boundary(bytes, to),
    ensures
        valid_utf8(bytes.subrange(from, to)),
{
    valid_utf8_split(bytes, to);
    let head = bytes.subrange(0, to);
    if from == to {
        assert(bytes.subrange(from, to) =~= Seq::<u8>::empty());
    } else {
        lemma_boundary_of_prefix(bytes, to, from);
        valid_utf8_split(head, from);
        assert(head.subrange(from, head.len() as int) =~= bytes.subrange(from, to));
    }
}

/// A character boundary of the whole is one of each prefix that ends on a
/// character boundary behind it.
pub proof fn lemma_boundary_of_prefix(bytes: Seq<u8>, to: int, index: int)
    requires
        valid_utf8(bytes),
        0 <= index < to <= bytes.len(),
        is_char_boundary(bytes, index),
        is_char_boundary(bytes, to),
    ensures
        valid_utf8(bytes.subrange(0, to)),
        is_char_boundary(bytes.subrange(0, to), index),
{
    valid_utf8_split(bytes, to);
    let head = bytes.subrange(0, to);
    is_char_boundary_iff_not_is_continuation_byte(bytes, index);
    assert(head[index] == bytes[index]);
    is_char_boundary_iff_not_is_continuation_byte(head, index);
}

/// Whether a character has the Unicode property `White_Space`.
pub open spec fn is_white_space(c: char) -> bool {
    let code = c as u32;
    ||| 0x09 <= code <= 0x0d
    ||| code == 0x20
    ||| code == 0x85
    ||| code == 0xa0
    ||| code == 0x1680
    ||| 0x2000 <= code <= 0x200a
    ||| code == 0x2028
    ||| code == 0x2029
    ||| code == 0x202f
    ||| code == 0x205f
    ||| code == 0x3000
}

/// The text without the white space at its end.
pub open spec fn trim_end_chars(text: Seq<char>) -> Seq<char>
    decreases text.len(),
{
    if text.len() > 0 && is_white_space(text.last()) {
        trim_end_chars(text.drop_last())
    } else {
        text
    }
}

/// The text without the white space at its start.
pub open spec fn trim_start_chars(text: Seq<char>) -> Seq<char>
    decreases text.len(),
{
    if text.len() > 0 && is_white_space(text.first()) {
        trim_start_chars(text.drop_first())
    } else {
        text
    }
}

/// The text without the white space at its start and at its end.
pub open spec fn trim_chars(text: Seq<char>) -> Seq<char> {
    trim_start_chars(trim_end_chars(text))
}

/// `str::trim`: the text without the white space at its start and at its
/// end, where white space is what Unicode gives the property
/// `White_Space`.
#[verifier::external_body]
pub(crate) fn str_trim<'a>(text: &'a str) -> (r: &'a str)
    ensures
        r@ == trim_chars(text@),
{
    text.trim()
}

/// The bytes of valid UTF-8 without the white space at their end.
pub open spec fn trim_end_bytes(bytes: Seq<u8>) -> Seq<u8> {
    encode_utf8(trim_end_chars(decode_utf8(bytes)))
}

/// `str::trim_end`: the text without the white space at its end, where
/// white space is what Unicode gives the property `White_Space`.
#[verifier::external_body]
pub(crate) fn str_trim_end<'a>(text: &'a str) -> (r: &'a str)
    ensures
        r@ == trim_end_chars(text@),
{
    text.trim_end()
}

/// The text without the white space at its end is a prefix of the text.
pub proof fn lemma_trim_end_chars_prefix(text: Seq<char>)
    ensures
        trim_end_chars(text).len() <= text.len(),
        trim_end_chars(text) == text.subrange(0, trim_end_chars(text).len() as int),
    decreases text.len(),
{
    if text.len() > 0 && is_white_space(text.last()) {
        lemma_trim_end_chars_prefix(text.drop_last());
        let n = trim_end_chars(text).len() as int;
        assert(text.drop_last().subrange(0, n) =~= text.subrange(0, n));
    } else {
        assert(text.subrange(0, text.len() as int) =~= text);
    }
}

/// The encoding of two texts in a row is the encoding of the first
/// followed by that of the second.
pub proof fn lemma_encode_utf8_concat(a: Seq<char>, b: Seq<char>)
    ensures
        encode_utf8(a + b) == encode_utf8(a) + encode_utf8(b),
    decreases a.len(),
{
    if a.len() == 0 {
        assert(a + b =~= b);
        assert(encode_utf8(a) + encode_utf8(b) =~= encode_utf8(b));
    } else {
        lemma_encode_utf8_concat(a.drop_first(), b);
        assert((a + b).drop_first() =~= a.drop_first() + b);
        assert((a + b)[0] == a[0]);
        assert(encode_utf8(a + b) =~= encode_scalar(a[0] as u32) + (encode_utf8(a.drop_first())
            + encode_utf8(b)));
        assert(encode_utf8(a) + encode_utf8(b) =~= encode_scalar(a[0] as u32) + (encode_utf8(
            a.drop_first(),
        ) + encode_utf8(b)));
    }
}

/// Valid UTF-8 without the white space at its end is a prefix of it.
pub proof fn lemma_trim_end_bytes_prefix(bytes: Seq<u8>)
    requires
        valid_utf8(bytes),
    ensures
        trim_end_bytes(bytes).len() <= bytes.len(),
        trim_end_bytes(bytes) == bytes.subrange(0, trim_end_bytes(bytes).len() as int),
{
    let text = decode_utf8(bytes);
    let kept = trim_end_chars(text);
    lemma_trim_end_chars_prefix(text);
    let rest = text.subrange(kept.len() as int, text.len() as int);
    assert(text =~= kept + rest);
    lemma_encode_utf8_concat(kept, rest);
    decode_utf8_encode_utf8(bytes);
    assert(bytes == encode_utf8(kept) + encode_utf8(rest));
    assert(bytes.subrange(0, encode_utf8(kept).len() as int) =~= encode_utf8(kept));
}

} // verus!
