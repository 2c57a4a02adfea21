//! What holds of unescaping and escaping, one after the other.

use vstd::prelude::*;
use vstd::utf8::{encode_utf8, encode_utf8_decode_utf8};
use crate::unescape::{
    lemma_plain_run, simple_escape, unescaped, unescaped_from, unescaped_text, ESCAPE, QUOTE,
};

verus! {

/// The bytes that stand for a byte in a string of a document: an escape
/// for `\`, for `"` and for the control characters that have a letter, and
/// the byte itself for every other byte.
pub open spec fn escaped_byte(b: u8) -> Seq<u8> {
    if b == ESCAPE {
        seq![ESCAPE, ESCAPE]
    } else if b == QUOTE {
        seq![ESCAPE, QUOTE]
    } else if b == 0x0a {
        seq![ESCAPE, 0x6eu8]
    } else if b == 0x0d {
        seq![ESCAPE, 0x72u8]
    } else if b == 0x09 {
        seq![ESCAPE, 0x74u8]
    } else if b == 0x0c {
        seq![ESCAPE, 0x66u8]
    } else if b == 0x08 {
        seq![ESCAPE, 0x62u8]
    } else {
        seq![b]
    }
}

/// The bytes escaped one by one.
pub open spec fn escaped(bytes: Seq<u8>) -> Seq<u8>
    decreases bytes.len(),
{
    if bytes.len() == 0 {
        Seq::empty()
    } else {
        escaped_byte(bytes[0]) + escaped(bytes.drop_first())
    }
}

/// Behind any bytes, escaped bytes unescape to what they were.
pub proof fn lemma_unescape_escaped_from(before: Seq<u8>, bytes: Seq<u8>)
    ensures
        unescaped_from(before + escaped(bytes), before.len() as int, None) == bytes,
    decreases bytes.len(),
{
    let whole = before + escaped(bytes);
    let at = before.len() as int;
    if bytes.len() == 0 {
        assert(whole.len() == at);
        assert(bytes =~= Seq::<u8>::empty());
    } else {
        let b = bytes[0];
        let head = escaped_byte(b);
        let rest = bytes.drop_first();
        lemma_unescape_escaped_from(before + head, rest);
        assert(whole =~= (before + head) + escaped(rest));
        assert(whole[at] == head[0]);
        if head.len() == 2 {
            assert(whole[at + 1] == head[1]);
            assert(simple_escape(head[1]) == Some(b));
        }
        assert(bytes =~= seq![b] + rest);
    }
}

/// Unescaping undoes escaping: whatever bytes are escaped, and so whatever
/// an unescaping has given, they unescape to what they were.
pub proof fn lemma_unescape_escaped(bytes: Seq<u8>)
    ensures
        unescaped(escaped(bytes)) == bytes,
{
    lemma_unescape_escaped_from(Seq::empty(), bytes);
    assert(Seq::<u8>::empty() + escaped(bytes) =~= escaped(bytes));
}

/// Bytes without a `\` unescape to themselves.
pub proof fn lemma_unescape_plain(bytes: Seq<u8>)
    requires
        forall|k: int| 0 <= k < bytes.len() ==> bytes[k] != ESCAPE,
    ensures
        unescaped(bytes) == bytes,
{
    lemma_plain_run(bytes, 0, bytes.len() as int, None);
    assert(bytes.subrange(0, bytes.len() as int) + Seq::<u8>::empty() =~= bytes);
}

/// A text without a `\` unescapes to itself.
pub proof fn lemma_unescape_plain_text(text: Seq<char>)
    requires
        forall|k: int| 0 <= k < encode_utf8(text).len() ==> encode_utf8(text)[k] != ESCAPE,
    ensures
        unescaped_text(text) == text,
{
    lemma_unescape_plain(encode_utf8(text));
    encode_utf8_decode_utf8(text);
}

} // verus!
