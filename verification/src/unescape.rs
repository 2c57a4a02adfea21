//! Unescaping of the strings of a document.
//!
//! A string is copied in runs: every run of bytes between two escapes goes
//! into the result as it is, and every escape is replaced by what it stands
//! for. An escape that stands for nothing is dropped, and the bytes behind
//! its `\` are kept as they are.

pub mod fallback;
pub mod laws;
pub mod simd;

use vstd::prelude::*;
use vstd::string::StringSliceAdditionalSpecFns;
use vstd::utf8::{
    decode_utf8, encode_scalar, encode_utf8, encode_utf8_valid_utf8, is_char_boundary, is_scalar,
    valid_utf8, valid_utf8_concat,
};
use crate::de::simd::Block;
use crate::std_ext::char::{
    char_from_u32, is_surrogate_pair, surrogate_pair_code, try_from_utf16_surrogate_pair,
};
use crate::std_ext::str::{
    char_encode_utf8, lemma_ascii_boundaries, lemma_valid_between, string_from_utf8,
};

verus! {

pub const ESCAPE: u8 = 0x5c;

pub const QUOTE: u8 = 0x22;

/// The value of a hexadecimal digit.
pub open spec fn hex_digit(c: u8) -> Option<u16> {
    if 0x30 <= c <= 0x39 {
        Some((c - 0x30) as u16)
    } else if 0x61 <= c <= 0x66 {
        Some((c - 0x61 + 10) as u16)
    } else if 0x41 <= c <= 0x46 {
        Some((c - 0x41 + 10) as u16)
    } else {
        None
    }
}

/// The number that the four bytes from `at` on spell in hexadecimal digits,
/// if they are four such digits.
pub open spec fn hex4(input: Seq<u8>, at: int) -> Option<u16> {
    if at + 4 <= input.len() && hex_digit(input[at]) is Some && hex_digit(input[at + 1]) is Some
        && hex_digit(input[at + 2]) is Some && hex_digit(input[at + 3]) is Some {
        Some(
            (hex_digit(input[at])->0 * 0x1000 + hex_digit(input[at + 1])->0 * 0x100 + hex_digit(
                input[at + 2],
            )->0 * 0x10 + hex_digit(input[at + 3])->0) as u16,
        )
    } else {
        None
    }
}

/// The byte that a one-letter escape stands for.
pub open spec fn simple_escape(c: u8) -> Option<u8> {
    if c == 0x6e {
        Some(0x0au8)
    } else if c == QUOTE {
        Some(QUOTE)
    } else if c == ESCAPE {
        Some(ESCAPE)
    } else if c == 0x72 {
        Some(0x0du8)
    } else if c == 0x74 {
        Some(0x09u8)
    } else if c == 0x66 {
        Some(0x0cu8)
    } else if c == 0x62 {
        Some(0x08u8)
    } else {
        None
    }
}

/// The unescaped bytes of the input from `at` on, with `first` the half of
/// a surrogate pair that a `\u` escape before `at` has left behind.
///
/// A byte that is no `\` stands for itself. A `\` with one of `n`, `r`, `t`,
/// `b`, `f`, `"` and `\` stands for one byte. A `\u` with four hexadecimal
/// digits stands for the character with that code, or, with the half that
/// was left behind, for the character of the surrogate pair; a code that is
/// half of a pair and meets no other half is left behind in turn and stands
/// for nothing. Of any other escape only the `\` is dropped: of a `\u`
/// without four digits the `\u`, and so of one whose pair names no
/// character.
pub open spec fn unescaped_from(input: Seq<u8>, at: int, first: Option<u16>) -> Seq<u8>
    decreases input.len() - at,
{
    if at < 0 || at >= input.len() {
        Seq::empty()
    } else if input[at] != ESCAPE {
        seq![input[at]] + unescaped_from(input, at + 1, first)
    } else if at + 1 >= input.len() {
        Seq::empty()
    } else if simple_escape(input[at + 1]) is Some {
        seq![simple_escape(input[at + 1])->0] + unescaped_from(input, at + 2, first)
    } else if input[at + 1] == 0x75 {
        match hex4(input, at + 2) {
            Some(code) => match first {
                Some(high) => if is_surrogate_pair(high, code) {
                    encode_scalar(surrogate_pair_code(high, code) as u32) + unescaped_from(
                        input,
                        at + 6,
                        None,
                    )
                } else {
                    unescaped_from(input, at + 2, None)
                },
                None => if is_scalar(code as u32) {
                    encode_scalar(code as u32) + unescaped_from(input, at + 6, None)
                } else {
                    unescaped_from(input, at + 6, Some(code))
                },
            },
            None => unescaped_from(input, at + 2, first),
        }
    } else {
        unescaped_from(input, at + 1, first)
    }
}

/// The unescaped bytes of a whole string.
pub open spec fn unescaped(input: Seq<u8>) -> Seq<u8> {
    unescaped_from(input, 0, None)
}

/// The unescaped text of a string.
pub open spec fn unescaped_text(text: Seq<char>) -> Seq<char> {
    decode_utf8(unescaped(encode_utf8(text)))
}

/// Whether the input has no `\` from `from` up to `to`.
pub open spec fn no_escape(input: Seq<u8>, from: int, to: int) -> bool {
    forall|k: int| from <= k < to ==> input[k] != ESCAPE
}

/// A run of bytes without a `\` stands for itself.
pub proof fn lemma_plain_run(input: Seq<u8>, from: int, to: int, first: Option<u16>)
    requires
        0 <= from <= to <= input.len(),
        no_escape(input, from, to),
    ensures
        unescaped_from(input, from, first) == input.subrange(from, to) + unescaped_from(
            input,
            to,
            first,
        ),
    decreases to - from,
{
    if from == to {
        assert(input.subrange(from, to) + unescaped_from(input, to, first) =~= unescaped_from(
            input,
            to,
            first,
        ));
    } else {
        lemma_plain_run(input, from + 1, to, first);
        assert(seq![input[from]] + (input.subrange(from + 1, to) + unescaped_from(
            input,
            to,
            first,
        )) =~= input.subrange(from, to) + unescaped_from(input, to, first));
    }
}

/// Where the first `\` at or behind `at` is, or the end of the input.
pub open spec fn next_escape(input: Seq<u8>, at: int) -> int
    decreases input.len() - at,
{
    if at < 0 || at >= input.len() {
        input.len() as int
    } else if input[at] == ESCAPE {
        at
    } else {
        next_escape(input, at + 1)
    }
}

/// There is no `\` before the next one.
pub proof fn lemma_next_escape(input: Seq<u8>, at: int)
    requires
        0 <= at <= input.len(),
    ensures
        at <= next_escape(input, at) <= input.len(),
        no_escape(input, at, next_escape(input, at)),
        next_escape(input, at) < input.len() ==> input[next_escape(input, at)] == ESCAPE,
    decreases input.len() - at,
{
    if at < input.len() && input[at] != ESCAPE {
        lemma_next_escape(input, at + 1);
    }
}

/// The encoding of a scalar value is valid UTF-8.
pub proof fn lemma_encode_scalar_valid(code: u32)
    requires
        is_scalar(code),
    ensures
        valid_utf8(encode_scalar(code)),
{
    let c = code as char;
    let text = seq![c];
    assert(text.drop_first() =~= Seq::<char>::empty());
    assert(encode_utf8(text) =~= encode_scalar(code)) by {
        reveal_with_fuel(encode_utf8, 2);
        assert(encode_utf8(text.drop_first()) =~= Seq::<u8>::empty());
    }
    encode_utf8_valid_utf8(text);
}

/// One ASCII byte is valid UTF-8.
pub proof fn lemma_ascii_valid(b: u8)
    requires
        b < 0x80,
    ensures
        valid_utf8(seq![b]),
{
    assert(vstd::utf8::leading_byte_width_1(b as u32) == b) by (bit_vector)
        requires
            b < 0x80,
    ;
    assert(encode_scalar(b as u32) =~= seq![b]);
    lemma_encode_scalar_valid(b as u32);
}

/// What valid UTF-8 unescapes to, from a character boundary on, is valid
/// UTF-8.
pub proof fn lemma_unescaped_valid(input: Seq<u8>, at: int, first: Option<u16>)
    requires
        valid_utf8(input),
        0 <= at <= input.len(),
        is_char_boundary(input, at),
    ensures
        valid_utf8(unescaped_from(input, at, first)),
    decreases input.len() - at, 1int,
{
    if at >= input.len() {
    } else if input[at] != ESCAPE {
        let to = next_escape(input, at);
        lemma_next_escape(input, at);
        lemma_plain_run(input, at, to, first);
        if to < input.len() {
            lemma_ascii_boundaries(input, to);
        } else {
            vstd::utf8::is_char_boundary_start_end_of_seq(input);
        }
        lemma_valid_between(input, at, to);
        lemma_unescaped_valid_at_escape(input, to, first);
        valid_utf8_concat(input.subrange(at, to), unescaped_from(input, to, first));
    } else {
        lemma_unescaped_valid_at_escape(input, at, first);
    }
}

/// What valid UTF-8 unescapes to, from a `\` or from the end on, is valid
/// UTF-8.
pub proof fn lemma_unescaped_valid_at_escape(input: Seq<u8>, at: int, first: Option<u16>)
    requires
        valid_utf8(input),
        0 <= at <= input.len(),
        at < input.len() ==> input[at] == ESCAPE,
    ensures
        valid_utf8(unescaped_from(input, at, first)),
    decreases input.len() - at, 0int,
{
    if at >= input.len() {
    } else if at + 1 >= input.len() {
    } else {
        lemma_ascii_boundaries(input, at);
        let c = input[at + 1];
        if simple_escape(c) is Some {
            lemma_ascii_boundaries(input, at + 1);
            lemma_unescaped_valid(input, at + 2, first);
            lemma_ascii_valid(simple_escape(c)->0);
            valid_utf8_concat(
                seq![simple_escape(c)->0],
                unescaped_from(input, at + 2, first),
            );
        } else if c == 0x75 {
            lemma_ascii_boundaries(input, at + 1);
            match hex4(input, at + 2) {
                Some(code) => {
                    lemma_ascii_boundaries(input, at + 5);
                    match first {
                        Some(high) => {
                            if is_surrogate_pair(high, code) {
                                let scalar = surrogate_pair_code(high, code) as u32;
                                lemma_encode_scalar_valid(scalar);
                                lemma_unescaped_valid(input, at + 6, None);
                                valid_utf8_concat(
                                    encode_scalar(scalar),
                                    unescaped_from(input, at + 6, None),
                                );
                            } else {
                                lemma_unescaped_valid(input, at + 2, None);
                            }
                        },
                        None => {
                            if is_scalar(code as u32) {
                                lemma_encode_scalar_valid(code as u32);
                                lemma_unescaped_valid(input, at + 6, None);
                                valid_utf8_concat(
                                    encode_scalar(code as u32),
                                    unescaped_from(input, at + 6, None),
                                );
                            } else {
                                lemma_unescaped_valid(input, at + 6, Some(code));
                            }
                        },
                    }
                },
                None => {
                    lemma_unescaped_valid(input, at + 2, first);
                },
            }
        } else {
            lemma_unescaped_valid(input, at + 1, first);
        }
    }
}

/// The state of an unescaping, but for the bytes that it writes.
#[derive(Debug)]
pub struct Scan {
    /// The next byte to read. An unescaping by blocks leaves it on the start
    /// of the block while it visits the escapes of the block.
    pub input_offset: usize,
    /// Where the bytes begin that are still to be copied.
    pub start: usize,
    /// Whether the byte before was a `\` that escapes a `\`.
    pub escape: bool,
    /// The half of a surrogate pair that a `\u` escape has left behind.
    pub first_surrogate: Option<u16>,
}

/// The bytes that an unescaping has written.
#[derive(Debug)]
pub struct Unescaped {
    pub buf: Vec<u8>,
}

/// An unescaping in progress, with the `\` that it is looking at.
#[derive(Debug)]
pub struct ScanFnInput<'a> {
    pub input: &'a [u8],
    pub curr_offset: usize,
    pub scan: Scan,
    pub unescaped: Unescaped,
}

impl<'a> ScanFnInput<'a> {
    /// Whether the unescaping is on its way, with every byte before `at`
    /// taken care of: what is written, what is still to be copied, and what
    /// the rest of the input unescapes to make up what the whole input
    /// unescapes to.
    pub open spec fn inv(&self, at: int) -> bool {
        let input = self.input@;
        let start = self.scan.start as int;
        let first = self.scan.first_surrogate;
        let buf = self.unescaped.buf@;
        &&& 0 <= at <= input.len()
        &&& start <= input.len()
        &&& if self.scan.escape {
            &&& start == at
            &&& at < input.len()
            &&& input[at] == ESCAPE
            &&& unescaped(input) == buf + seq![ESCAPE] + unescaped_from(input, at + 1, first)
        } else if start <= at {
            &&& no_escape(input, start, at)
            &&& unescaped(input) == buf + input.subrange(start, at) + unescaped_from(
                input,
                at,
                first,
            )
        } else {
            &&& no_escape(input, at, start)
            &&& unescaped(input) == buf + unescaped_from(input, start, first)
        }
    }

    /// Bytes without a `\` need no care.
    pub proof fn lemma_skip(&self, at: int, to: int)
        requires
            self.inv(at),
            at <= to <= self.input@.len(),
            no_escape(self.input@, at, to),
        ensures
            self.inv(to),
    {
        let input = self.input@;
        let start = self.scan.start as int;
        let first = self.scan.first_surrogate;
        let buf = self.unescaped.buf@;
        if self.scan.escape {
            assert(to == at);
        } else if start <= at {
            lemma_plain_run(input, at, to, first);
            assert(input.subrange(start, at) + input.subrange(at, to) =~= input.subrange(
                start,
                to,
            ));
            assert(buf + input.subrange(start, at) + (input.subrange(at, to) + unescaped_from(
                input,
                to,
                first,
            )) =~= buf + input.subrange(start, to) + unescaped_from(input, to, first));
        } else if start <= to {
            lemma_plain_run(input, start, to, first);
            assert(buf + (input.subrange(start, to) + unescaped_from(input, to, first)) =~= buf
                + input.subrange(start, to) + unescaped_from(input, to, first));
        }
    }

    /// Copies the bytes up to the `\` that the unescaping looks at, and
    /// skips the `\`.
    pub(crate) fn flush(&mut self)
        requires
            old(self).scan.start <= old(self).curr_offset < old(self).input@.len(),
        ensures
            final(self).unescaped.buf@ == old(self).unescaped.buf@ + old(self).input@.subrange(
                old(self).scan.start as int,
                old(self).curr_offset as int,
            ),
            final(self).scan.start == old(self).curr_offset + 1,
            final(self).input == old(self).input,
            final(self).curr_offset == old(self).curr_offset,
            final(self).scan.input_offset == old(self).scan.input_offset,
            final(self).scan.escape == old(self).scan.escape,
            final(self).scan.first_surrogate == old(self).scan.first_surrogate,
    {
        let n = self.input.len();
        flush(self.input, self.curr_offset, &mut self.scan, &mut self.unescaped);
        self.scan.start += 1;
    }

    /// Writes the byte that an escape stands for, and skips the letter of
    /// the escape.
    pub(crate) fn push_unescaped_byte(&mut self, b: u8)
        requires
            old(self).scan.start < old(self).input@.len(),
        ensures
            final(self).unescaped.buf@ == old(self).unescaped.buf@.push(b),
            final(self).scan.start == old(self).scan.start + 1,
            final(self).input == old(self).input,
            final(self).curr_offset == old(self).curr_offset,
            final(self).scan.input_offset == old(self).scan.input_offset,
            final(self).scan.escape == old(self).scan.escape,
            final(self).scan.first_surrogate == old(self).scan.first_surrogate,
    {
        let n = self.input.len();
        self.unescaped.buf.push(b);
        self.scan.start += 1;
    }

    /// Writes the character that a `\u` escape stands for, and skips its
    /// four digits.
    pub(crate) fn push_unescaped_char(&mut self, c: char)
        requires
            old(self).scan.start + 4 <= old(self).input@.len(),
        ensures
            final(self).unescaped.buf@ == old(self).unescaped.buf@ + encode_scalar(c as u32),
            final(self).scan.start == old(self).scan.start + 4,
            final(self).input == old(self).input,
            final(self).curr_offset == old(self).curr_offset,
            final(self).scan.input_offset == old(self).scan.input_offset,
            final(self).scan.escape == old(self).scan.escape,
            final(self).scan.first_surrogate == old(self).scan.first_surrogate,
    {
        let n = self.input.len();
        let encoded = char_encode_utf8(c);
        self.unescaped.buf.extend_from_slice(encoded.as_slice());
        self.scan.start += 4;
    }

    /// Leaves the half of a surrogate pair behind for the `\u` escape that
    /// brings the other half, and skips its four digits.
    pub(crate) fn begin_surrogate_pair(&mut self, first: u16)
        requires
            old(self).scan.start + 4 <= old(self).input@.len(),
        ensures
            final(self).unescaped == old(self).unescaped,
            final(self).scan.start == old(self).scan.start + 4,
            final(self).input == old(self).input,
            final(self).curr_offset == old(self).curr_offset,
            final(self).scan.input_offset == old(self).scan.input_offset,
            final(self).scan.escape == old(self).scan.escape,
            final(self).scan.first_surrogate == Some(first),
    {
        let n = self.input.len();
        self.scan.first_surrogate = Some(first);
        self.scan.start += 4;
    }
}

/// Copies the bytes from where the last copy ended up to `flush_to`.
pub(crate) fn flush(input: &[u8], flush_to: usize, scan: &mut Scan, unescaped: &mut Unescaped)
    requires
        old(scan).start <= flush_to <= input@.len(),
    ensures
        final(unescaped).buf@ == old(unescaped).buf@ + input@.subrange(
            old(scan).start as int,
            flush_to as int,
        ),
        final(scan).start == flush_to,
        final(scan).input_offset == old(scan).input_offset,
        final(scan).escape == old(scan).escape,
        final(scan).first_surrogate == old(scan).first_surrogate,
{
    if flush_to == scan.start {
        assert(input@.subrange(scan.start as int, flush_to as int) =~= Seq::<u8>::empty());
        assert(unescaped.buf@ + Seq::<u8>::empty() =~= unescaped.buf@);
        return ;
    }
    unescaped.buf.extend_from_slice(&input[scan.start..flush_to]);
    scan.start = flush_to;
}

/// The value of a hexadecimal digit, if the byte is one.
pub(crate) fn hex_value(c: u8) -> (r: Option<u16>)
    ensures
        r == hex_digit(c),
{
    if 0x30 <= c && c <= 0x39 {
        Some((c - 0x30) as u16)
    } else if 0x61 <= c && c <= 0x66 {
        Some((c - 0x61 + 10) as u16)
    } else if 0x41 <= c && c <= 0x46 {
        Some((c - 0x41 + 10) as u16)
    } else {
        None
    }
}

/// Reads the four hexadecimal digits of a `\u` escape.
pub(crate) fn parse_hex4(input: &[u8], at: usize) -> (r: Option<u16>)
    requires
        at <= input@.len(),
    ensures
        r == hex4(input@, at as int),
{
    if input.len() - at < 4 {
        return None;
    }
    let d0 = match hex_value(input[at]) {
        Some(d) => d,
        None => {
            return None;
        },
    };
    let d1 = match hex_value(input[at + 1]) {
        Some(d) => d,
        None => {
            return None;
        },
    };
    let d2 = match hex_value(input[at + 2]) {
        Some(d) => d,
        None => {
            return None;
        },
    };
    let d3 = match hex_value(input[at + 3]) {
        Some(d) => d,
        None => {
            return None;
        },
    };
    Some(d0 * 0x1000 + d1 * 0x100 + d2 * 0x10 + d3)
}

/// What an unescaping holds behind a `\`: the bytes written, where the
/// bytes begin that are still to be copied, whether the next byte is an
/// escaped `\`, and the half of a surrogate pair that is left behind.
pub struct Stepped {
    pub buf: Seq<u8>,
    pub start: int,
    pub escape: bool,
    pub first: Option<u16>,
}

/// What the `\` at `at` does to an unescaping that has written `buf`, has
/// still to copy the bytes from `start` on, and has `first` left behind.
///
/// A `\` that is escaped itself is written. Any other `\` has the bytes
/// before it copied, and then the byte behind it decides: a `\` is escaped
/// by it; one of `n`, `r`, `t`, `b`, `f` and `"` has its byte written and
/// is passed over; a `u` with four hexadecimal digits has its character
/// written, alone or with the half that was left behind, or is left behind
/// as a half itself, and is passed over with its digits; a `u` that gives
/// no character is passed over without them; and before any other byte,
/// and at the end of the input, only the `\` is passed over.
pub open spec fn escape_step(
    input: Seq<u8>,
    at: int,
    buf: Seq<u8>,
    start: int,
    escape: bool,
    first: Option<u16>,
) -> Stepped {
    let flushed = buf + input.subrange(start, at);
    if escape {
        Stepped { buf: buf.push(ESCAPE), start: start + 1, escape: false, first }
    } else if at + 1 >= input.len() {
        Stepped { buf: flushed, start: at + 1, escape: false, first }
    } else if input[at + 1] == ESCAPE {
        Stepped { buf: flushed, start: at + 1, escape: true, first }
    } else if simple_escape(input[at + 1]) is Some {
        Stepped {
            buf: flushed.push(simple_escape(input[at + 1])->0),
            start: at + 2,
            escape: false,
            first,
        }
    } else if input[at + 1] == 0x75 {
        match hex4(input, at + 2) {
            Some(code) => match first {
                Some(high) => if is_surrogate_pair(high, code) {
                    Stepped {
                        buf: flushed + encode_scalar(surrogate_pair_code(high, code) as u32),
                        start: at + 6,
                        escape: false,
                        first: None,
                    }
                } else {
                    Stepped { buf: flushed, start: at + 2, escape: false, first: None }
                },
                None => if is_scalar(code as u32) {
                    Stepped {
                        buf: flushed + encode_scalar(code as u32),
                        start: at + 6,
                        escape: false,
                        first: None,
                    }
                } else {
                    Stepped { buf: flushed, start: at + 6, escape: false, first: Some(code) }
                },
            },
            None => Stepped { buf: flushed, start: at + 2, escape: false, first },
        }
    } else {
        Stepped { buf: flushed, start: at + 1, escape: false, first }
    }
}

impl<'a> ScanFnInput<'a> {
    /// What the unescaping holds.
    pub open spec fn stepped(&self) -> Stepped {
        Stepped {
            buf: self.unescaped.buf@,
            start: self.scan.start as int,
            escape: self.scan.escape,
            first: self.scan.first_surrogate,
        }
    }
}

/// Handles the `\` that the unescaping looks at: copies what stands before
/// it and writes what the escape stands for.
pub(crate) fn interest_unescape(i: &mut ScanFnInput)
    requires
        old(i).inv(old(i).curr_offset as int),
        old(i).curr_offset < old(i).input@.len(),
        old(i).input@[old(i).curr_offset as int] == ESCAPE,
    ensures
        final(i).stepped() == escape_step(
            old(i).input@,
            old(i).curr_offset as int,
            old(i).unescaped.buf@,
            old(i).scan.start as int,
            old(i).scan.escape,
            old(i).scan.first_surrogate,
        ),
        final(i).inv(old(i).curr_offset + 1),
        final(i).input == old(i).input,
        final(i).scan.input_offset == old(i).scan.input_offset,
{
    let ghost input = i.input@;
    let ghost at = i.curr_offset as int;
    let ghost first = i.scan.first_surrogate;
    let ghost buf = i.unescaped.buf@;
    let escaped = i.scan.escape;
    i.scan.escape = !escaped;
    if escaped {
        i.push_unescaped_byte(ESCAPE);
        assert(buf + seq![ESCAPE] =~= buf.push(ESCAPE));
        assert(input.subrange(at + 1, at + 1) =~= Seq::<u8>::empty());
        assert(buf.push(ESCAPE) + Seq::<u8>::empty() =~= buf.push(ESCAPE));
    } else {
        let ghost start = i.scan.start as int;
        i.flush();
        let ghost flushed = i.unescaped.buf@;
        assert(unescaped(input) == flushed + unescaped_from(input, at, first));
        assert(input.subrange(at + 1, at + 1) =~= Seq::<u8>::empty());
        assert(forall|b: Seq<u8>| b + Seq::<u8>::empty() =~= b);
        i.curr_offset += 1;
        if i.curr_offset >= i.input.len() {
            i.scan.escape = false;
            return ;
        }
        let escaped = i.input[i.curr_offset];
        if escaped == 0x6e {
            i.push_unescaped_byte(0x0a);
            assert(flushed + (seq![0x0au8] + unescaped_from(input, at + 2, first)) =~= flushed.push(
                0x0au8,
            ) + unescaped_from(input, at + 2, first));
        } else if escaped == QUOTE {
            i.push_unescaped_byte(QUOTE);
            assert(flushed + (seq![QUOTE] + unescaped_from(input, at + 2, first)) =~= flushed.push(
                QUOTE,
            ) + unescaped_from(input, at + 2, first));
        } else if escaped == ESCAPE {
            assert(flushed + (seq![ESCAPE] + unescaped_from(input, at + 2, first)) =~= flushed
                + seq![ESCAPE] + unescaped_from(input, at + 2, first));
            return ;
        } else if escaped == 0x72 {
            i.push_unescaped_byte(0x0d);
            assert(flushed + (seq![0x0du8] + unescaped_from(input, at + 2, first)) =~= flushed.push(
                0x0du8,
            ) + unescaped_from(input, at + 2, first));
        } else if escaped == 0x74 {
            i.push_unescaped_byte(0x09);
            assert(flushed + (seq![0x09u8] + unescaped_from(input, at + 2, first)) =~= flushed.push(
                0x09u8,
            ) + unescaped_from(input, at + 2, first));
        } else if escaped == 0x66 {
            i.push_unescaped_byte(0x0c);
            assert(flushed + (seq![0x0cu8] + unescaped_from(input, at + 2, first)) =~= flushed.push(
                0x0cu8,
            ) + unescaped_from(input, at + 2, first));
        } else if escaped == 0x62 {
            i.push_unescaped_byte(0x08);
            assert(flushed + (seq![0x08u8] + unescaped_from(input, at + 2, first)) =~= flushed.push(
                0x08u8,
            ) + unescaped_from(input, at + 2, first));
        } else if escaped == 0x75 {
            i.scan.start += 1;
            i.curr_offset += 1;
            match parse_hex4(i.input, i.curr_offset) {
                Some(code) => {
                    assert(no_escape(input, at + 1, at + 6));
                    match i.scan.first_surrogate.take() {
                        Some(high) => {
                            match try_from_utf16_surrogate_pair(high, code) {
                                Ok(ch) => {
                                    i.push_unescaped_char(ch);
                                    assert(flushed + (encode_scalar(ch as u32) + unescaped_from(
                                        input,
                                        at + 6,
                                        None,
                                    )) =~= flushed + encode_scalar(ch as u32) + unescaped_from(
                                        input,
                                        at + 6,
                                        None,
                                    ));
                                },
                                Err(_) => {},
                            }
                        },
                        None => {
                            match char_from_u32(code as u32) {
                                Some(ch) => {
                                    i.push_unescaped_char(ch);
                                    assert(flushed + (encode_scalar(ch as u32) + unescaped_from(
                                        input,
                                        at + 6,
                                        None,
                                    )) =~= flushed + encode_scalar(ch as u32) + unescaped_from(
                                        input,
                                        at + 6,
                                        None,
                                    ));
                                },
                                None => {
                                    i.begin_surrogate_pair(code);
                                },
                            }
                        },
                    }
                },
                None => {},
            }
        }
        i.scan.escape = false;
    }
}

/// Unescapes a string of a document.
///
/// A `\` at the very end of the string, which no string of a document has
/// unless it is escaped itself, is dropped.
pub fn unescape_trusted(text: &str) -> (r: String)
    ensures
        r@ == unescaped_text(text@),
{
    unescape_trusted_blocks(text, Block::Avx2)
}

/// Unescapes a string of a document, by blocks of the given size if the
/// string is longer than a block.
pub fn unescape_trusted_blocks(text: &str, block: Block) -> (r: String)
    ensures
        r@ == unescaped_text(text@),
{
    let input = text.as_bytes();
    let scan = Scan { input_offset: 0, escape: false, start: 0, first_surrogate: None };
    let unescaped = Unescaped { buf: Vec::with_capacity(input.len()) };
    let mut i = ScanFnInput { input, curr_offset: 0, scan, unescaped };
    proof {
        encode_utf8_valid_utf8(text@);
        assert(input@.subrange(0, 0) =~= Seq::<u8>::empty());
        assert(i.unescaped.buf@ + Seq::<u8>::empty() + unescaped_from(input@, 0, None)
            =~= unescaped_from(input@, 0, None));
    }
    if input.len() > block.size() {
        simd::unescape_simd(&mut i, block.size());
    } else {
        fallback::unescape(&mut i);
    }
    unescape_end(i)
}

/// Ends an unescaping: copies the bytes that are left and makes the string.
pub(crate) fn unescape_end(i: ScanFnInput) -> (r: String)
    requires
        i.inv(i.input@.len() as int),
        valid_utf8(i.input@),
    ensures
        r@ == decode_utf8(unescaped(i.input@)),
{
    let ScanFnInput { input, curr_offset: _, scan, unescaped } = i;
    let mut scan = scan;
    let mut unescaped = unescaped;
    let ghost before = unescaped.buf@;
    let ghost start = scan.start as int;
    flush(input, input.len(), &mut scan, &mut unescaped);
    proof {
        let len = input@.len() as int;
        assert(before + input@.subrange(start, len) + Seq::<u8>::empty() =~= before
            + input@.subrange(start, len));
        vstd::utf8::is_char_boundary_start_end_of_seq(input@);
        lemma_unescaped_valid(input@, 0, None);
    }
    match string_from_utf8(unescaped.buf) {
        Some(text) => text,
        None => vstd::pervasive::unreached(),
    }
}

} // verus!
