//! The inputs that a scan is meant for: JSON maps without white space
//! between their tokens.
//!
//! The grammar below is wider than JSON in what it takes for a number or
//! an atom, which a scan does not look into: a number or an atom is any run
//! of bytes that starts like one and holds no byte of interest.

use vstd::prelude::*;
use crate::de::interest::{
    ARR_BEGIN, ARR_END, COLON, COMMA, DIGIT_0, DIGIT_9, ESCAPE, LOWER_F, LOWER_N, LOWER_T,
    MAP_BEGIN, MAP_END, MINUS, QUOTE,
};
use crate::de::laws::{
    lemma_handled, lemma_regular_split, lemma_run_to_split, lemma_scans_agree,
    lemma_step_settled, regular,
};
use crate::de::offsets::OffsetKind;
use crate::de::simd::{is_interest, is_quote_escape, Block, BLOCK_SIZE};
use crate::de::state::{ActivePrimitiveKind, ScanState};
use crate::de::{scan_bounds, scanned, scanned_fallback};

verus! {

/// Whether a number starts with the byte.
pub open spec fn is_num_start(c: u8) -> bool {
    (DIGIT_0 <= c <= DIGIT_9) || c == MINUS
}

/// Whether an atom starts with the byte.
pub open spec fn is_atom_start(c: u8) -> bool {
    c == LOWER_N || c == LOWER_T || c == LOWER_F
}

/// Where the string ends whose text begins at `at`: behind the first `"`
/// that no `\` escapes. A `\` escapes the byte behind it.
pub open spec fn string_end(input: Seq<u8>, at: int, to: int) -> Option<int>
    recommends
        to <= input.len(),
    decreases to - at,
{
    if at < 0 || at >= to {
        None
    } else if input[at] == QUOTE {
        Some(at + 1)
    } else if input[at] == ESCAPE {
        if at + 1 < to {
            string_end(input, at + 2, to)
        } else {
            None
        }
    } else {
        string_end(input, at + 1, to)
    }
}

/// Where the number or atom ends that goes on at `at`: at the first byte of
/// interest, or at `to`.
pub open spec fn token_end(input: Seq<u8>, at: int, to: int) -> int
    recommends
        to <= input.len(),
    decreases to - at,
{
    if at < 0 || at >= to || is_interest(input[at]) {
        at
    } else {
        token_end(input, at + 1, to)
    }
}

/// Where the value ends that begins at `at`, if there is one: a string, a
/// number, an atom, a map or an array.
pub open spec fn value_end(input: Seq<u8>, at: int, to: int) -> Option<int>
    recommends
        to <= input.len(),
    decreases to - at, 0int,
{
    if at < 0 || at >= to {
        None
    } else if input[at] == QUOTE {
        string_end(input, at + 1, to)
    } else if is_num_start(input[at]) || is_atom_start(input[at]) {
        Some(token_end(input, at + 1, to))
    } else if input[at] == MAP_BEGIN {
        members_end(input, at + 1, to, true)
    } else if input[at] == ARR_BEGIN {
        elements_end(input, at + 1, to, true)
    } else {
        None
    }
}

/// Where the array ends whose elements go on at `at`: behind its `]`. Its
/// elements are values with a `,` between each two; only where `first` is
/// set, the array may have none.
pub open spec fn elements_end(input: Seq<u8>, at: int, to: int, first: bool) -> Option<int>
    recommends
        to <= input.len(),
    decreases to - at, 1int,
{
    if at < 0 || at >= to {
        None
    } else if first && input[at] == ARR_END {
        Some(at + 1)
    } else {
        match value_end(input, at, to) {
            Some(end) => if at < end < to && input[end] == COMMA {
                elements_end(input, end + 1, to, false)
            } else if at < end < to && input[end] == ARR_END {
                Some(end + 1)
            } else {
                None
            },
            None => None,
        }
    }
}

/// Where the value of the member ends that begins at `at`, if there is
/// one: a member is a string, a `:` and a value.
pub open spec fn member_end(input: Seq<u8>, at: int, to: int) -> Option<int>
    recommends
        to <= input.len(),
    decreases to - at, 1int,
{
    if at < 0 || at >= to || input[at] != QUOTE {
        None
    } else {
        match string_end(input, at + 1, to) {
            Some(colon) => if at < colon < to && input[colon] == COLON {
                value_end(input, colon + 1, to)
            } else {
                None
            },
            None => None,
        }
    }
}

/// Where the map ends whose members go on at `at`: behind its `}`. Its
/// members have a `,` between each two; only where `first` is set, the map
/// may have none.
pub open spec fn members_end(input: Seq<u8>, at: int, to: int, first: bool) -> Option<int>
    recommends
        to <= input.len(),
    decreases to - at, 2int,
{
    if at < 0 || at >= to {
        None
    } else if first && input[at] == MAP_END {
        Some(at + 1)
    } else {
        match member_end(input, at, to) {
            Some(end) => if at < end < to && input[end] == COMMA {
                members_end(input, end + 1, to, false)
            } else if at < end < to && input[end] == MAP_END {
                Some(end + 1)
            } else {
                None
            },
            None => None,
        }
    }
}

/// Whether the input is a JSON map without white space between its tokens,
/// followed by nothing but white space: its members go on behind its first
/// byte, and the map ends with its last byte that is no white space.
pub open spec fn valid_document(input: Seq<u8>) -> bool {
    match scan_bounds(input) {
        Some((start, end)) => members_end(input, start, end + 1, true) == Some(end + 1),
        None => false,
    }
}

/// The kind of primitive that a scan is inside of once it has looked at
/// the byte as the start of a value.
pub open spec fn kind_at(c: u8) -> ActivePrimitiveKind {
    if is_num_start(c) {
        ActivePrimitiveKind::Num
    } else if is_atom_start(c) {
        ActivePrimitiveKind::Atom
    } else {
        ActivePrimitiveKind::Idle
    }
}

/// If both ways agree up to a place and on from there, they agree all the
/// way.
pub proof fn lemma_regular_join(s: ScanState, input: Seq<u8>, mid: int, to: int)
    requires
        s.cursor <= mid <= to,
        s.regular_to(input, mid),
        s.run_to(input, mid).regular_to(input, to),
    ensures
        s.regular_to(input, to),
    decreases mid - s.cursor,
{
    if s.cursor < mid {
        lemma_regular_join(s.step(input), input, mid, to);
    }
}

/// Outside of any primitive, the start of a value puts the scan inside of
/// the kind of primitive that starts with the byte.
pub proof fn lemma_primitive_kind(s: ScanState, input: Seq<u8>, at: int)
    requires
        s.active.active_primitive.kind == ActivePrimitiveKind::Idle,
    ensures
        s.primitive_at(input, at).active.active_primitive.kind == kind_at(input[at]),
{
    reveal(ScanState::primitive_at);
}

/// What a `:`, a `,` or a bracket does to a scan that is outside of a
/// string: both ways agree on it; behind a `:`, a `,` or a `[` the scan is
/// inside of the kind of primitive that starts with the next byte; behind a
/// `{` it is outside of any; and behind a `}` or a `]` it is outside of a
/// string.
pub proof fn lemma_structural_step(s: ScanState, input: Seq<u8>)
    requires
        s.settled(),
        s.active.active_primitive.kind != ActivePrimitiveKind::Str,
        ({
            let c = input[s.cursor];
            ||| c == COMMA
            ||| c == MAP_END
            ||| c == ARR_END
            ||| (c == COLON || c == MAP_BEGIN || c == ARR_BEGIN)
                && s.active.active_primitive.kind == ActivePrimitiveKind::Idle
        }),
    ensures
        s.agrees(input),
        s.step(input).settled(),
        s.step(input).cursor == s.cursor + 1,
        s.step(input).active.active_primitive.kind != ActivePrimitiveKind::Str,
        ({
            let c = input[s.cursor];
            let kind = s.step(input).active.active_primitive.kind;
            &&& c == COLON || c == COMMA || c == ARR_BEGIN ==> kind == kind_at(
                input[s.cursor + 1],
            )
            &&& c == MAP_BEGIN ==> kind == ActivePrimitiveKind::Idle
        }),
{
    let at = s.cursor;
    let c = input[at];
    lemma_handled(s, input);
    lemma_step_settled(s, input);
    reveal(ScanState::interest_at);
    if c == COLON {
        lemma_primitive_kind(s, input, at + 1);
    } else if c == COMMA {
        lemma_primitive_kind(s.num_end_at(at), input, at + 1);
    } else if c == ARR_BEGIN {
        let pushed = s.pushed(OffsetKind::Arr(0));
        let begun = pushed.begun(crate::de::state::ActiveMapArr::arr_at(pushed.table.len() as u16));
        lemma_primitive_kind(begun, input, at + 1);
    }
}

/// What a `"` does to a scan that is outside of any primitive: both ways
/// agree on it, and behind it the scan is inside of a string.
pub proof fn lemma_quote_opens(s: ScanState, input: Seq<u8>)
    requires
        s.settled(),
        s.active.active_primitive.kind == ActivePrimitiveKind::Idle,
        input[s.cursor] == QUOTE,
    ensures
        s.agrees(input),
        s.step(input).settled(),
        s.step(input).cursor == s.cursor + 1,
        s.step(input).active.active_primitive.kind == ActivePrimitiveKind::Str,
        !s.step(input).escape,
{
    lemma_handled(s, input);
    lemma_step_settled(s, input);
    reveal(ScanState::interest_at);
}

/// What a byte does to a scan that is inside of a string: an escaped byte
/// is taken in; a `"` ends the string; a `\` before a `"` or a `\` escapes
/// that byte; and any other byte is passed over.
pub proof fn lemma_string_step(s: ScanState, input: Seq<u8>)
    requires
        s.settled(),
        s.active.active_primitive.kind == ActivePrimitiveKind::Str,
    ensures
        s.agrees(input),
        s.step(input).settled(),
        s.step(input).cursor == s.cursor + 1,
        ({
            let c = input[s.cursor];
            let r = s.step(input);
            let kind = r.active.active_primitive.kind;
            if c == QUOTE && !s.escape {
                kind == ActivePrimitiveKind::Idle
            } else if is_quote_escape(c) && s.escape {
                kind == ActivePrimitiveKind::Str && !r.escape
            } else if c == ESCAPE {
                kind == ActivePrimitiveKind::Str && r.escape == is_quote_escape(
                    input[s.cursor + 1],
                )
            } else {
                kind == ActivePrimitiveKind::Str && r.escape == s.escape
            }
        }),
{
    lemma_handled(s, input);
    lemma_step_settled(s, input);
    reveal(ScanState::interest_at);
}

/// Both ways agree on a string, and behind it the scan is outside of any
/// primitive.
pub proof fn lemma_string_regular(s: ScanState, input: Seq<u8>, to: int)
    requires
        s.settled(),
        s.active.active_primitive.kind == ActivePrimitiveKind::Str,
        !s.escape,
        0 <= s.cursor,
        to <= input.len(),
        string_end(input, s.cursor, to) is Some,
    ensures
        s.cursor < string_end(input, s.cursor, to)->0 <= to,
        s.regular_to(input, string_end(input, s.cursor, to)->0),
        s.run_to(input, string_end(input, s.cursor, to)->0).idle_at(
            string_end(input, s.cursor, to)->0,
        ),
    decreases to - s.cursor,
{
    let at = s.cursor;
    let end = string_end(input, at, to)->0;
    let c = input[at];
    lemma_string_step(s, input);
    let s1 = s.step(input);
    if c == QUOTE {
        assert(end == at + 1);
        assert(s1.regular_to(input, end));
        assert(s1.run_to(input, end) == s1);
    } else if c == ESCAPE {
        assert(at + 1 < to);
        assert(string_end(input, at + 2, to) == Some(end));
        lemma_string_step(s1, input);
        let s2 = s1.step(input);
        lemma_string_regular(s2, input, to);
        assert(s1.cursor < end);
        assert(s1.regular_to(input, end));
        assert(s1.run_to(input, end) == s2.run_to(input, end));
    } else {
        assert(string_end(input, at + 1, to) == Some(end));
        lemma_string_regular(s1, input, to);
    }
    assert(s.cursor < end);
    assert(s.regular_to(input, end));
    assert(s.run_to(input, end) == s1.run_to(input, end));
    lemma_run_to_split(s, input, end, end);
}

/// Both ways agree on what is left of a number or an atom, and the scan
/// stays inside of it.
pub proof fn lemma_token_regular(s: ScanState, input: Seq<u8>, to: int)
    requires
        s.settled(),
        s.active.active_primitive.kind == ActivePrimitiveKind::Num
            || s.active.active_primitive.kind == ActivePrimitiveKind::Atom,
        0 <= s.cursor <= to,
    ensures
        s.cursor <= token_end(input, s.cursor, to) <= to,
        s.regular_to(input, token_end(input, s.cursor, to)),
        s.run_to(input, token_end(input, s.cursor, to)) == s.lifted(
            token_end(input, s.cursor, to),
            s.simd.masks,
        ),
        token_end(input, s.cursor, to) < to ==> is_interest(
            input[token_end(input, s.cursor, to)],
        ),
    decreases to - s.cursor,
{
    let at = s.cursor;
    if at >= to || is_interest(input[at]) {
        assert(s.lifted(at, s.simd.masks) == s);
    } else {
        lemma_handled(s, input);
        let s1 = s.step(input);
        assert(s1 == s.lifted(at + 1, s.simd.masks));
        lemma_token_regular(s1, input, to);
    }
}

impl ScanState {
    /// Whether the scan has read up to `at` and is ready for the value that
    /// begins there: it is inside of the kind of primitive that starts with
    /// the byte at `at`.
    pub open spec fn before_value(self, input: Seq<u8>, at: int) -> bool {
        &&& self.settled()
        &&& self.cursor == at
        &&& 0 <= at
        &&& self.active.active_primitive.kind == kind_at(input[at])
    }

    /// Whether the scan has read up to `at` and is outside of any primitive.
    pub open spec fn idle_at(self, at: int) -> bool {
        &&& self.settled()
        &&& self.cursor == at
        &&& 0 <= at
        &&& self.active.active_primitive.kind == ActivePrimitiveKind::Idle
    }

    /// Whether the scan has read up to `at` and is outside of a string.
    pub open spec fn behind_value(self, at: int) -> bool {
        &&& self.settled()
        &&& self.cursor == at
        &&& self.active.active_primitive.kind != ActivePrimitiveKind::Str
    }
}

/// Both ways agree on a value, and behind it the scan is outside of a
/// string.
pub proof fn lemma_value_regular(s: ScanState, input: Seq<u8>, to: int)
    requires
        s.before_value(input, s.cursor),
        to <= input.len(),
        value_end(input, s.cursor, to) is Some,
    ensures
        s.cursor < value_end(input, s.cursor, to)->0 <= to,
        s.regular_to(input, value_end(input, s.cursor, to)->0),
        s.run_to(input, value_end(input, s.cursor, to)->0).behind_value(
            value_end(input, s.cursor, to)->0,
        ),
    decreases to - s.cursor, 0int,
{
    let at = s.cursor;
    let end = value_end(input, at, to)->0;
    let c = input[at];
    let s1 = s.step(input);
    if c == QUOTE {
        lemma_quote_opens(s, input);
        assert(string_end(input, at + 1, to) == Some(end));
        lemma_string_regular(s1, input, to);
    } else if is_num_start(c) || is_atom_start(c) {
        assert(end == token_end(input, at + 1, to));
        lemma_handled(s, input);
        assert(s1 == s.lifted(at + 1, s.simd.masks));
        lemma_token_regular(s1, input, to);
        assert(s1.run_to(input, end) == s1.lifted(end, s1.simd.masks));
    } else if c == MAP_BEGIN {
        lemma_structural_step(s, input);
        assert(members_end(input, at + 1, to, true) == Some(end));
        lemma_members_regular(s1, input, to, true);
    } else {
        assert(c == ARR_BEGIN);
        lemma_structural_step(s, input);
        assert(elements_end(input, at + 1, to, true) == Some(end));
        lemma_elements_regular(s1, input, to, true);
    }
    assert(s.regular_to(input, end));
    assert(s.run_to(input, end) == s1.run_to(input, end));
    lemma_run_to_split(s, input, end, end);
}

/// Both ways agree on the elements of an array and its `]`, and behind
/// it the scan is outside of a string.
pub proof fn lemma_elements_regular(s: ScanState, input: Seq<u8>, to: int, first: bool)
    requires
        s.before_value(input, s.cursor),
        to <= input.len(),
        elements_end(input, s.cursor, to, first) is Some,
    ensures
        s.cursor < elements_end(input, s.cursor, to, first)->0 <= to,
        s.regular_to(input, elements_end(input, s.cursor, to, first)->0),
        s.run_to(input, elements_end(input, s.cursor, to, first)->0).behind_value(
            elements_end(input, s.cursor, to, first)->0,
        ),
        s.run_to(input, elements_end(input, s.cursor, to, first)->0 - 1).behind_value(
            elements_end(input, s.cursor, to, first)->0 - 1,
        ),
        input[elements_end(input, s.cursor, to, first)->0 - 1] == ARR_END,
    decreases to - s.cursor, 1int,
{
    let at = s.cursor;
    let end = elements_end(input, at, to, first)->0;
    if first && input[at] == ARR_END {
        lemma_structural_step(s, input);
        let s1 = s.step(input);
        assert(s1.regular_to(input, end));
        assert(s1.run_to(input, end) == s1);
        assert(s.regular_to(input, end));
        assert(s.run_to(input, end) == s1);
        assert(s.run_to(input, end - 1) == s);
    } else {
        assert(value_end(input, at, to) is Some);
        let mid = value_end(input, at, to)->0;
        assert(at < mid < to && (input[mid] == COMMA || input[mid] == ARR_END));
        lemma_value_regular(s, input, to);
        let r = s.run_to(input, mid);
        lemma_structural_step(r, input);
        let r1 = r.step(input);
        if input[mid] == COMMA {
            assert(elements_end(input, mid + 1, to, false) == Some(end));
            lemma_elements_regular(r1, input, to, false);
            lemma_run_to_split(s, input, mid, end - 1);
            assert(r.run_to(input, end - 1) == r1.run_to(input, end - 1));
        } else {
            assert(r1.regular_to(input, end));
            assert(r1.run_to(input, end) == r1);
        }
        assert(r.regular_to(input, end));
        assert(r.run_to(input, end) == r1.run_to(input, end));
        lemma_regular_join(s, input, mid, end);
        lemma_run_to_split(s, input, mid, end);
    }
}

/// Both ways agree on a member of a map, and behind it the scan is outside
/// of a string.
pub proof fn lemma_member_regular(s: ScanState, input: Seq<u8>, to: int)
    requires
        s.idle_at(s.cursor),
        to <= input.len(),
        member_end(input, s.cursor, to) is Some,
    ensures
        s.cursor < member_end(input, s.cursor, to)->0 <= to,
        s.regular_to(input, member_end(input, s.cursor, to)->0),
        s.run_to(input, member_end(input, s.cursor, to)->0).behind_value(
            member_end(input, s.cursor, to)->0,
        ),
    decreases to - s.cursor, 1int,
{
    let at = s.cursor;
    let end = member_end(input, at, to)->0;
    assert(input[at] == QUOTE);
    assert(string_end(input, at + 1, to) is Some);
    let colon = string_end(input, at + 1, to)->0;
    assert(at < colon < to && input[colon] == COLON);
    assert(value_end(input, colon + 1, to) == Some(end));
    lemma_quote_opens(s, input);
    let s1 = s.step(input);
    lemma_string_regular(s1, input, to);
    let k = s1.run_to(input, colon);
    lemma_structural_step(k, input);
    let k1 = k.step(input);
    lemma_value_regular(k1, input, to);
    assert(k.regular_to(input, end));
    assert(k.run_to(input, end) == k1.run_to(input, end));
    lemma_regular_join(s1, input, colon, end);
    lemma_run_to_split(s1, input, colon, end);
    assert(s.regular_to(input, end));
    assert(s.run_to(input, end) == s1.run_to(input, end));
}

/// Both ways agree on the members of a map and its `}`, and behind it the
/// scan is outside of a string.
pub proof fn lemma_members_regular(s: ScanState, input: Seq<u8>, to: int, first: bool)
    requires
        s.idle_at(s.cursor),
        to <= input.len(),
        members_end(input, s.cursor, to, first) is Some,
    ensures
        s.cursor < members_end(input, s.cursor, to, first)->0 <= to,
        s.regular_to(input, members_end(input, s.cursor, to, first)->0),
        s.run_to(input, members_end(input, s.cursor, to, first)->0).behind_value(
            members_end(input, s.cursor, to, first)->0,
        ),
        s.run_to(input, members_end(input, s.cursor, to, first)->0 - 1).behind_value(
            members_end(input, s.cursor, to, first)->0 - 1,
        ),
        input[members_end(input, s.cursor, to, first)->0 - 1] == MAP_END,
    decreases to - s.cursor, 2int,
{
    let at = s.cursor;
    let end = members_end(input, at, to, first)->0;
    if first && input[at] == MAP_END {
        lemma_structural_step(s, input);
        let s1 = s.step(input);
        assert(s1.regular_to(input, end));
        assert(s1.run_to(input, end) == s1);
        assert(s.regular_to(input, end));
        assert(s.run_to(input, end) == s1);
        assert(s.run_to(input, end - 1) == s);
    } else {
        assert(member_end(input, at, to) is Some);
        let mid = member_end(input, at, to)->0;
        assert(at < mid < to && (input[mid] == COMMA || input[mid] == MAP_END));
        lemma_member_regular(s, input, to);
        let r = s.run_to(input, mid);
        lemma_structural_step(r, input);
        let r1 = r.step(input);
        if input[mid] == COMMA {
            assert(members_end(input, mid + 1, to, false) == Some(end));
            assert(member_end(input, mid + 1, to) is Some);
            assert(input[mid + 1] == QUOTE);
            lemma_members_regular(r1, input, to, false);
            lemma_run_to_split(s, input, mid, end - 1);
            assert(r.run_to(input, end - 1) == r1.run_to(input, end - 1));
        } else {
            assert(r1.regular_to(input, end));
            assert(r1.run_to(input, end) == r1);
        }
        assert(r.regular_to(input, end));
        assert(r.run_to(input, end) == r1.run_to(input, end));
        lemma_regular_join(s, input, mid, end);
        lemma_run_to_split(s, input, mid, end);
    }
}

/// Every JSON map without white space between its tokens is an input on
/// which both ways to scan agree on every byte.
pub proof fn lemma_valid_is_regular(input: Seq<u8>)
    requires
        valid_document(input),
    ensures
        regular(input),
{
    let (start, end) = scan_bounds(input)->0;
    crate::std_ext::str::lemma_trim_end_bytes_prefix(input);
    let s = ScanState::begin(start, end);
    lemma_members_regular(s, input, end + 1, true);
    lemma_regular_split(s, input, end, end + 1);
}

/// On every JSON map without white space between its tokens, a scan by
/// blocks gives the table that a scan byte by byte gives, whatever its
/// lead and the size of its blocks.
pub proof fn lemma_scans_agree_on_valid(input: Seq<u8>, lead: int, block: Block)
    requires
        valid_document(input),
        0 <= lead < BLOCK_SIZE,
    ensures
        scanned(input, lead, block) == scanned_fallback(input),
{
    lemma_valid_is_regular(input);
    lemma_scans_agree(input, lead, block);
}

} // verus!
