//! What the table of a valid document holds.
//!
//! The records are given here by the grammar alone: one record for each
//! string, number and atom, and for each map and array one record that is
//! followed by the records of its children. A record is linked to the next
//! child of the same container that has its position.

use vstd::prelude::*;
use crate::de::grammar::{
    elements_end, is_atom_start, is_num_start, lemma_elements_regular, lemma_scans_agree_on_valid, lemma_members_regular,
    lemma_primitive_kind, lemma_string_step, lemma_token_regular, lemma_value_regular, member_end,
    members_end, string_end, token_end, valid_document, value_end,
};
use crate::de::interest::{
    slice_between, ARR_BEGIN, ARR_END, COLON, COMMA, ESCAPE, LOWER_N, LOWER_T, MAP_BEGIN, MAP_END,
    QUOTE,
};
use crate::de::laws::{
    lemma_handled, lemma_pre_masked_empty, lemma_primitive_keeps, lemma_run_to_split,
    lemma_step_settled,
};
use crate::de::offsets::{has_escape, lemma_has_escape_found, Offset, OffsetKind, Part, MAX_OFFSETS};

use crate::de::state::{
    ActiveMapArr, ActivePrimitive, ActivePrimitiveKind, Parts, ScanState, MAX_DEPTH,
};
use crate::de::simd::{Block, BLOCK_SIZE};
use crate::de::{scan_bounds, scanned, scanned_fallback};

verus! {

/// The kind of the record of the string whose `"` stands at `at`.
pub open spec fn string_kind(input: Seq<u8>, at: int, to: int) -> OffsetKind {
    let close = string_end(input, at + 1, to)->0 - 1;
    OffsetKind::Str(slice_between((at + 1) as usize, close), has_escape(input, at + 1, close))
}

/// The kind of the record of the number or atom that begins at `at`.
pub open spec fn token_kind(input: Seq<u8>, at: int, to: int) -> OffsetKind {
    if is_num_start(input[at]) {
        OffsetKind::Num(slice_between(at as usize, token_end(input, at + 1, to)))
    } else if input[at] == LOWER_N {
        OffsetKind::Null
    } else {
        OffsetKind::Bool(input[at] == LOWER_T)
    }
}

/// The number of elements of the array whose elements go on at `at`.
pub open spec fn element_count(input: Seq<u8>, at: int, to: int, first: bool) -> int
    recommends
        to <= input.len(),
    decreases to - at,
{
    if at < 0 || at >= to || (first && input[at] == ARR_END) {
        0
    } else {
        match value_end(input, at, to) {
            Some(end) => if at < end < to && input[end] == COMMA {
                1 + element_count(input, end + 1, to, false)
            } else {
                1
            },
            None => 0,
        }
    }
}

/// The number of members of the map whose members go on at `at`.
pub open spec fn member_count(input: Seq<u8>, at: int, to: int, first: bool) -> int
    recommends
        to <= input.len(),
    decreases to - at,
{
    if at < 0 || at >= to || (first && input[at] == MAP_END) {
        0
    } else {
        match member_end(input, at, to) {
            Some(end) => if at < end < to && input[end] == COMMA {
                1 + member_count(input, end + 1, to, false)
            } else {
                1
            },
            None => 0,
        }
    }
}

/// How deep the value that begins at `at` nests maps and arrays: a map or
/// an array is one deeper than the deepest of its children, and any other
/// value is of depth 0.
pub open spec fn value_depth(input: Seq<u8>, at: int, to: int) -> int
    recommends
        to <= input.len(),
    decreases to - at, 0int,
{
    if at < 0 || at >= to {
        0
    } else if input[at] == MAP_BEGIN {
        1 + members_depth(input, at + 1, to, true)
    } else if input[at] == ARR_BEGIN {
        1 + elements_depth(input, at + 1, to, true)
    } else {
        0
    }
}

/// The depth of the deepest of the elements of an array that go on at `at`.
pub open spec fn elements_depth(input: Seq<u8>, at: int, to: int, first: bool) -> int
    recommends
        to <= input.len(),
    decreases to - at, 1int,
{
    if at < 0 || at >= to || (first && input[at] == ARR_END) {
        0
    } else {
        match value_end(input, at, to) {
            Some(end) => {
                let depth = value_depth(input, at, to);
                if at < end < to && input[end] == COMMA {
                    let rest = elements_depth(input, end + 1, to, false);
                    if depth >= rest {
                        depth
                    } else {
                        rest
                    }
                } else {
                    depth
                }
            },
            None => 0,
        }
    }
}

/// The depth of the deepest of the values of the members of a map that go
/// on at `at`.
pub open spec fn members_depth(input: Seq<u8>, at: int, to: int, first: bool) -> int
    recommends
        to <= input.len(),
    decreases to - at, 1int,
{
    if at < 0 || at >= to || (first && input[at] == MAP_END) {
        0
    } else {
        match (string_end(input, at + 1, to), member_end(input, at, to)) {
            (Some(colon), Some(end)) => {
                let depth = if at < colon {
                    value_depth(input, colon + 1, to)
                } else {
                    0
                };
                if at < colon && at < end < to && input[end] == COMMA {
                    let rest = members_depth(input, end + 1, to, false);
                    if depth >= rest {
                        depth
                    } else {
                        rest
                    }
                } else {
                    depth
                }
            },
            _ => 0,
        }
    }
}

/// The records of the value that begins at `at`, whose first record is the
/// one at `x` in the table and has the given position and `next` link.
pub open spec fn value_records(
    input: Seq<u8>,
    at: int,
    to: int,
    x: int,
    position: Part,
    next: Option<u16>,
) -> Seq<Offset>
    recommends
        to <= input.len(),
    decreases to - at, 0int,
{
    if at < 0 || at >= to {
        Seq::empty()
    } else if input[at] == QUOTE {
        seq![Offset { kind: string_kind(input, at, to), position, next }]
    } else if is_num_start(input[at]) || is_atom_start(input[at]) {
        seq![Offset { kind: token_kind(input, at, to), position, next }]
    } else if input[at] == MAP_BEGIN {
        seq![
            Offset {
                kind: OffsetKind::Obj(member_count(input, at + 1, to, true) as u16),
                position,
                next,
            },
        ] + member_records(input, at + 1, to, x + 1, true)
    } else if input[at] == ARR_BEGIN {
        seq![
            Offset {
                kind: OffsetKind::Arr(element_count(input, at + 1, to, true) as u16),
                position,
                next,
            },
        ] + element_records(input, at + 1, to, x + 1, true)
    } else {
        Seq::empty()
    }
}

/// The records of the elements of an array that go on at `at`, the first
/// of which is the record at `x`. Each element is linked to the next.
pub open spec fn element_records(input: Seq<u8>, at: int, to: int, x: int, first: bool) -> Seq<
    Offset,
>
    recommends
        to <= input.len(),
    decreases to - at, 1int,
{
    if at < 0 || at >= to || (first && input[at] == ARR_END) {
        Seq::empty()
    } else {
        match value_end(input, at, to) {
            Some(end) => {
                let size = value_records(input, at, to, x, Part::Elem, None).len();
                if at < end < to && input[end] == COMMA {
                    value_records(input, at, to, x, Part::Elem, Some((x + size) as u16))
                        + element_records(input, end + 1, to, x + size, false)
                } else {
                    value_records(input, at, to, x, Part::Elem, None)
                }
            },
            None => Seq::empty(),
        }
    }
}

/// The records of the members of a map that go on at `at`, the first of
/// which is the record at `x`: for each member the record of its key and
/// the records of its value. Each key is linked to the next key, and each
/// value to the next value.
pub open spec fn member_records(input: Seq<u8>, at: int, to: int, x: int, first: bool) -> Seq<
    Offset,
>
    recommends
        to <= input.len(),
    decreases to - at, 1int,
{
    if at < 0 || at >= to || (first && input[at] == MAP_END) {
        Seq::empty()
    } else {
        match (string_end(input, at + 1, to), member_end(input, at, to)) {
            (Some(colon), Some(end)) => {
                let size = value_records(input, colon + 1, to, x + 1, Part::Value, None).len();
                if at < colon && at < end < to && input[end] == COMMA {
                    seq![
                        Offset {
                            kind: string_kind(input, at, to),
                            position: Part::Key,
                            next: Some((x + 1 + size) as u16),
                        },
                    ] + value_records(
                        input,
                        colon + 1,
                        to,
                        x + 1,
                        Part::Value,
                        Some((x + 2 + size) as u16),
                    ) + member_records(input, end + 1, to, x + 1 + size, false)
                } else if at < colon {
                    seq![Offset { kind: string_kind(input, at, to), position: Part::Key, next: None }]
                        + value_records(input, colon + 1, to, x + 1, Part::Value, None)
                } else {
                    Seq::empty()
                }
            },
            _ => Seq::empty(),
        }
    }
}

/// The first record of a value has the position and the `next` link that
/// are asked for; no other record of the value depends on them.
pub proof fn lemma_value_records_head(
    input: Seq<u8>,
    at: int,
    to: int,
    x: int,
    position: Part,
    next: Option<u16>,
    other: Option<u16>,
)
    requires
        value_end(input, at, to) is Some,
    ensures
        value_records(input, at, to, x, position, next).len() >= 1,
        value_records(input, at, to, x, position, next)[0].position == position,
        value_records(input, at, to, x, position, next)[0].next == next,
        value_records(input, at, to, x, position, other) == value_records(
            input,
            at,
            to,
            x,
            position,
            next,
        ).update(0, Offset { next: other, ..value_records(input, at, to, x, position, next)[0] }),
{
    let a = value_records(input, at, to, x, position, next);
    let b = value_records(input, at, to, x, position, other);
    assert(b =~= a.update(0, Offset { next: other, ..a[0] }));
}

/// The table with the `next` link of the record that `prev` names, if it
/// names one, set to the record at `x`.
pub open spec fn patched(table: Seq<Offset>, prev: Option<u16>, x: int) -> Seq<Offset> {
    match prev {
        Some(p) => table.update(p as int, Offset { next: Some(x as u16), ..table[p as int] }),
        None => table,
    }
}

impl ScanState {
    /// Whether the scan is outside of any primitive, with nothing left over
    /// from one, and not poisoned.
    pub open spec fn quiet(self) -> bool {
        &&& self.settled()
        &&& self.active.active_primitive == ActivePrimitive::idle()
        &&& !self.error
        &&& !self.escape
        &&& self.active.fits(self.table.len() as int)
        &&& self.table.len() <= MAX_OFFSETS
        &&& self.bottom.len() <= MAX_DEPTH
    }

    /// The state at `at` after the byte there was looked at as the start
    /// of a value.
    pub open spec fn peeked(self, input: Seq<u8>, at: int) -> ScanState {
        ScanState { cursor: at, ..self.primitive_at(input, at) }
    }

    /// The state at `cursor` with the records of one more child of the open
    /// container behind the table: the child before it at its position is
    /// linked to it.
    pub open spec fn with_value(self, records: Seq<Offset>, cursor: int) -> ScanState {
        let x = self.table.len() as int;
        let position = self.active.position();
        ScanState {
            cursor,
            table: patched(self.table, self.active.prev_part_offsets.get(position), x) + records,
            active: self.active.advanced(x as u16),
            ..self
        }
    }
}

/// Appending a record is adding a child of one record.
pub proof fn lemma_pushed_is_value(s: ScanState, kind: OffsetKind)
    requires
        s.table.len() < MAX_OFFSETS,
    ensures
        s.pushed(kind) == s.with_value(
            seq![Offset { kind, position: s.active.position(), next: None }],
            s.cursor,
        ),
{
    let record = Offset { kind, position: s.active.position(), next: None };
    let linked = patched(
        s.table,
        s.active.prev_part_offsets.get(s.active.position()),
        s.table.len() as int,
    );
    assert(linked.push(record) =~= linked + seq![record]);
}

/// A poisoned scan stays poisoned over the start of a value.
pub proof fn lemma_primitive_error(s: ScanState, input: Seq<u8>, at: int)
    requires
        s.error,
    ensures
        s.primitive_at(input, at).error,
{
    reveal(ScanState::primitive_at);
}

/// A poisoned scan stays poisoned over a byte.
pub proof fn lemma_step_error(s: ScanState, input: Seq<u8>)
    requires
        s.error,
    ensures
        s.step(input).error,
        s.num_end_at(s.cursor).error,
{
    reveal(ScanState::handled);
    reveal(ScanState::interest_at);
    let at = s.cursor;
    lemma_primitive_error(s, input, at + 1);
    lemma_primitive_error(s.num_end_at(at), input, at + 1);
    let pushed = s.pushed(OffsetKind::Arr(0));
    lemma_primitive_error(
        pushed.begun(ActiveMapArr::arr_at(pushed.table.len() as u16)),
        input,
        at + 1,
    );
}

/// A poisoned scan stays poisoned.
pub proof fn lemma_run_error(s: ScanState, input: Seq<u8>, to: int)
    requires
        s.error,
    ensures
        s.run_to(input, to).error,
        s.run_to(input, to).num_end_at(to).error,
    decreases to - s.cursor,
{
    if s.cursor < to {
        lemma_step_error(s, input);
        lemma_run_error(s.step(input), input, to);
    }
}

/// What a scan does to the text of a string: it reads up to the `"` that
/// ends the string and takes note of a `\` if there is one.
pub proof fn lemma_string_body(s: ScanState, input: Seq<u8>, to: int)
    requires
        s.settled(),
        s.active.active_primitive.kind == ActivePrimitiveKind::Str,
        !s.escape,
        0 <= s.cursor,
        to <= input.len(),
        string_end(input, s.cursor, to) is Some,
    ensures
        ({
            let close = string_end(input, s.cursor, to)->0 - 1;
            let p = s.active.active_primitive;
            &&& s.cursor <= close < to
            &&& input[close] == QUOTE
            &&& s.run_to(input, close) == (ScanState {
                cursor: close,
                active: ActiveMapArr {
                    active_primitive: ActivePrimitive {
                        escaped: p.escaped || has_escape(input, s.cursor, close),
                        ..p
                    },
                    ..s.active
                },
                ..s
            })
        }),
    decreases to - s.cursor,
{
    let at = s.cursor;
    let close = string_end(input, at, to)->0 - 1;
    let c = input[at];
    let p = s.active.active_primitive;
    lemma_pre_masked_empty();
    if c == QUOTE {
        assert(!has_escape(input, at, close));
        assert(s.run_to(input, close) == s);
    } else {
        lemma_handled(s, input);
        reveal(ScanState::interest_at);
        lemma_string_step(s, input);
        let s1 = s.step(input);
        if c == ESCAPE {
            assert(at + 1 < to);
            assert(string_end(input, at + 2, to) == Some(close + 1));
            lemma_handled(s1, input);
            lemma_string_step(s1, input);
            let s2 = s1.step(input);
            assert(s2 == (ScanState {
                cursor: at + 2,
                active: ActiveMapArr {
                    active_primitive: ActivePrimitive { escaped: true, ..p },
                    ..s.active
                },
                ..s
            }));
            lemma_string_body(s2, input, to);
            lemma_has_escape_found(input, at, at, close);
            assert(s1.cursor < close);
            assert(s1.run_to(input, close) == s2.run_to(input, close));
            assert(s.run_to(input, close) == s1.run_to(input, close));
        } else {
            assert(string_end(input, at + 1, to) == Some(close + 1));
            assert(s1 == (ScanState { cursor: at + 1, ..s }));
            lemma_string_body(s1, input, to);
            assert(has_escape(input, at, close) == has_escape(input, at + 1, close)) by {
                if has_escape(input, at, close) {
                    let k = choose|k: int| at <= k < close && #[trigger] input[k] == 0x5cu8;
                    assert(k != at);
                    assert(at + 1 <= k < close);
                }
                if has_escape(input, at + 1, close) {
                    let k = choose|k: int| at + 1 <= k < close && #[trigger] input[k] == 0x5cu8;
                    assert(at <= k < close);
                }
            }
            assert(s.run_to(input, close) == s1.run_to(input, close));
        }
    }
}

/// The record of a value that has one record, as a child of the open
/// container.
pub open spec fn single(s: ScanState, kind: OffsetKind) -> Seq<Offset> {
    seq![Offset { kind, position: s.active.position(), next: None }]
}

/// A scan of a string adds the record of the string to the table.
pub proof fn lemma_string_scanned(s0: ScanState, input: Seq<u8>, at: int, to: int)
    requires
        s0.quiet(),
        0 <= at,
        to <= input.len(),
        input[at] == QUOTE,
        string_end(input, at + 1, to) is Some,
    ensures
        ({
            let end = string_end(input, at + 1, to)->0;
            let r = (ScanState { cursor: at, ..s0 }).run_to(input, end);
            &&& at < end <= to
            &&& r.active.active_primitive.kind != ActivePrimitiveKind::Str
            &&& r.error || (r == s0.with_value(single(s0, string_kind(input, at, to)), end)
                && r.table.len() <= MAX_OFFSETS)
            &&& s0.table.len() < MAX_OFFSETS ==> !r.error
        }),
{
    let end = string_end(input, at + 1, to)->0;
    let close = end - 1;
    let s1 = ScanState { cursor: at, ..s0 };
    lemma_pre_masked_empty();
    lemma_handled(s1, input);
    reveal(ScanState::interest_at);
    let open = s1.step(input);
    lemma_step_settled(s1, input);
    lemma_string_body(open, input, to);
    let body = open.run_to(input, close);
    lemma_handled(body, input);
    let closed = body.step(input);
    assert(body.settled());
    lemma_step_settled(body, input);
    if body.table.len() < MAX_OFFSETS {
        let cleared = body.with_primitive(ActivePrimitive::idle()).with_mask_interest();
        lemma_pushed_is_value(cleared, string_kind(input, at, to));
    }
    assert(s1.run_to(input, end) == open.run_to(input, end));
    lemma_run_to_split(open, input, close, end);
    assert(closed.run_to(input, end) == closed);
    assert(body.run_to(input, end) == closed);
    let r = s1.run_to(input, end);
    assert(r == closed);
    let p = ActivePrimitive {
        kind: ActivePrimitiveKind::Str,
        input_offset: (at + 1) as usize,
        escaped: false,
    };
    assert(open.active.active_primitive == p);
    assert(body.active.active_primitive == (ActivePrimitive {
        escaped: has_escape(input, at + 1, close),
        ..p
    }));
    if body.table.len() >= MAX_OFFSETS {
        assert(closed.error);
    } else {
        let cleared = body.with_primitive(ActivePrimitive::idle()).with_mask_interest();
        assert(cleared == (ScanState { cursor: close, ..s0 }));
        assert(closed == (ScanState {
            cursor: end,
            ..cleared.pushed(string_kind(input, at, to))
        }));
    }
}

/// A scan of a number or an atom adds its record to the table: the record
/// of an atom at once, and the record of a number when the byte behind the
/// number ends it.
pub proof fn lemma_token_scanned(s0: ScanState, input: Seq<u8>, at: int, to: int)
    requires
        s0.quiet(),
        0 <= at < to,
        to <= input.len(),
        is_num_start(input[at]) || is_atom_start(input[at]),
    ensures
        ({
            let end = token_end(input, at + 1, to);
            let r = s0.peeked(input, at).run_to(input, end);
            &&& at < end <= to
            &&& r.active.active_primitive.kind != ActivePrimitiveKind::Str
            &&& r.num_end_at(end).error || (r.num_end_at(end) == s0.with_value(
                single(s0, token_kind(input, at, to)),
                end,
            ) && r.num_end_at(end).table.len() <= MAX_OFFSETS)
            &&& s0.table.len() < MAX_OFFSETS ==> !r.num_end_at(end).error
        }),
{
    let end = token_end(input, at + 1, to);
    reveal(ScanState::primitive_at);
    let s1 = s0.peeked(input, at);
    if s1.error {
        lemma_run_error(s1, input, end);
    }
    if s0.table.len() < MAX_OFFSETS {
        lemma_pushed_is_value(s0, token_kind(input, at, to));
        lemma_pushed_is_value(
            s0.with_primitive(
                ActivePrimitive { kind: ActivePrimitiveKind::Atom, ..s0.active.active_primitive },
            ),
            token_kind(input, at, to),
        );
    }
    lemma_handled(s1, input);
    let s2 = s1.step(input);
    assert(s2 == s1.lifted(at + 1, s1.simd.masks));
    lemma_token_regular(s2, input, to);
    assert(s1.run_to(input, end) == s2.run_to(input, end));
    let r = s1.run_to(input, end);
    assert(r == s1.lifted(end, s1.simd.masks));
    if is_num_start(input[at]) && s0.table.len() < MAX_OFFSETS {
        lemma_pushed_is_value(
            r.with_primitive(ActivePrimitive::idle()),
            token_kind(input, at, to),
        );
    }
}

/// A scan that has taken in one more child of the open container is as
/// quiet as it was before.
pub proof fn lemma_with_value_quiet(s0: ScanState, records: Seq<Offset>, cursor: int)
    requires
        s0.quiet(),
        records.len() >= 1,
        s0.table.len() + records.len() <= MAX_OFFSETS,
    ensures
        s0.with_value(records, cursor).quiet(),
        s0.with_value(records, cursor).active.len == s0.active.len + 1,
        s0.with_value(records, cursor).table.len() == s0.table.len() + records.len(),
        s0.with_value(records, cursor).active.position() != s0.active.position()
            || s0.active.parts.0 == s0.active.parts.1,
{
    let r = s0.with_value(records, cursor);
    let position = s0.active.position();
    let remembered = r.active.prev_part_offsets;
    assert forall|p: Part| (#[trigger] remembered.get(p)) is Some implies remembered.get(p)->0
        < r.table.len() by {
        if p != position {
            assert(remembered.get(p) == s0.active.prev_part_offsets.get(p));
        }
    }
}

/// What a `,` behind a value does: it ends a number, and the byte behind
/// it is looked at as the start of a value.
pub proof fn lemma_comma_step(u: ScanState, input: Seq<u8>)
    requires
        u.active.active_primitive.kind != ActivePrimitiveKind::Str,
        input[u.cursor] == COMMA,
    ensures
        u.step(input) == u.num_end_at(u.cursor).peeked(input, u.cursor + 1),
{
    reveal(ScanState::handled);
    reveal(ScanState::interest_at);
}

/// What a `}` or a `]` behind a value does: it ends a number and closes
/// the open container.
pub proof fn lemma_close_step(u: ScanState, input: Seq<u8>)
    requires
        u.active.active_primitive.kind != ActivePrimitiveKind::Str,
        input[u.cursor] == MAP_END || input[u.cursor] == ARR_END,
    ensures
        u.step(input) == (ScanState {
            cursor: u.cursor + 1,
            ..u.num_end_at(u.cursor).ended(
                if input[u.cursor] == MAP_END {
                    OffsetKind::Obj(u.num_end_at(u.cursor).active.len / 2)
                } else {
                    OffsetKind::Arr(u.num_end_at(u.cursor).active.len)
                },
            )
        }),
{
    reveal(ScanState::handled);
    reveal(ScanState::interest_at);
}

/// What a `:`, a `{` or a `[` does to a quiet scan: behind a `:` the next
/// byte is looked at as the start of a value; a bracket adds the record of
/// its container and opens the container, and behind a `[` the next byte is
/// looked at as the start of a value.
pub proof fn lemma_open_step(s: ScanState, input: Seq<u8>)
    requires
        s.quiet(),
        input[s.cursor] == COLON || input[s.cursor] == MAP_BEGIN || input[s.cursor] == ARR_BEGIN,
    ensures
        input[s.cursor] == COLON ==> s.step(input) == s.peeked(input, s.cursor + 1),
        input[s.cursor] == MAP_BEGIN ==> s.step(input) == (ScanState {
            cursor: s.cursor + 1,
            ..s.map_begin_at()
        }),
        input[s.cursor] == ARR_BEGIN ==> s.step(input) == ({
            let pushed = s.pushed(OffsetKind::Arr(0));
            pushed.begun(ActiveMapArr::arr_at(pushed.table.len() as u16)).peeked(
                input,
                s.cursor + 1,
            )
        }),
{
    reveal(ScanState::handled);
    reveal(ScanState::interest_at);
}

/// A byte that starts no number and no atom leaves a scan as it is when it
/// is looked at as the start of a value, if it is a `"` or a bracket.
pub proof fn lemma_peek_nothing(s: ScanState, input: Seq<u8>, at: int)
    requires
        input[at] == QUOTE || input[at] == MAP_BEGIN || input[at] == ARR_BEGIN || input[at]
            == MAP_END || input[at] == ARR_END,
    ensures
        s.peeked(input, at) == (ScanState { cursor: at, ..s }),
{
    reveal(ScanState::primitive_at);
}

impl ScanState {
    /// Whether `r` is the state at `cursor` that `self` comes to by adding
    /// `n` children to the open container, which make the table `table`.
    pub open spec fn grown(self, r: ScanState, cursor: int, table: Seq<Offset>, n: int) -> bool {
        &&& r == (ScanState { cursor, table, active: r.active, ..self })
        &&& r.active.len == self.active.len + n
        &&& r.active.start_from_offset == self.active.start_from_offset
        &&& r.active.parts == self.active.parts
        &&& r.table.len() <= MAX_OFFSETS
        &&& r.quiet()
    }

    /// The state after the record of a container was added and the
    /// container was opened.
    pub open spec fn opened(self, kind: OffsetKind, fresh: ActiveMapArr) -> ScanState {
        let x = self.table.len() as int;
        let position = self.active.position();
        ScanState {
            table: patched(self.table, self.active.prev_part_offsets.get(position), x) + seq![
                Offset { kind, position, next: None },
            ],
            active: fresh,
            bottom: self.bottom.push(self.active.advanced(x as u16)),
            ..self
        }
    }

    /// Whether the table has room for `size` more records, and the stack
    /// for containers that nest `depth` deep.
    pub open spec fn fits_in(self, size: int, depth: int) -> bool {
        self.table.len() + size <= MAX_OFFSETS && self.bottom.len() + depth <= MAX_DEPTH
    }

    /// Whether the table and the stack have room for one more container.
    pub open spec fn has_room(self) -> bool {
        self.table.len() < MAX_OFFSETS && self.bottom.len() < MAX_DEPTH
    }
}

/// The records of a container: its own record and the records of its
/// children.
pub open spec fn container_records(kind: OffsetKind, position: Part, body: Seq<Offset>) -> Seq<
    Offset,
> {
    seq![Offset { kind, position, next: None }] + body
}

/// A quiet scan that has looked at a byte as the start of a value is ready
/// for the value.
pub proof fn lemma_peeked_before_value(s0: ScanState, input: Seq<u8>, at: int)
    requires
        s0.quiet(),
        0 <= at,
    ensures
        s0.peeked(input, at).before_value(input, at),
{
    lemma_primitive_keeps(s0, input, at);
    lemma_primitive_kind(s0, input, at);
}

/// What a `{` or a `[` does to a quiet scan: it adds the record of the
/// container and opens it, if the table and the stack have room, and
/// poisons the scan if they have not.
pub proof fn lemma_container_opened(s: ScanState, input: Seq<u8>)
    requires
        s.quiet(),
        input[s.cursor] == MAP_BEGIN || input[s.cursor] == ARR_BEGIN,
    ensures
        ({
            let x = s.table.len() as int;
            let map = s.opened(OffsetKind::Obj(0), ActiveMapArr::map_at((x + 1) as u16));
            let arr = s.opened(OffsetKind::Arr(0), ActiveMapArr::arr_at((x + 1) as u16));
            &&& !s.has_room() ==> s.step(input).error
            &&& s.has_room() && input[s.cursor] == MAP_BEGIN ==> s.step(input) == (ScanState {
                cursor: s.cursor + 1,
                ..map
            }) && map.quiet()
            &&& s.has_room() && input[s.cursor] == ARR_BEGIN ==> s.step(input) == arr.peeked(
                input,
                s.cursor + 1,
            ) && arr.quiet()
        }),
{
    let x = s.table.len() as int;
    let at = s.cursor;
    lemma_open_step(s, input);
    if input[at] == MAP_BEGIN {
        let pushed = s.pushed(OffsetKind::Obj(0));
        if s.has_room() {
            lemma_pushed_is_value(s, OffsetKind::Obj(0));
            lemma_with_value_quiet(
                s,
                seq![Offset { kind: OffsetKind::Obj(0), position: s.active.position(), next: None }],
                at,
            );
            let map = s.opened(OffsetKind::Obj(0), ActiveMapArr::map_at((x + 1) as u16));
            assert(s.map_begin_at() == map);
            assert(map.quiet()) by {
                assert forall|i: int| 0 <= i < map.bottom.len() implies (
                #[trigger] map.bottom[i]).active_primitive.kind != ActivePrimitiveKind::Str by {
                    if i < s.bottom.len() {
                        assert(map.bottom[i] == s.bottom[i]);
                    }
                }
                assert(map.active.fits(map.table.len() as int));
            }
        }
    } else {
        let pushed = s.pushed(OffsetKind::Arr(0));
        let begun = pushed.begun(ActiveMapArr::arr_at(pushed.table.len() as u16));
        if s.has_room() {
            lemma_pushed_is_value(s, OffsetKind::Arr(0));
            lemma_with_value_quiet(
                s,
                seq![Offset { kind: OffsetKind::Arr(0), position: s.active.position(), next: None }],
                at,
            );
            let arr = s.opened(OffsetKind::Arr(0), ActiveMapArr::arr_at((x + 1) as u16));
            assert(begun == arr);
            assert(arr.quiet()) by {
                assert forall|i: int| 0 <= i < arr.bottom.len() implies (
                #[trigger] arr.bottom[i]).active_primitive.kind != ActivePrimitiveKind::Str by {
                    if i < s.bottom.len() {
                        assert(arr.bottom[i] == s.bottom[i]);
                    }
                }
                assert(arr.active.fits(arr.table.len() as int));
            }
        } else {
            lemma_primitive_error(begun, input, at + 1);
        }
    }
}

/// What a `}` or a `]` does behind the children of a container: it gives
/// the record of the container its kind, and the container counts as one
/// more child of the container around it.
pub proof fn lemma_container_closed(
    s: ScanState,
    inner: ScanState,
    w: ScanState,
    kind0: OffsetKind,
    kind: OffsetKind,
    body: Seq<Offset>,
    end: int,
)
    requires
        s.quiet(),
        s.has_room(),
        inner == s.opened(kind0, inner.active),
        inner.active.start_from_offset == s.table.len() + 1,
        w == (ScanState { cursor: w.cursor, table: inner.table + body, active: w.active, ..inner }),
        w.active.start_from_offset == inner.active.start_from_offset,
        w.table.len() <= MAX_OFFSETS,
    ensures
        ({
            let closed = ScanState { cursor: end, ..w.ended(kind) };
            &&& closed == s.with_value(container_records(kind, s.active.position(), body), end)
            &&& closed.num_end_at(end) == closed
            &&& closed.table.len() <= MAX_OFFSETS
        }),
{
    let x = s.table.len() as int;
    let position = s.active.position();
    let base = patched(s.table, s.active.prev_part_offsets.get(position), x);
    lemma_with_value_quiet(s, seq![Offset { kind: kind0, position, next: None }], end);
    assert(base.len() == x);
    let closed = ScanState { cursor: end, ..w.ended(kind) };
    assert(w.bottom.len() > 0);
    assert(w.bottom.last() == s.active.advanced(x as u16));
    assert(w.bottom.drop_last() =~= s.bottom);
    assert(w.table[x] == (Offset { kind: kind0, position, next: None }));
    assert(closed.table =~= base + container_records(kind, position, body));
}

/// A scan of a value adds the records of the value to the table, as those
/// of one more child of the open container, unless it is poisoned.
pub proof fn lemma_value_scanned(s0: ScanState, input: Seq<u8>, at: int, to: int)
    requires
        s0.quiet(),
        0 <= at,
        to <= input.len(),
        value_end(input, at, to) is Some,
    ensures
        ({
            let end = value_end(input, at, to)->0;
            let u = s0.peeked(input, at).run_to(input, end);
            let r = u.num_end_at(end);
            let records = value_records(
                input,
                at,
                to,
                s0.table.len() as int,
                s0.active.position(),
                None,
            );
            &&& at < end <= to
            &&& u.cursor == end
            &&& u.active.active_primitive.kind != ActivePrimitiveKind::Str
            &&& records.len() >= 1
            &&& r.error || (r == s0.with_value(records, end) && r.table.len() <= MAX_OFFSETS)
            &&& s0.fits_in(records.len() as int, value_depth(input, at, to)) ==> !r.error
            &&& r.error || s0.bottom.len() + value_depth(input, at, to) <= MAX_DEPTH
        }),
    decreases to - at, 1int,
{
    let end = value_end(input, at, to)->0;
    let c = input[at];
    let s1 = s0.peeked(input, at);
    lemma_peeked_before_value(s0, input, at);
    lemma_value_regular(s1, input, to);
    if c == QUOTE {
        lemma_peek_nothing(s0, input, at);
        lemma_string_scanned(s0, input, at, to);
        let u = s1.run_to(input, end);
        if !u.error {
            assert(u.num_end_at(end) == u);
        }
    } else if is_num_start(c) || is_atom_start(c) {
        lemma_token_scanned(s0, input, at, to);
    } else if c == MAP_BEGIN {
        lemma_peek_nothing(s0, input, at);
        lemma_map_scanned(s0, input, at, to);
    } else {
        lemma_peek_nothing(s0, input, at);
        lemma_array_scanned(s0, input, at, to);
    }
}

/// A scan of an array adds the records of the array to the table, unless
/// it is poisoned.
pub proof fn lemma_array_scanned(s0: ScanState, input: Seq<u8>, at: int, to: int)
    requires
        s0.quiet(),
        0 <= at < to,
        to <= input.len(),
        input[at] == ARR_BEGIN,
        elements_end(input, at + 1, to, true) is Some,
    ensures
        ({
            let end = elements_end(input, at + 1, to, true)->0;
            let u = (ScanState { cursor: at, ..s0 }).run_to(input, end);
            let r = u.num_end_at(end);
            let x = s0.table.len() as int;
            let records = container_records(
                OffsetKind::Arr(element_count(input, at + 1, to, true) as u16),
                s0.active.position(),
                element_records(input, at + 1, to, x + 1, true),
            );
            &&& r.error || (r == s0.with_value(records, end) && r.table.len() <= MAX_OFFSETS)
            &&& s0.fits_in(records.len() as int, 1 + elements_depth(input, at + 1, to, true))
                ==> !r.error
            &&& r.error || s0.bottom.len() + 1 + elements_depth(input, at + 1, to, true)
                <= MAX_DEPTH
        }),
    decreases to - at, 0int,
{
    let end = elements_end(input, at + 1, to, true)->0;
    let close = end - 1;
    let x = s0.table.len() as int;
    let s1 = ScanState { cursor: at, ..s0 };
    lemma_elements_bounds(input, at + 1, to, true);
    lemma_depth_nonneg(input, at + 1, to, true);
    lemma_container_opened(s1, input);
    let opened = s1.step(input);
    assert(s1.run_to(input, end) == opened.run_to(input, end));
    if !s0.has_room() {
        lemma_run_error(opened, input, end);
    } else {
        let inner = s1.opened(OffsetKind::Arr(0), ActiveMapArr::arr_at((x + 1) as u16));
        assert(inner.table.len() == x + 1 && inner.bottom.len() == s0.bottom.len() + 1) by {
            lemma_with_value_quiet(
                s1,
                seq![Offset { kind: OffsetKind::Arr(0), position: s1.active.position(), next: None }],
                at,
            );
        }
        lemma_elements_scanned(inner, input, at + 1, to, true);
        let v = opened.run_to(input, close);
        let w = v.num_end_at(close);
        lemma_run_to_split(opened, input, close, end);
        lemma_close_step(v, input);
        let closed = v.step(input);
        assert(closed.run_to(input, end) == closed);
        assert(v.run_to(input, end) == closed);
        if w.error {
            assert(closed.num_end_at(end).error);
        } else {
            let n = element_count(input, at + 1, to, true);
            let body = element_records(input, at + 1, to, x + 1, true);
            assert(w.table == inner.table + body) by {
                lemma_no_children(input, at + 1, to, x + 1);
                if n == 0 {
                    assert(inner.table + body =~= inner.table);
                }
            }
            assert(w.active.len == n);
            lemma_container_closed(
                s1,
                inner,
                w,
                OffsetKind::Arr(0),
                OffsetKind::Arr(n as u16),
                body,
                end,
            );
        }
    }
}

/// A scan of a map adds the records of the map to the table, unless it is
/// poisoned.
pub proof fn lemma_map_scanned(s0: ScanState, input: Seq<u8>, at: int, to: int)
    requires
        s0.quiet(),
        0 <= at < to,
        to <= input.len(),
        input[at] == MAP_BEGIN,
        members_end(input, at + 1, to, true) is Some,
    ensures
        ({
            let end = members_end(input, at + 1, to, true)->0;
            let u = (ScanState { cursor: at, ..s0 }).run_to(input, end);
            let r = u.num_end_at(end);
            let x = s0.table.len() as int;
            let records = container_records(
                OffsetKind::Obj(member_count(input, at + 1, to, true) as u16),
                s0.active.position(),
                member_records(input, at + 1, to, x + 1, true),
            );
            &&& r.error || (r == s0.with_value(records, end) && r.table.len() <= MAX_OFFSETS)
            &&& s0.fits_in(records.len() as int, 1 + members_depth(input, at + 1, to, true))
                ==> !r.error
            &&& r.error || s0.bottom.len() + 1 + members_depth(input, at + 1, to, true)
                <= MAX_DEPTH
        }),
    decreases to - at, 0int,
{
    let end = members_end(input, at + 1, to, true)->0;
    let close = end - 1;
    let x = s0.table.len() as int;
    let s1 = ScanState { cursor: at, ..s0 };
    lemma_members_bounds(input, at + 1, to, true);
    lemma_depth_nonneg(input, at + 1, to, true);
    lemma_container_opened(s1, input);
    let opened = s1.step(input);
    assert(s1.run_to(input, end) == opened.run_to(input, end));
    if !s0.has_room() {
        lemma_run_error(opened, input, end);
    } else {
        let inner = s1.opened(OffsetKind::Obj(0), ActiveMapArr::map_at((x + 1) as u16));
        assert(inner.table.len() == x + 1 && inner.bottom.len() == s0.bottom.len() + 1) by {
            lemma_with_value_quiet(
                s1,
                seq![Offset { kind: OffsetKind::Obj(0), position: s1.active.position(), next: None }],
                at,
            );
        }
        lemma_members_scanned(opened, input, at + 1, to, true);
        let v = opened.run_to(input, close);
        let w = v.num_end_at(close);
        lemma_run_to_split(opened, input, close, end);
        lemma_close_step(v, input);
        let closed = v.step(input);
        assert(closed.run_to(input, end) == closed);
        assert(v.run_to(input, end) == closed);
        if w.error {
            assert(closed.num_end_at(end).error);
        } else {
            let n = member_count(input, at + 1, to, true);
            let body = member_records(input, at + 1, to, x + 1, true);
            assert(w.table == inner.table + body) by {
                lemma_no_children(input, at + 1, to, x + 1);
                if n == 0 {
                    assert(inner.table + body =~= inner.table);
                } else {
                    assert(patched_member(opened) == opened.table);
                }
            }
            assert(w.active.len == 2 * n);
            assert(w.active.len / 2 == n);
            lemma_container_closed(
                s1,
                inner,
                w,
                OffsetKind::Obj(0),
                OffsetKind::Obj(n as u16),
                body,
                end,
            );
        }
    }
}

/// A value has at least one byte.
pub proof fn lemma_value_bounds(input: Seq<u8>, at: int, to: int)
    requires
        value_end(input, at, to) is Some,
        0 <= at,
        to <= input.len(),
    ensures
        at < value_end(input, at, to)->0 <= to,
{
    let s = ScanState::begin(at, to);
    let s1 = s.peeked(input, at);
    assert(s.quiet()) by {
        assert(s.active.fits(0));
    }
    lemma_peeked_before_value(s, input, at);
    lemma_value_regular(s1, input, to);
}

/// Where the elements of an array end, and how many there are.
pub proof fn lemma_elements_bounds(input: Seq<u8>, at: int, to: int, first: bool)
    requires
        elements_end(input, at, to, first) is Some,
    ensures
        at < elements_end(input, at, to, first)->0 <= to,
        input[elements_end(input, at, to, first)->0 - 1] == ARR_END,
        element_count(input, at, to, first) >= 0,
        !(first && input[at] == ARR_END) ==> element_count(input, at, to, first) >= 1,
    decreases to - at,
{
    if first && input[at] == ARR_END {
    } else {
        let mid = value_end(input, at, to)->0;
        if input[mid] == COMMA {
            lemma_elements_bounds(input, mid + 1, to, false);
        }
    }
}

/// Where the members of a map end, and how many there are.
pub proof fn lemma_members_bounds(input: Seq<u8>, at: int, to: int, first: bool)
    requires
        members_end(input, at, to, first) is Some,
    ensures
        at < members_end(input, at, to, first)->0 <= to,
        input[members_end(input, at, to, first)->0 - 1] == MAP_END,
        member_count(input, at, to, first) >= 0,
        !(first && input[at] == MAP_END) ==> member_count(input, at, to, first) >= 1,
    decreases to - at,
{
    if first && input[at] == MAP_END {
    } else {
        let mid = member_end(input, at, to)->0;
        if input[mid] == COMMA {
            lemma_members_bounds(input, mid + 1, to, false);
        }
    }
}

/// No value nests less than not at all.
pub proof fn lemma_depth_nonneg(input: Seq<u8>, at: int, to: int, first: bool)
    ensures
        value_depth(input, at, to) >= 0,
        elements_depth(input, at, to, first) >= 0,
        members_depth(input, at, to, first) >= 0,
    decreases to - at, 2int,
{
    if 0 <= at < to {
        lemma_depth_nonneg(input, at + 1, to, true);
        assert(value_depth(input, at, to) >= 0);
        if !(first && input[at] == ARR_END) {
            match value_end(input, at, to) {
                Some(end) => {
                    if at < end < to && input[end] == COMMA {
                        lemma_depth_nonneg(input, end + 1, to, false);
                    }
                },
                None => {},
            }
        }
        if !(first && input[at] == MAP_END) {
            match (string_end(input, at + 1, to), member_end(input, at, to)) {
                (Some(colon), Some(end)) => {
                    if at < colon {
                        lemma_depth_nonneg(input, colon + 1, to, true);
                    }
                    if at < colon && at < end < to && input[end] == COMMA {
                        lemma_depth_nonneg(input, end + 1, to, false);
                    }
                },
                _ => {},
            }
        }
    }
}

/// An array without elements has no records of elements, and a map without
/// members has none of members.
pub proof fn lemma_no_children(input: Seq<u8>, at: int, to: int, x: int)
    ensures
        elements_end(input, at, to, true) is Some && element_count(input, at, to, true) == 0
            ==> element_records(input, at, to, x, true) == Seq::<Offset>::empty(),
        members_end(input, at, to, true) is Some && member_count(input, at, to, true) == 0
            ==> member_records(input, at, to, x, true) == Seq::<Offset>::empty(),
{
    if elements_end(input, at, to, true) is Some && !(input[at] == ARR_END) {
        let mid = value_end(input, at, to)->0;
        if input[mid] == COMMA {
            lemma_elements_bounds(input, mid + 1, to, false);
        }
    }
    if members_end(input, at, to, true) is Some && !(input[at] == MAP_END) {
        let mid = member_end(input, at, to)->0;
        if input[mid] == COMMA {
            lemma_members_bounds(input, mid + 1, to, false);
        }
    }
}

/// Linking the first of some records behind a table to a later record only
/// changes the `next` link of that record.
pub proof fn lemma_link_element(base: Seq<Offset>, records: Seq<Offset>, x1: int)
    requires
        records.len() >= 1,
        base.len() <= MAX_OFFSETS,
    ensures
        patched(base + records, Some(base.len() as u16), x1) == base + records.update(
            0,
            Offset { next: Some(x1 as u16), ..records[0] },
        ),
{
    assert(patched(base + records, Some(base.len() as u16), x1) =~= base + records.update(
        0,
        Offset { next: Some(x1 as u16), ..records[0] },
    ));
}

/// A scan of the elements of an array adds their records to the table, as
/// those of children of the open container, unless it is poisoned.
pub proof fn lemma_elements_scanned(s0: ScanState, input: Seq<u8>, at: int, to: int, first: bool)
    requires
        s0.quiet(),
        s0.active.parts == Parts(Part::Elem, Part::Elem),
        0 <= at,
        to <= input.len(),
        elements_end(input, at, to, first) is Some,
    ensures
        ({
            let close = elements_end(input, at, to, first)->0 - 1;
            let u = s0.peeked(input, at).run_to(input, close);
            let r = u.num_end_at(close);
            let n = element_count(input, at, to, first);
            let x = s0.table.len() as int;
            &&& u.cursor == close
            &&& u.active.active_primitive.kind != ActivePrimitiveKind::Str
            &&& r.error || s0.grown(
                r,
                close,
                if n > 0 {
                    patched(s0.table, s0.active.prev_part_offsets.elem, x) + element_records(
                        input,
                        at,
                        to,
                        x,
                        first,
                    )
                } else {
                    s0.table
                },
                n,
            )
            &&& s0.fits_in(
                element_records(input, at, to, x, first).len() as int,
                elements_depth(input, at, to, first),
            ) ==> !r.error
            &&& r.error || s0.bottom.len() + elements_depth(input, at, to, first) <= MAX_DEPTH
        }),
    decreases to - at, 2int,
{
    let close = elements_end(input, at, to, first)->0 - 1;
    let x = s0.table.len() as int;
    let s1 = s0.peeked(input, at);
    lemma_peeked_before_value(s0, input, at);
    lemma_elements_regular(s1, input, to, first);
    lemma_elements_bounds(input, at, to, first);
    if first && input[at] == ARR_END {
        lemma_peek_nothing(s0, input, at);
        assert(s1.run_to(input, close) == s1);
        assert(s1.num_end_at(close) == s1);
        assert(s1 == (ScanState { cursor: close, table: s0.table, active: s1.active, ..s0 }));
    } else {
        assert(value_end(input, at, to) is Some);
        let mid = value_end(input, at, to)->0;
        assert(at < mid < to && (input[mid] == COMMA || input[mid] == ARR_END));
        lemma_value_scanned(s0, input, at, to);
        let u = s1.run_to(input, mid);
        let r1 = u.num_end_at(mid);
        let records = value_records(input, at, to, x, Part::Elem, None);
        let base = patched(s0.table, s0.active.prev_part_offsets.elem, x);
        assert(s0.active.position() == Part::Elem);
        lemma_value_records_head(
            input,
            at,
            to,
            x,
            Part::Elem,
            None,
            Some((x + records.len()) as u16),
        );
        lemma_depth_nonneg(input, mid + 1, to, false);
        if input[mid] == ARR_END {
            if !r1.error {
                lemma_with_value_quiet(s0, records, mid);
                assert(element_records(input, at, to, x, first) == records);
                assert(s0.grown(r1, close, base + records, 1));
            }
        } else {
            assert(elements_end(input, mid + 1, to, false) == Some(close + 1));
            lemma_elements_bounds(input, mid + 1, to, false);
            lemma_comma_step(u, input);
            let next = u.step(input);
            assert(next == r1.peeked(input, mid + 1));
            lemma_run_to_split(s1, input, mid, close);
            assert(u.run_to(input, close) == next.run_to(input, close));
            if r1.error {
                lemma_primitive_error(r1, input, mid + 1);
                lemma_run_error(next, input, close);
            } else {
                lemma_with_value_quiet(s0, records, mid);
                lemma_elements_scanned(r1, input, mid + 1, to, false);
                let r = next.run_to(input, close).num_end_at(close);
                if !r.error {
                    let x1 = x + records.len();
                    let rest = element_records(input, mid + 1, to, x1, false);
                    let n1 = element_count(input, mid + 1, to, false);
                    lemma_value_records_head(
                        input,
                        at,
                        to,
                        x,
                        Part::Elem,
                        None,
                        Some(x1 as u16),
                    );
                    let linked = value_records(input, at, to, x, Part::Elem, Some(x1 as u16));
                    assert(r1.table == base + records);
                    assert(base.len() == x) by {
                        assert(s0.active.prev_part_offsets.get(Part::Elem)
                            == s0.active.prev_part_offsets.elem);
                    }
                    assert(r1.active.prev_part_offsets.elem == Some(x as u16));
                    lemma_link_element(base, records, x1);
                    assert(element_records(input, at, to, x, first) == linked + rest);
                    assert(base + linked + rest =~= base + (linked + rest));
                    assert(r1.grown(r, close, base + linked + rest, n1));
                    assert(s0.grown(r, close, base + (linked + rest), 1 + n1));
                }
            }
        }
    }
}

/// The table with the `next` links of the last key and the last value of
/// the open map, if it has any, set to the records at `x` and behind it.
pub open spec fn patched_member(s: ScanState) -> Seq<Offset> {
    let x = s.table.len() as int;
    patched(
        patched(s.table, s.active.prev_part_offsets.key, x),
        s.active.prev_part_offsets.value,
        x + 1,
    )
}

/// Linking the last key and the last value of the open map leaves the
/// table as long as it is.
pub proof fn lemma_patched_member_len(s0: ScanState)
    requires
        s0.quiet(),
    ensures
        patched_member(s0).len() == s0.table.len(),
{
    assert(s0.active.prev_part_offsets.get(Part::Key) == s0.active.prev_part_offsets.key);
    assert(s0.active.prev_part_offsets.get(Part::Value) == s0.active.prev_part_offsets.value);
}

/// The table of a map after one more member: the last key and the last
/// value before it are linked to its key and its value.
pub proof fn lemma_patched_member(s0: ScanState, key: Seq<Offset>, records: Seq<Offset>)
    requires
        s0.quiet(),
        s0.active.parts == Parts(Part::Key, Part::Value),
        s0.active.len % 2 == 0,
        key.len() == 1,
        records.len() >= 1,
        s0.table.len() + 1 + records.len() <= MAX_OFFSETS,
    ensures
        s0.with_value(key, 0).with_value(records, 0).table == patched_member(s0) + (key
            + records),
        patched_member(s0).len() == s0.table.len(),
{
    let x = s0.table.len() as int;
    lemma_with_value_quiet(s0, key, 0);
    let k = s0.with_value(key, 0);
    assert(s0.active.position() == Part::Key);
    assert(k.active.position() == Part::Value);
    assert(k.active.prev_part_offsets.value == s0.active.prev_part_offsets.value);
    let keys = patched(s0.table, s0.active.prev_part_offsets.key, x);
    assert(keys.len() == x) by {
        assert(s0.active.prev_part_offsets.get(Part::Key) == s0.active.prev_part_offsets.key);
    }
    assert(k.table == keys + key);
    match s0.active.prev_part_offsets.value {
        Some(v) => {
            assert(s0.active.prev_part_offsets.get(Part::Value) == Some(v));
            assert(v < x);
            assert(patched(keys + key, Some(v), x + 1) =~= patched(keys, Some(v), x + 1) + key);
        },
        None => {},
    }
    assert(k.with_value(records, 0).table =~= patched_member(s0) + (key + records));
}

/// A scan of a member of a map adds the record of its key and the records
/// of its value to the table, unless it is poisoned.
pub proof fn lemma_member_scanned(s0: ScanState, input: Seq<u8>, at: int, to: int)
    requires
        s0.quiet(),
        s0.active.parts == Parts(Part::Key, Part::Value),
        s0.active.len % 2 == 0,
        s0.cursor == at,
        0 <= at,
        to <= input.len(),
        member_end(input, at, to) is Some,
    ensures
        ({
            let mid = member_end(input, at, to)->0;
            let colon = string_end(input, at + 1, to)->0;
            let u = s0.run_to(input, mid);
            let r = u.num_end_at(mid);
            let x = s0.table.len() as int;
            let key = single(s0, string_kind(input, at, to));
            let records = value_records(input, colon + 1, to, x + 1, Part::Value, None);
            &&& at < mid <= to
            &&& u.cursor == mid
            &&& u.active.active_primitive.kind != ActivePrimitiveKind::Str
            &&& records.len() >= 1
            &&& r.error || (s0.grown(r, mid, patched_member(s0) + (key + records), 2)
                && r.active.prev_part_offsets.key == Some(x as u16)
                && r.active.prev_part_offsets.value == Some((x + 1) as u16))
            &&& s0.fits_in(1 + records.len() as int, value_depth(input, colon + 1, to)) ==> !r.error
            &&& r.error || s0.bottom.len() + value_depth(input, colon + 1, to) <= MAX_DEPTH
        }),
    decreases to - at, 2int,
{
    let mid = member_end(input, at, to)->0;
    let x = s0.table.len() as int;
    assert(input[at] == QUOTE);
    assert(string_end(input, at + 1, to) is Some);
    let colon = string_end(input, at + 1, to)->0;
    assert(at < colon < to && input[colon] == COLON);
    assert(value_end(input, colon + 1, to) == Some(mid));
    lemma_value_bounds(input, colon + 1, to);
    lemma_string_scanned(s0, input, at, to);
    assert(s0 == (ScanState { cursor: at, ..s0 }));
    let k = s0.run_to(input, colon);
    lemma_run_to_split(s0, input, colon, mid);
    let key = single(s0, string_kind(input, at, to));
    let records = value_records(input, colon + 1, to, x + 1, Part::Value, None);
    assert(s0.active.position() == Part::Key);
    lemma_member_kind(s0, input, at, to);
    lemma_value_records_head(input, colon + 1, to, x + 1, Part::Value, None, None);
    lemma_patched_member_len(s0);
    if k.error {
        lemma_run_error(k, input, mid);
    } else {
        lemma_with_value_quiet(s0, key, colon);
        lemma_open_step(k, input);
        let peeked = k.step(input);
        assert(peeked == k.peeked(input, colon + 1));
        assert(k.run_to(input, mid) == peeked.run_to(input, mid));
        lemma_value_scanned(k, input, colon + 1, to);
        let r = s0.run_to(input, mid).num_end_at(mid);
        assert(k.active.position() == Part::Value);
        if !r.error {
            lemma_with_value_quiet(k, records, mid);
            lemma_patched_member(s0, key, records);
            assert(r.table == patched_member(s0) + (key + records));
            assert(s0.grown(r, mid, patched_member(s0) + (key + records), 2));
        }
    }
}

/// Behind a member of a map a scan is outside of a string, however it
/// has gone.
pub proof fn lemma_member_kind(s0: ScanState, input: Seq<u8>, at: int, to: int)
    requires
        s0.quiet(),
        s0.cursor == at,
        0 <= at,
        to <= input.len(),
        member_end(input, at, to) is Some,
    ensures
        s0.run_to(input, member_end(input, at, to)->0).cursor == member_end(input, at, to)->0,
        s0.run_to(input, member_end(input, at, to)->0).active.active_primitive.kind
            != ActivePrimitiveKind::Str,
{
    crate::de::grammar::lemma_member_regular(s0, input, to);
}

/// Linking the key and the value of the last member behind a table to
/// the key and the value of a later member only changes their `next`
/// links.
pub proof fn lemma_link_member(base: Seq<Offset>, key: Offset, records: Seq<Offset>, x1: int)
    requires
        records.len() >= 1,
        base.len() + 1 <= MAX_OFFSETS,
    ensures
        patched(
            patched(base + (seq![key] + records), Some(base.len() as u16), x1),
            Some((base.len() + 1) as u16),
            x1 + 1,
        ) == base + (seq![Offset { next: Some(x1 as u16), ..key }] + records.update(
            0,
            Offset { next: Some((x1 + 1) as u16), ..records[0] },
        )),
{
    let t = base + (seq![key] + records);
    let a = patched(t, Some(base.len() as u16), x1);
    let b = patched(a, Some((base.len() + 1) as u16), x1 + 1);
    assert(b =~= base + (seq![Offset { next: Some(x1 as u16), ..key }] + records.update(
        0,
        Offset { next: Some((x1 + 1) as u16), ..records[0] },
    )));
}

/// A scan of the members of a map adds their records to the table, as
/// those of children of the open container, unless it is poisoned.
pub proof fn lemma_members_scanned(s0: ScanState, input: Seq<u8>, at: int, to: int, first: bool)
    requires
        s0.quiet(),
        s0.active.parts == Parts(Part::Key, Part::Value),
        s0.active.len % 2 == 0,
        s0.cursor == at,
        0 <= at,
        to <= input.len(),
        members_end(input, at, to, first) is Some,
    ensures
        ({
            let close = members_end(input, at, to, first)->0 - 1;
            let u = s0.run_to(input, close);
            let r = u.num_end_at(close);
            let n = member_count(input, at, to, first);
            let x = s0.table.len() as int;
            &&& u.cursor == close
            &&& u.active.active_primitive.kind != ActivePrimitiveKind::Str
            &&& r.error || s0.grown(
                r,
                close,
                if n > 0 {
                    patched_member(s0) + member_records(input, at, to, x, first)
                } else {
                    s0.table
                },
                2 * n,
            )
            &&& s0.fits_in(
                member_records(input, at, to, x, first).len() as int,
                members_depth(input, at, to, first),
            ) ==> !r.error
            &&& r.error || s0.bottom.len() + members_depth(input, at, to, first) <= MAX_DEPTH
        }),
    decreases to - at, 3int,
{
    let close = members_end(input, at, to, first)->0 - 1;
    let x = s0.table.len() as int;
    lemma_members_bounds(input, at, to, first);
    lemma_members_kind(s0, input, at, to, first);
    lemma_patched_member_len(s0);
    if first && input[at] == MAP_END {
        assert(s0.run_to(input, close) == s0);
        assert(s0.num_end_at(close) == s0);
        assert(s0 == (ScanState { cursor: close, table: s0.table, active: s0.active, ..s0 }));
    } else {
        assert(member_end(input, at, to) is Some);
        let mid = member_end(input, at, to)->0;
        let colon = string_end(input, at + 1, to)->0;
        assert(at < colon);
        assert(at < mid < to && (input[mid] == COMMA || input[mid] == MAP_END));
        lemma_member_scanned(s0, input, at, to);
        lemma_member_sizes(input, at, to, x, first);
        let u = s0.run_to(input, mid);
        let r1 = u.num_end_at(mid);
        if input[mid] == COMMA {
            assert(members_end(input, mid + 1, to, false) == Some(close + 1));
            lemma_members_bounds(input, mid + 1, to, false);
            assert(member_end(input, mid + 1, to) is Some);
            assert(input[mid + 1] == QUOTE);
            lemma_comma_step(u, input);
            let next = u.step(input);
            assert(next == r1.peeked(input, mid + 1));
            lemma_peek_nothing(r1, input, mid + 1);
            lemma_run_to_split(s0, input, mid, close);
            assert(u.run_to(input, close) == next.run_to(input, close));
            if r1.error {
                lemma_run_error(next, input, close);
            } else {
                lemma_members_scanned(next, input, mid + 1, to, false);
                let r = next.run_to(input, close).num_end_at(close);
                if !r.error {
                    lemma_members_joined(s0, next, r, input, at, to, first);
                }
            }
        }
    }
}

/// How the records and the depth of the members of a map are made up of
/// those of its first member and of the rest.
pub proof fn lemma_member_sizes(input: Seq<u8>, at: int, to: int, x: int, first: bool)
    requires
        members_end(input, at, to, first) is Some,
        !(first && input[at] == MAP_END),
        0 <= at,
        to <= input.len(),
    ensures
        ({
            let mid = member_end(input, at, to)->0;
            let colon = string_end(input, at + 1, to)->0;
            let size = value_records(input, colon + 1, to, x + 1, Part::Value, None).len();
            let records = member_records(input, at, to, x, first);
            let depth = members_depth(input, at, to, first);
            &&& depth >= value_depth(input, colon + 1, to)
            &&& input[mid] == COMMA ==> records.len() == 1 + size + member_records(
                input,
                mid + 1,
                to,
                x + 1 + size,
                false,
            ).len() && depth >= members_depth(input, mid + 1, to, false) && member_count(
                input,
                at,
                to,
                first,
            ) == 1 + member_count(input, mid + 1, to, false)
            &&& input[mid] != COMMA ==> records.len() == 1 + size && member_count(
                input,
                at,
                to,
                first,
            ) == 1 && records == seq![
                Offset { kind: string_kind(input, at, to), position: Part::Key, next: None },
            ] + value_records(input, colon + 1, to, x + 1, Part::Value, None)
        }),
{
    let mid = member_end(input, at, to)->0;
    let colon = string_end(input, at + 1, to)->0;
    assert(member_end(input, at, to) is Some);
    assert(string_end(input, at + 1, to) is Some);
    assert(at < colon);
    let size = value_records(input, colon + 1, to, x + 1, Part::Value, None).len();
    lemma_value_records_head(
        input,
        colon + 1,
        to,
        x + 1,
        Part::Value,
        None,
        Some((x + 2 + size) as u16),
    );
}

/// The table of a map after its first member and the rest of its members
/// holds the records of all its members.
pub proof fn lemma_members_joined(
    s0: ScanState,
    next: ScanState,
    r: ScanState,
    input: Seq<u8>,
    at: int,
    to: int,
    first: bool,
)
    requires
        s0.quiet(),
        s0.active.parts == Parts(Part::Key, Part::Value),
        s0.active.len % 2 == 0,
        0 <= at,
        to <= input.len(),
        members_end(input, at, to, first) is Some,
        !(first && input[at] == MAP_END),
        input[member_end(input, at, to)->0] == COMMA,
        ({
            let mid = member_end(input, at, to)->0;
            let colon = string_end(input, at + 1, to)->0;
            let x = s0.table.len() as int;
            let key = single(s0, string_kind(input, at, to));
            let records = value_records(input, colon + 1, to, x + 1, Part::Value, None);
            let x1 = x + 1 + records.len();
            &&& records.len() >= 1
            &&& s0.grown(next, mid + 1, patched_member(s0) + (key + records), 2)
            &&& next.active.prev_part_offsets.key == Some(x as u16)
            &&& next.active.prev_part_offsets.value == Some((x + 1) as u16)
            &&& next.grown(
                r,
                r.cursor,
                patched_member(next) + member_records(input, mid + 1, to, x1, false),
                2 * member_count(input, mid + 1, to, false),
            )
        }),
    ensures
        s0.grown(
            r,
            r.cursor,
            patched_member(s0) + member_records(input, at, to, s0.table.len() as int, first),
            2 * member_count(input, at, to, first),
        ),
{
    let mid = member_end(input, at, to)->0;
    let colon = string_end(input, at + 1, to)->0;
    let x = s0.table.len() as int;
    let key = single(s0, string_kind(input, at, to));
    let records = value_records(input, colon + 1, to, x + 1, Part::Value, None);
    let x1 = x + 1 + records.len();
    let rest = member_records(input, mid + 1, to, x1, false);
    let base = patched_member(s0);
    lemma_member_sizes(input, at, to, x, first);
    lemma_patched_member_len(s0);
    assert(s0.active.position() == Part::Key);
    lemma_value_records_head(
        input,
        colon + 1,
        to,
        x + 1,
        Part::Value,
        None,
        Some((x1 + 1) as u16),
    );
    let key_record = Offset { kind: string_kind(input, at, to), position: Part::Key, next: None };
    assert(key =~= seq![key_record]);
    lemma_link_member(base, key_record, records, x1);
    let linked_key = seq![Offset { next: Some(x1 as u16), ..key_record }];
    let linked_value = value_records(
        input,
        colon + 1,
        to,
        x + 1,
        Part::Value,
        Some((x1 + 1) as u16),
    );
    assert(next.table == base + (seq![key_record] + records));
    assert(patched_member(next) == base + (linked_key + linked_value));
    assert(member_records(input, at, to, x, first) =~= linked_key + linked_value + rest);
    assert(base + (linked_key + linked_value) + rest =~= base + (linked_key + linked_value
        + rest));
}

/// Behind the members of a map a scan is outside of a string, however it
/// has gone.
pub proof fn lemma_members_kind(s0: ScanState, input: Seq<u8>, at: int, to: int, first: bool)
    requires
        s0.quiet(),
        s0.cursor == at,
        0 <= at,
        to <= input.len(),
        members_end(input, at, to, first) is Some,
    ensures
        s0.run_to(input, members_end(input, at, to, first)->0 - 1).cursor == members_end(
            input,
            at,
            to,
            first,
        )->0 - 1,
        s0.run_to(
            input,
            members_end(input, at, to, first)->0 - 1,
        ).active.active_primitive.kind != ActivePrimitiveKind::Str,
{
    lemma_members_regular(s0, input, to, first);
}

/// The records of a document: those of the members of its root map.
pub open spec fn document_records(input: Seq<u8>) -> Seq<Offset> {
    match scan_bounds(input) {
        Some((start, end)) => member_records(input, start, end + 1, 0, true),
        None => Seq::empty(),
    }
}

/// The number of members of the root map of a document.
pub open spec fn document_pairs(input: Seq<u8>) -> int {
    match scan_bounds(input) {
        Some((start, end)) => member_count(input, start, end + 1, true),
        None => 0,
    }
}

/// How deep a document nests maps and arrays below its root map.
pub open spec fn document_depth(input: Seq<u8>) -> int {
    match scan_bounds(input) {
        Some((start, end)) => members_depth(input, start, end + 1, true),
        None => 0,
    }
}

/// Whether a document is too large for a table: it has more records than
/// a table can hold, or nests maps and arrays deeper than a scan goes.
pub open spec fn too_large(input: Seq<u8>) -> bool {
    document_records(input).len() > MAX_OFFSETS || document_depth(input) > MAX_DEPTH
}

/// A scan byte by byte of a JSON map without white space between its
/// tokens gives the table that holds the records of the map and the number
/// of its members. Only a map that is too large is marked as erroneous.
pub proof fn lemma_valid_scanned(input: Seq<u8>)
    requires
        valid_document(input),
    ensures
        scanned_fallback(input).err == too_large(input),
        !too_large(input) ==> scanned_fallback(input).elements == document_records(input)
            && scanned_fallback(input).root_size_hint == document_pairs(input),
{
    let (start, end) = scan_bounds(input)->0;
    crate::std_ext::str::lemma_trim_end_bytes_prefix(input);
    let s0 = ScanState::begin(start, end);
    assert(s0.quiet()) by {
        assert(s0.active.fits(0));
    }
    lemma_members_scanned(s0, input, start, end + 1, true);
    let u = s0.run_to(input, end);
    let r = u.num_end_at(end);
    let n = member_count(input, start, end + 1, true);
    lemma_members_bounds(input, start, end + 1, true);
    lemma_no_children(input, start, end + 1, 0);
    if u.active.active_primitive.kind != ActivePrimitiveKind::Num {
        assert(r == u.with_primitive(ActivePrimitive::idle()));
    }
    if !r.error {
        if n > 0 {
            assert(patched_member(s0) =~= Seq::<Offset>::empty());
            assert(patched_member(s0) + member_records(input, start, end + 1, 0, true)
                =~= member_records(input, start, end + 1, 0, true));
        }
        assert(r.active.len == 2 * n);
    }
}

/// A scan of a JSON map without white space between its tokens gives the
/// table that holds the records of the map and the number of its members,
/// whether it goes by blocks or byte by byte. Only a map that is too large
/// is marked as erroneous.
pub proof fn lemma_valid_scanned_by_blocks(input: Seq<u8>, lead: int, block: Block)
    requires
        valid_document(input),
        0 <= lead < BLOCK_SIZE,
    ensures
        scanned(input, lead, block).err == too_large(input),
        !too_large(input) ==> scanned(input, lead, block).elements == document_records(input)
            && scanned(input, lead, block).root_size_hint == document_pairs(input),
{
    lemma_valid_scanned(input);
    lemma_scans_agree_on_valid(input, lead, block);
}

} // verus!
