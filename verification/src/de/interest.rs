//! What the scan does at each byte of interest.
//!
//! Each action is stated twice: as a function on plain states, and as the code
//! that performs it on the scan's own storage.

use vstd::prelude::*;

use crate::de::offsets::{
    flag_fits, is_container, record_fits, record_linked, slice_fits, Offset, OffsetKind, Part,
    Slice, MAX_OFFSETS,
};
use crate::de::simd::{ActiveMask, Simd};
use crate::de::state::{
    ActiveMapArr, ActivePrimitive, ActivePrimitiveKind, Parts, PrevPartOffsets, Scan, ScanState,
    MAX_DEPTH,
};
use crate::std_ext::str::lemma_ascii_boundaries;

verus! {

pub const QUOTE: u8 = 0x22;

pub const COMMA: u8 = 0x2c;

pub const MINUS: u8 = 0x2d;

pub const DIGIT_0: u8 = 0x30;

pub const DIGIT_9: u8 = 0x39;

pub const COLON: u8 = 0x3a;

pub const ARR_BEGIN: u8 = 0x5b;

pub const ESCAPE: u8 = 0x5c;

pub const ARR_END: u8 = 0x5d;

pub const LOWER_F: u8 = 0x66;

pub const LOWER_N: u8 = 0x6e;

pub const LOWER_T: u8 = 0x74;

pub const MAP_BEGIN: u8 = 0x7b;

pub const MAP_END: u8 = 0x7d;

/// Whether a record of this kind can be appended: its slice, if it has one,
/// fits the input, a string is rightly marked as escaped or not, and a
/// container starts out empty.
pub open spec fn kind_fits(input: Seq<u8>, kind: OffsetKind) -> bool {
    match kind {
        OffsetKind::Str(s, escaped) => slice_fits(input, s) && flag_fits(input, s, escaped),
        OffsetKind::Num(s) => slice_fits(input, s),
        OffsetKind::Obj(n) => n == 0,
        OffsetKind::Arr(n) => n == 0,
        _ => true,
    }
}

/// The slice from `start` up to `end`.
pub open spec fn slice_between(start: usize, end: int) -> Slice {
    Slice { offset: start as u32, len: (end - start) as u32 }
}

impl ScanState {
    /// The state after the scan was poisoned by an operation on the stack.
    pub open spec fn poisoned(self) -> ScanState {
        ScanState { error: true, active: self.active.poisoned(), ..self }
    }

    /// The state after a byte that the scan cannot make sense of.
    pub open spec fn unreachable(self) -> ScanState {
        ScanState { error: true, ..self }
    }

    /// The state after a record of the given kind was appended: the record
    /// takes the position that is next in the open container, and the last
    /// record at that position gets a `next` link to it. A full table takes
    /// no record and poisons the scan.
    pub open spec fn pushed(self, kind: OffsetKind) -> ScanState {
        if self.table.len() >= MAX_OFFSETS {
            ScanState { error: true, ..self }
        } else {
            let at = self.table.len() as u16;
            let position = self.active.position();
            let linked = match self.active.prev_part_offsets.get(position) {
                Some(prev) => self.table.update(
                    prev as int,
                    Offset { next: Some(at), ..self.table[prev as int] },
                ),
                None => self.table,
            };
            ScanState {
                active: self.active.advanced(at),
                table: linked.push(Offset { kind, position, next: None }),
                ..self
            }
        }
    }

    /// The state after a map or an array was opened: the open container goes
    /// on the stack and a fresh one takes its place. A stack that is full
    /// poisons the scan.
    pub open spec fn begun(self, fresh: ActiveMapArr) -> ScanState {
        if self.bottom.len() >= MAX_DEPTH {
            self.poisoned()
        } else {
            ScanState { bottom: self.bottom.push(self.active), active: fresh, ..self }
        }
    }

    /// The state after the open container was closed: the record before its
    /// first child gets the given kind, and the container around it is open
    /// again. Closing the root map poisons the scan.
    pub open spec fn ended(self, kind: OffsetKind) -> ScanState {
        if self.bottom.len() == 0 {
            self.poisoned()
        } else {
            let start = self.active.start_from_offset - 1;
            ScanState {
                active: self.bottom.last(),
                bottom: self.bottom.drop_last(),
                table: self.table.update(start, Offset { kind, ..self.table[start] }),
                ..self
            }
        }
    }

    /// The state with the given marker for the primitive that the scan is
    /// inside of.
    pub open spec fn with_primitive(self, p: ActivePrimitive) -> ScanState {
        ScanState { active: ActiveMapArr { active_primitive: p, ..self.active }, ..self }
    }

    /// The state with the quote mask active.
    pub open spec fn with_mask_quote(self) -> ScanState {
        ScanState {
            simd: Simd {
                active_mask: ActiveMask::Quote,
                masks: self.simd.masks.pre_masked_quote(),
            },
            ..self
        }
    }

    /// The state with the interest mask active.
    pub open spec fn with_mask_interest(self) -> ScanState {
        ScanState { simd: Simd { active_mask: ActiveMask::Interest, ..self.simd }, ..self }
    }

    /// The state after an escape was taken in: the primitive is marked as
    /// escaped, and the byte that follows is escaped no more.
    pub open spec fn unescaped_now(self) -> ScanState {
        ScanState {
            simd: Simd { masks: self.simd.masks.pre_masked_quote(), ..self.simd },
            escape: false,
            ..self
        }.with_primitive(ActivePrimitive { escaped: true, ..self.active.active_primitive })
    }

    /// The state after a `"` at `at`: an escaped one is taken in; one inside
    /// a string closes it and appends its record; any other opens a string
    /// behind it.
    pub open spec fn str_at(self, at: int) -> ScanState {
        if self.escape {
            self.unescaped_now()
        } else {
            let p = self.active.active_primitive;
            let cleared = self.with_primitive(ActivePrimitive::idle());
            if p.kind == ActivePrimitiveKind::Str {
                cleared.with_mask_interest().pushed(
                    OffsetKind::Str(slice_between(p.input_offset, at), p.escaped),
                )
            } else {
                cleared.with_mask_quote().with_primitive(
                    ActivePrimitive {
                        kind: ActivePrimitiveKind::Str,
                        input_offset: (at + 1) as usize,
                        escaped: false,
                    },
                )
            }
        }
    }

    /// The state after a `\` at `at`: an escaped one is taken in; one before
    /// a `"` or a `\` escapes that byte; one before any other byte is taken
    /// in at once.
    pub open spec fn escape_at(self, input: Seq<u8>, at: int) -> ScanState {
        if self.escape {
            self.unescaped_now()
        } else if input[at + 1] == QUOTE || input[at + 1] == ESCAPE {
            ScanState { escape: true, ..self }
        } else {
            self.unescaped_now()
        }
    }

    /// The state after a number was found to start at `at`.
    pub open spec fn num_begin_at(self, at: int) -> ScanState {
        self.with_primitive(
            ActivePrimitive {
                kind: ActivePrimitiveKind::Num,
                input_offset: at as usize,
                escaped: false,
            },
        )
    }

    /// The state after a byte at `at` that ends a number, if the scan is
    /// inside of one: its record is appended. Whatever the scan was inside
    /// of, it is inside of nothing afterwards.
    pub open spec fn num_end_at(self, at: int) -> ScanState {
        let p = self.active.active_primitive;
        let cleared = self.with_primitive(ActivePrimitive::idle());
        if p.kind == ActivePrimitiveKind::Num {
            cleared.pushed(OffsetKind::Num(slice_between(p.input_offset, at)))
        } else {
            cleared
        }
    }

    /// The state after an atom was found to start: its record is appended.
    pub open spec fn atom(self, kind: OffsetKind) -> ScanState {
        self.with_primitive(
            ActivePrimitive { kind: ActivePrimitiveKind::Atom, ..self.active.active_primitive },
        ).pushed(kind)
    }

    /// The state after a `{` inside the root map.
    pub open spec fn map_begin_at(self) -> ScanState {
        let pushed = self.pushed(OffsetKind::Obj(0));
        pushed.begun(ActiveMapArr::map_at(pushed.table.len() as u16))
    }

    /// The state after a `[` at `at`, whose first element starts right
    /// behind it.
    pub open spec fn arr_begin_at(self, input: Seq<u8>, at: int) -> ScanState {
        let pushed = self.pushed(OffsetKind::Arr(0));
        pushed.begun(ActiveMapArr::arr_at(pushed.table.len() as u16)).primitive_at(input, at + 1)
    }

    /// The state after a `:` at `at`, whose value starts right behind it.
    pub open spec fn key_end_at(self, input: Seq<u8>, at: int) -> ScanState {
        self.primitive_at(input, at + 1)
    }

    /// The state after a `,` at `at`: it ends a number, and the next value
    /// starts right behind it.
    pub open spec fn value_elem_end_at(self, input: Seq<u8>, at: int) -> ScanState {
        self.num_end_at(at).primitive_at(input, at + 1)
    }

    /// The state after a `}` at `at`: it ends a number and closes the open
    /// container as a map of half as many pairs as it has children.
    pub open spec fn map_end_at(self, at: int) -> ScanState {
        let s = self.num_end_at(at);
        s.ended(OffsetKind::Obj(s.active.len / 2))
    }

    /// The state after a `]` at `at`: it ends a number and closes the open
    /// container as an array.
    pub open spec fn arr_end_at(self, at: int) -> ScanState {
        let s = self.num_end_at(at);
        s.ended(OffsetKind::Arr(s.active.len))
    }

    /// The state after the byte at `at` was looked at as the start of a
    /// value: a digit or `-` starts a number; `n`, `t` and `f` start an atom;
    /// a quote or a bracket is left for the scan to meet; anything else
    /// poisons the scan.
    #[verifier::opaque]
    pub open spec fn primitive_at(self, input: Seq<u8>, at: int) -> ScanState {
        let c = input[at];
        if c == QUOTE || c == MAP_BEGIN || c == ARR_BEGIN || c == MAP_END || c == ARR_END {
            self
        } else if (DIGIT_0 <= c <= DIGIT_9) || c == MINUS {
            self.num_begin_at(at)
        } else if c == LOWER_N {
            self.atom(OffsetKind::Null)
        } else if c == LOWER_T {
            self.atom(OffsetKind::Bool(true))
        } else if c == LOWER_F {
            self.atom(OffsetKind::Bool(false))
        } else {
            self.unreachable()
        }
    }

    /// The state after the byte at `at` was handled as a byte of interest.
    #[verifier::opaque]
    pub open spec fn interest_at(self, input: Seq<u8>, at: int) -> ScanState {
        let c = input[at];
        if c == QUOTE {
            self.str_at(at)
        } else if c == COLON {
            self.key_end_at(input, at)
        } else if c == COMMA {
            self.value_elem_end_at(input, at)
        } else if c == ESCAPE {
            self.escape_at(input, at)
        } else if c == MAP_BEGIN {
            self.map_begin_at()
        } else if c == ARR_BEGIN {
            self.arr_begin_at(input, at)
        } else if c == MAP_END {
            self.map_end_at(at)
        } else if c == ARR_END {
            self.arr_end_at(at)
        } else {
            self.unreachable()
        }
    }
}

/// A scan in progress, with the byte that it is looking at.
#[derive(Debug)]
pub struct ScanFnInput<'scan> {
    /// The whole input.
    pub input: &'scan [u8],
    /// The index of the byte to handle. It may be ahead of the scan's own
    /// offset, which a scan by blocks leaves on the start of the block.
    pub curr_offset: usize,
    /// The byte to handle.
    pub curr: u8,
    pub scan: Scan,
    /// The records written so far.
    pub offsets: Vec<Offset>,
}

impl<'scan> View for ScanFnInput<'scan> {
    type V = ScanState;

    open spec fn view(&self) -> ScanState {
        self.scan.state(self.offsets@)
    }
}

impl<'scan> ScanFnInput<'scan> {
    /// Whether the scan looks at a byte of the input in a sound state.
    pub open spec fn looks(&self) -> bool {
        &&& self@.wf(self.input@, self.curr_offset as int)
        &&& self.curr == self.input@[self.curr_offset as int]
    }

    /// Whether the scan looks at a byte of the input that it may handle as
    /// a byte of interest, in a sound state: inside a string only a `"` or
    /// a `\` is handled.
    pub open spec fn ready(&self) -> bool {
        &&& self.looks()
        &&& self@.active.active_primitive.kind == ActivePrimitiveKind::Str ==> self.curr == QUOTE
            || self.curr == ESCAPE
    }

    /// Whether the scan still reads the same input up to the same end.
    pub open spec fn same_input(&self, before: &Self) -> bool {
        &&& self.input == before.input
        &&& self@.end == before@.end
        &&& self@.cursor == before@.cursor
    }

    /// Poisons the scan after an operation on the stack that cannot be.
    pub(crate) fn err(&mut self)
        requires
            old(self)@.table_wf(old(self).input@),
        ensures
            final(self)@ == old(self)@.poisoned(),
            final(self)@.table_wf(final(self).input@),
            final(self).same_input(old(self)),
            final(self).curr_offset == old(self).curr_offset,
            final(self).curr == old(self).curr,
            final(self)@.keeps(old(self)@),
    {
        self.scan.error = true;
        self.scan.stack.active_map_arr.parts = Parts(Part::Unknown, Part::Unknown);
        self.scan.stack.active_map_arr.prev_part_offsets = PrevPartOffsets {
            unknown: None,
            key: None,
            value: None,
            elem: None,
        };
    }

    /// Appends a record of the given kind at the position that is next in
    /// the open container, and links the last record at that position to it.
    pub(crate) fn push(&mut self, kind: OffsetKind)
        requires
            old(self)@.table_wf(old(self).input@),
            kind_fits(old(self).input@, kind),
        ensures
            final(self)@ == old(self)@.pushed(kind),
            final(self)@.table_wf(final(self).input@),
            final(self)@.table.len() >= 1,
            final(self).same_input(old(self)),
            final(self).curr_offset == old(self).curr_offset,
            final(self).curr == old(self).curr,
            final(self)@.keeps(old(self)@),
    {
        if self.offsets.len() >= MAX_OFFSETS {
            self.scan.error = true;
            return ;
        }
        let ghost before = self.offsets@;
        let ghost input = self.input@;
        let position_offset = self.offsets.len() as u16;
        let (position, prev_position_offset) = self.scan.stack.active_map_arr.part(
            position_offset,
        );
        if let Some(prev) = prev_position_offset {
            assert(old(self)@.active.prev_part_offsets.get(position) == Some(prev));
            let record = self.offsets[prev as usize];
            self.offsets.set(prev as usize, Offset { next: Some(position_offset), ..record });
        }
        let ghost linked = self.offsets@;
        self.offsets.push(Offset { kind, position, next: None });
        proof {
            let after = self.offsets@;
            assert(after == old(self)@.pushed(kind).table);
            assert forall|i: int| 0 <= i < after.len() implies #[trigger] record_linked(
                after,
                i,
            ) by {
                if i < before.len() {
                    assert(record_linked(before, i));
                }
            }
            assert forall|i: int| 0 <= i < after.len() implies #[trigger] record_fits(
                input,
                after,
                i,
            ) by {
                if i < before.len() {
                    assert(record_fits(input, before, i));
                }
            }
            assert forall|i: int| 0 <= i < self@.bottom.len() implies (
            #[trigger] self@.bottom[i]).fits(after.len() as int) by {
                assert(old(self)@.bottom[i].fits(before.len() as int));
            }
            let f = old(self)@.active;
            assert forall|p: Part| (#[trigger] self@.active.prev_part_offsets.get(p)) is Some
                implies self@.active.prev_part_offsets.get(p)->0 < after.len() by {
                if p != position {
                    assert(self@.active.prev_part_offsets.get(p) == f.prev_part_offsets.get(p));
                }
            }
        }
    }

    /// Opens a container: puts the open one on the stack and the fresh one
    /// in its place, unless the stack is full.
    pub(crate) fn begin(&mut self, fresh: ActiveMapArr)
        requires
            old(self)@.table_wf(old(self).input@),
            old(self)@.table.len() >= 1,
            fresh.fits(old(self)@.table.len() as int),
            fresh.start_from_offset >= 1,
            old(self)@.error || is_container(
                old(self)@.table[fresh.start_from_offset - 1].kind,
            ),
        ensures
            final(self)@ == old(self)@.begun(fresh),
            final(self)@.table_wf(final(self).input@),
            final(self).same_input(old(self)),
            final(self).curr_offset == old(self).curr_offset,
            final(self).curr == old(self).curr,
            final(self)@.keeps(old(self)@),
    {
        if self.scan.stack.bottom.len() >= MAX_DEPTH {
            self.err();
            return ;
        }
        let last = self.scan.stack.active_map_arr;
        self.scan.stack.bottom.push(last);
        self.scan.stack.active_map_arr = fresh;
        proof {
            assert forall|i: int| 0 <= i < self@.bottom.len() implies (
            #[trigger] self@.bottom[i]).fits(self@.table.len() as int) by {
                if i < old(self)@.bottom.len() {
                    assert(old(self)@.bottom[i].fits(self@.table.len() as int));
                }
            }
            assert forall|i: int| 0 < i < self@.bottom.len() implies 1 <= (
            #[trigger] self@.bottom[i]).start_from_offset by {
                if i < old(self)@.bottom.len() {
                    assert(1 <= old(self)@.bottom[i].start_from_offset);
                }
            }
            if !self@.error {
                assert forall|i: int| 0 < i < self@.bottom.len() implies is_container(
                    self@.table[(#[trigger] self@.bottom[i]).start_from_offset - 1].kind,
                ) by {
                    if i < old(self)@.bottom.len() {
                        assert(self@.bottom[i] == old(self)@.bottom[i]);
                    }
                }
            }
        }
    }

    /// Opens a map.
    pub(crate) fn map_begin(&mut self)
        requires
            old(self)@.table_wf(old(self).input@),
            old(self)@.table.len() >= 1,
            old(self)@.error || is_container(old(self)@.table.last().kind),
        ensures
            final(self)@ == old(self)@.begun(ActiveMapArr::map_at(old(self)@.table.len() as u16)),
            final(self)@.table_wf(final(self).input@),
            final(self).same_input(old(self)),
            final(self).curr_offset == old(self).curr_offset,
            final(self).curr == old(self).curr,
            final(self)@.keeps(old(self)@),
    {
        let start_from_offset = self.offsets.len() as u16;
        self.begin(ActiveMapArr::new_map(start_from_offset));
    }

    /// Opens an array.
    pub(crate) fn arr_begin(&mut self)
        requires
            old(self)@.table_wf(old(self).input@),
            old(self)@.table.len() >= 1,
            old(self)@.error || is_container(old(self)@.table.last().kind),
        ensures
            final(self)@ == old(self)@.begun(ActiveMapArr::arr_at(old(self)@.table.len() as u16)),
            final(self)@.table_wf(final(self).input@),
            final(self).same_input(old(self)),
            final(self).curr_offset == old(self).curr_offset,
            final(self).curr == old(self).curr,
            final(self)@.keeps(old(self)@),
    {
        let start_from_offset = self.offsets.len() as u16;
        self.begin(ActiveMapArr::new_arr(start_from_offset));
    }

    /// Closes the open container: gives the record before its first child
    /// the kind that `map` asks for, and takes the container around it from
    /// the stack.
    pub(crate) fn end(&mut self, map: bool)
        requires
            old(self)@.table_wf(old(self).input@),
        ensures
            final(self)@ == old(self)@.ended(
                if map {
                    OffsetKind::Obj(old(self)@.active.len / 2)
                } else {
                    OffsetKind::Arr(old(self)@.active.len)
                },
            ),
            final(self)@.table_wf(final(self).input@),
            final(self).same_input(old(self)),
            final(self).curr_offset == old(self).curr_offset,
            final(self).curr == old(self).curr,
            final(self)@.keeps(old(self)@),
    {
        let ghost before = self.offsets@;
        let ghost input = self.input@;
        match self.scan.stack.bottom.pop() {
            Some(last) => {
                let start = self.scan.stack.active_map_arr.start_from_offset as usize - 1;
                let len = self.scan.stack.active_map_arr.len;
                assert(len >> 1 == len / 2) by (bit_vector);
                let kind = if map {
                    OffsetKind::Obj(len >> 1)
                } else {
                    OffsetKind::Arr(len)
                };
                self.scan.stack.active_map_arr = last;
                let record = self.offsets[start];
                self.offsets.set(start, Offset { kind, ..record });
                proof {
                    let after = self.offsets@;
                    assert(last == old(self)@.bottom.last());
                    assert(self@.bottom =~= old(self)@.bottom.drop_last());
                    assert forall|i: int| 0 <= i < after.len() implies #[trigger] record_linked(
                        after,
                        i,
                    ) by {
                        assert(record_linked(before, i));
                    }
                    assert forall|i: int| 0 <= i < after.len() implies #[trigger] record_fits(
                        input,
                        after,
                        i,
                    ) by {
                        assert(record_fits(input, before, i));
                    }
                    assert(old(self)@.bottom[old(self)@.bottom.len() - 1].fits(
                        before.len() as int,
                    ));
                    assert forall|i: int| 0 <= i < self@.bottom.len() implies (
                    #[trigger] self@.bottom[i]).fits(after.len() as int) by {
                        assert(old(self)@.bottom[i].fits(before.len() as int));
                    }
                    assert forall|i: int| 0 < i < self@.bottom.len() implies 1 <= (
                    #[trigger] self@.bottom[i]).start_from_offset by {
                        assert(1 <= old(self)@.bottom[i].start_from_offset);
                    }
                    if self@.bottom.len() > 0 {
                        assert(1 <= old(self)@.bottom[old(self)@.bottom.len() - 1].start_from_offset);
                    }
                }
            },
            None => {
                self.err();
            },
        }
    }

    /// Closes the open container as a map.
    pub(crate) fn map_end(&mut self)
        requires
            old(self)@.table_wf(old(self).input@),
        ensures
            final(self)@ == old(self)@.ended(OffsetKind::Obj(old(self)@.active.len / 2)),
            final(self)@.table_wf(final(self).input@),
            final(self).same_input(old(self)),
            final(self).curr_offset == old(self).curr_offset,
            final(self).curr == old(self).curr,
            final(self)@.keeps(old(self)@),
    {
        self.end(true);
    }

    /// Closes the open container as an array.
    pub(crate) fn arr_end(&mut self)
        requires
            old(self)@.table_wf(old(self).input@),
        ensures
            final(self)@ == old(self)@.ended(OffsetKind::Arr(old(self)@.active.len)),
            final(self)@.table_wf(final(self).input@),
            final(self).same_input(old(self)),
            final(self).curr_offset == old(self).curr_offset,
            final(self).curr == old(self).curr,
            final(self)@.keeps(old(self)@),
    {
        self.end(false);
    }
}

/// Handles the byte that the scan looks at as a byte of interest.
pub(crate) fn match_interest(i: &mut ScanFnInput)
    requires
        old(i).ready(),
        old(i).curr_offset < old(i)@.end,
    ensures
        final(i)@ == old(i)@.interest_at(old(i).input@, old(i).curr_offset as int),
        final(i)@.wf(final(i).input@, old(i).curr_offset + 1),
        final(i).same_input(old(i)),
        final(i)@.keeps(old(i)@),
{
    reveal(ScanState::interest_at);
    let curr = i.curr;
    if curr == QUOTE {
        interest_str(i)
    } else if curr == COLON {
        interest_key_end(i)
    } else if curr == COMMA {
        interest_value_elem_end(i)
    } else if curr == ESCAPE {
        interest_escape(i)
    } else if curr == MAP_BEGIN {
        interest_map_begin(i)
    } else if curr == ARR_BEGIN {
        interest_arr_begin(i)
    } else if curr == MAP_END {
        interest_map_end(i)
    } else if curr == ARR_END {
        interest_arr_end(i)
    } else {
        interest_unreachable(i)
    }
}

/// Handles the byte that the scan looks at as the start of a value.
pub(crate) fn match_primitive(i: &mut ScanFnInput)
    requires
        old(i).looks(),
        old(i)@.active.active_primitive.kind != ActivePrimitiveKind::Str,
    ensures
        final(i)@ == old(i)@.primitive_at(old(i).input@, old(i).curr_offset as int),
        final(i)@.wf(final(i).input@, old(i).curr_offset as int),
        final(i).same_input(old(i)),
        final(i)@.keeps(old(i)@),
{
    reveal(ScanState::primitive_at);
    let curr = i.curr;
    if curr == QUOTE || curr == MAP_BEGIN || curr == ARR_BEGIN || curr == MAP_END || curr == ARR_END {
        interest_none(i)
    } else if (DIGIT_0 <= curr && curr <= DIGIT_9) || curr == MINUS {
        interest_num_begin(i)
    } else if curr == LOWER_N {
        interest_null(i)
    } else if curr == LOWER_T {
        interest_true(i)
    } else if curr == LOWER_F {
        interest_false(i)
    } else {
        interest_unreachable(i)
    }
}

/// Handles a `"`: the start of a string, its end, or an escaped quote in it.
pub(crate) fn interest_str(i: &mut ScanFnInput)
    requires
        old(i).ready(),
        old(i).curr_offset < old(i)@.end,
        old(i).curr == QUOTE,
    ensures
        final(i)@ == old(i)@.str_at(old(i).curr_offset as int),
        final(i)@.wf(final(i).input@, old(i).curr_offset + 1),
        final(i).same_input(old(i)),
        final(i)@.keeps(old(i)@),
{
    if i.scan.escape {
        i.scan.escape = false;
        interest_unescape_now(i);
        return ;
    }
    proof {
        lemma_ascii_boundaries(i.input@, i.curr_offset as int);
    }
    let taken = i.scan.stack.active_map_arr.active_primitive.take();
    match taken.kind {
        ActivePrimitiveKind::Str => {
            i.scan.set_mask_interest();
            let start = taken.input_offset;
            let end = i.curr_offset;
            i.push(
                OffsetKind::Str(
                    Slice { offset: start as u32, len: (end - start) as u32 },
                    taken.escaped,
                ),
            );
        },
        _ => {
            i.scan.set_mask_quote();
            i.scan.stack.active_map_arr.active_primitive = ActivePrimitive {
                input_offset: i.curr_offset + 1,
                kind: ActivePrimitiveKind::Str,
                escaped: false,
            };
        },
    }
}

/// Handles a `\`: looks at the byte behind it to tell whether that byte is
/// one that the scan would otherwise act on.
pub(crate) fn interest_escape(i: &mut ScanFnInput)
    requires
        old(i).ready(),
        old(i).curr_offset < old(i)@.end,
        old(i).curr == ESCAPE,
    ensures
        final(i)@ == old(i)@.escape_at(old(i).input@, old(i).curr_offset as int),
        final(i)@.wf(final(i).input@, old(i).curr_offset + 1),
        final(i).same_input(old(i)),
        final(i)@.keeps(old(i)@),
{
    let escaped = i.scan.escape;
    i.scan.escape = !escaped;
    if escaped {
        interest_unescape_now(i)
    } else {
        i.curr_offset += 1;
        i.curr = i.input[i.curr_offset];
        if i.curr == QUOTE || i.curr == ESCAPE {
            interest_unescape_later(i)
        } else {
            interest_unescape_now(i)
        }
    }
}

/// Takes an escape in: the byte behind it needs no further care.
pub(crate) fn interest_unescape_now(i: &mut ScanFnInput)
    requires
        old(i)@.table_wf(old(i).input@),
    ensures
        final(i)@ == old(i)@.unescaped_now(),
        final(i)@.table_wf(final(i).input@),
        final(i).same_input(old(i)),
        final(i).curr_offset == old(i).curr_offset,
        final(i)@.keeps(old(i)@),
{
    i.scan.shift_mask_quote();
    i.scan.stack.active_map_arr.active_primitive.escaped = true;
    i.scan.escape = false;
}

/// Leaves an escape for the byte behind it, which the scan will meet.
pub(crate) fn interest_unescape_later(i: &mut ScanFnInput)
    ensures
        *final(i) == *old(i),
{
}

/// Begins a number at the byte that the scan looks at.
pub(crate) fn interest_num_begin(i: &mut ScanFnInput)
    requires
        old(i).looks(),
        old(i).curr < 0x80,
        old(i)@.active.active_primitive.kind != ActivePrimitiveKind::Str,
    ensures
        final(i)@ == old(i)@.num_begin_at(old(i).curr_offset as int),
        final(i)@.wf(final(i).input@, old(i).curr_offset as int),
        final(i).same_input(old(i)),
        final(i).curr_offset == old(i).curr_offset,
        final(i)@.keeps(old(i)@),
{
    proof {
        lemma_ascii_boundaries(i.input@, i.curr_offset as int);
    }
    i.scan.stack.active_map_arr.active_primitive = ActivePrimitive {
        input_offset: i.curr_offset,
        kind: ActivePrimitiveKind::Num,
        escaped: false,
    };
}

/// Ends the number that the scan is inside of, if it is inside of one, at
/// the byte that it looks at.
pub(crate) fn interest_num_end(i: &mut ScanFnInput)
    requires
        old(i).looks(),
        old(i).curr < 0x80,
        old(i)@.active.active_primitive.kind != ActivePrimitiveKind::Str,
    ensures
        final(i)@ == old(i)@.num_end_at(old(i).curr_offset as int),
        final(i)@.table_wf(final(i).input@),
        final(i)@.active.active_primitive == ActivePrimitive::idle(),
        final(i).same_input(old(i)),
        final(i).curr_offset == old(i).curr_offset,
        final(i).curr == old(i).curr,
        final(i)@.keeps(old(i)@),
{
    proof {
        lemma_ascii_boundaries(i.input@, i.curr_offset as int);
    }
    let taken = i.scan.stack.active_map_arr.active_primitive.take();
    if let ActivePrimitiveKind::Num = taken.kind {
        let start = taken.input_offset;
        let end = i.curr_offset;
        i.push(OffsetKind::Num(Slice { offset: start as u32, len: (end - start) as u32 }));
    }
}

/// Appends a `null`.
pub(crate) fn interest_null(i: &mut ScanFnInput)
    requires
        old(i).looks(),
        old(i)@.active.active_primitive.kind != ActivePrimitiveKind::Str,
    ensures
        final(i)@ == old(i)@.atom(OffsetKind::Null),
        final(i)@.wf(final(i).input@, old(i).curr_offset as int),
        final(i).same_input(old(i)),
        final(i)@.keeps(old(i)@),
{
    i.scan.stack.active_map_arr.active_primitive.kind = ActivePrimitiveKind::Atom;
    i.push(OffsetKind::Null);
}

/// Appends a `true`.
pub(crate) fn interest_true(i: &mut ScanFnInput)
    requires
        old(i).looks(),
        old(i)@.active.active_primitive.kind != ActivePrimitiveKind::Str,
    ensures
        final(i)@ == old(i)@.atom(OffsetKind::Bool(true)),
        final(i)@.wf(final(i).input@, old(i).curr_offset as int),
        final(i).same_input(old(i)),
        final(i)@.keeps(old(i)@),
{
    i.scan.stack.active_map_arr.active_primitive.kind = ActivePrimitiveKind::Atom;
    i.push(OffsetKind::Bool(true));
}

/// Appends a `false`.
pub(crate) fn interest_false(i: &mut ScanFnInput)
    requires
        old(i).looks(),
        old(i)@.active.active_primitive.kind != ActivePrimitiveKind::Str,
    ensures
        final(i)@ == old(i)@.atom(OffsetKind::Bool(false)),
        final(i)@.wf(final(i).input@, old(i).curr_offset as int),
        final(i).same_input(old(i)),
        final(i)@.keeps(old(i)@),
{
    i.scan.stack.active_map_arr.active_primitive.kind = ActivePrimitiveKind::Atom;
    i.push(OffsetKind::Bool(false));
}

/// Handles a `{`: appends the record of a map and opens it.
pub(crate) fn interest_map_begin(i: &mut ScanFnInput)
    requires
        old(i).ready(),
        old(i).curr_offset < old(i)@.end,
        old(i).curr == MAP_BEGIN,
    ensures
        final(i)@ == old(i)@.map_begin_at(),
        final(i)@.wf(final(i).input@, old(i).curr_offset + 1),
        final(i).same_input(old(i)),
        final(i)@.keeps(old(i)@),
{
    i.push(OffsetKind::Obj(0));
    i.map_begin();
}

/// Handles a `[`: appends the record of an array, opens it, and looks at
/// the byte behind it, where the first element starts.
pub(crate) fn interest_arr_begin(i: &mut ScanFnInput)
    requires
        old(i).ready(),
        old(i).curr_offset < old(i)@.end,
        old(i).curr == ARR_BEGIN,
    ensures
        final(i)@ == old(i)@.arr_begin_at(old(i).input@, old(i).curr_offset as int),
        final(i)@.wf(final(i).input@, old(i).curr_offset + 1),
        final(i).same_input(old(i)),
        final(i)@.keeps(old(i)@),
{
    i.push(OffsetKind::Arr(0));
    i.arr_begin();
    interest_key_elem_begin(i);
}

/// Looks at the byte behind the one that opened a container.
pub(crate) fn interest_key_elem_begin(i: &mut ScanFnInput)
    requires
        old(i).looks(),
        old(i).curr_offset < old(i)@.end,
        old(i)@.active.active_primitive.kind != ActivePrimitiveKind::Str,
    ensures
        final(i)@ == old(i)@.primitive_at(old(i).input@, old(i).curr_offset + 1),
        final(i)@.wf(final(i).input@, old(i).curr_offset + 1),
        final(i).same_input(old(i)),
        final(i)@.keeps(old(i)@),
{
    i.curr_offset += 1;
    i.curr = i.input[i.curr_offset];
    match_primitive(i);
}

/// Handles a `:`: looks at the byte behind it, where the value starts.
pub(crate) fn interest_key_end(i: &mut ScanFnInput)
    requires
        old(i).ready(),
        old(i).curr_offset < old(i)@.end,
        old(i).curr == COLON,
    ensures
        final(i)@ == old(i)@.key_end_at(old(i).input@, old(i).curr_offset as int),
        final(i)@.wf(final(i).input@, old(i).curr_offset + 1),
        final(i).same_input(old(i)),
        final(i)@.keeps(old(i)@),
{
    i.curr_offset += 1;
    i.curr = i.input[i.curr_offset];
    match_primitive(i);
}

/// Handles a `,`: ends a number and looks at the byte behind it, where the
/// next key or element starts.
pub(crate) fn interest_value_elem_end(i: &mut ScanFnInput)
    requires
        old(i).ready(),
        old(i).curr_offset < old(i)@.end,
        old(i).curr == COMMA,
    ensures
        final(i)@ == old(i)@.value_elem_end_at(old(i).input@, old(i).curr_offset as int),
        final(i)@.wf(final(i).input@, old(i).curr_offset + 1),
        final(i).same_input(old(i)),
        final(i)@.keeps(old(i)@),
{
    interest_num_end(i);
    i.curr_offset += 1;
    i.curr = i.input[i.curr_offset];
    match_primitive(i);
}

/// Handles a `}`: ends a number and closes the open container as a map.
pub(crate) fn interest_map_end(i: &mut ScanFnInput)
    requires
        old(i).ready(),
        old(i).curr_offset < old(i)@.end,
        old(i).curr == MAP_END,
    ensures
        final(i)@ == old(i)@.map_end_at(old(i).curr_offset as int),
        final(i)@.wf(final(i).input@, old(i).curr_offset + 1),
        final(i).same_input(old(i)),
        final(i)@.keeps(old(i)@),
{
    interest_num_end(i);
    i.map_end();
}

/// Handles a `]`: ends a number and closes the open container as an array.
pub(crate) fn interest_arr_end(i: &mut ScanFnInput)
    requires
        old(i).ready(),
        old(i).curr_offset < old(i)@.end,
        old(i).curr == ARR_END,
    ensures
        final(i)@ == old(i)@.arr_end_at(old(i).curr_offset as int),
        final(i)@.wf(final(i).input@, old(i).curr_offset + 1),
        final(i).same_input(old(i)),
        final(i)@.keeps(old(i)@),
{
    interest_num_end(i);
    i.arr_end();
}

/// Handles the start of a value that the scan will meet as a byte of
/// interest.
pub(crate) fn interest_none(i: &mut ScanFnInput)
    ensures
        *final(i) == *old(i),
{
}

/// Handles a byte that the scan cannot make sense of.
pub(crate) fn interest_unreachable(i: &mut ScanFnInput)
    ensures
        final(i)@ == old(i)@.unreachable(),
        final(i).input == old(i).input,
        final(i).curr_offset == old(i).curr_offset,
        final(i).curr == old(i).curr,
        final(i)@.keeps(old(i)@),
{
    i.scan.error = true;
}

} // verus!
