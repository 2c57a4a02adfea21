//! The state that a scan carries from one byte of the input to the next.

use vstd::prelude::*;
use vstd::utf8::{is_char_boundary, valid_utf8};
use crate::de::offsets::{
    has_escape, is_container, kind_kept, lemma_has_escape_extend, table_fits, table_linked,
    Offset, Part,
};
use crate::de::simd::{pre_mask_interest, pre_mask_quote, ActiveMask, Simd};

verus! {

/// The deepest that maps and arrays may nest below the root map.
pub const MAX_DEPTH: usize = 96;

/// The kind of string, number or atom that the scan is inside of.
#[derive(Debug, Clone, Copy, PartialEq, Eq, Structural)]
pub enum ActivePrimitiveKind {
    Idle,
    Str,
    Num,
    Atom,
}

/// A marker for the string, number or atom that the scan is inside of.
#[derive(Debug, Clone, Copy, PartialEq, Eq, Structural)]
pub struct ActivePrimitive {
    pub kind: ActivePrimitiveKind,
    /// Where the primitive begins in the input.
    pub input_offset: usize,
    /// Whether a `\` was seen in it.
    pub escaped: bool,
}

impl Default for ActivePrimitive {
    /// The marker of a scan that is inside of nothing.
    fn default() -> (r: Self)
        ensures
            r == ActivePrimitive::idle(),
    {
        ActivePrimitive { kind: ActivePrimitiveKind::Idle, input_offset: 0, escaped: false }
    }
}

impl ActivePrimitive {
    /// The marker of a scan that is inside of nothing.
    pub open spec fn idle() -> ActivePrimitive {
        ActivePrimitive { kind: ActivePrimitiveKind::Idle, input_offset: 0, escaped: false }
    }

    /// Whether a string or number that was begun starts on a character
    /// boundary of the input at or before `at`.
    pub open spec fn fits(self, input: Seq<u8>, at: int) -> bool {
        (self.kind == ActivePrimitiveKind::Str || self.kind == ActivePrimitiveKind::Num) ==> {
            &&& self.input_offset <= at
            &&& is_char_boundary(input, self.input_offset as int)
        }
    }

    /// Takes the marker out and leaves the idle one behind.
    pub fn take(&mut self) -> (taken: ActivePrimitive)
        ensures
            taken == *old(self),
            *final(self) == ActivePrimitive::idle(),
    {
        let taken = *self;
        *self = ActivePrimitive::default();
        taken
    }
}

/// For each position, the last record written at it in one container.
#[derive(Debug, Clone, Copy, PartialEq, Eq, Structural)]
pub struct PrevPartOffsets {
    pub unknown: Option<u16>,
    pub key: Option<u16>,
    pub value: Option<u16>,
    pub elem: Option<u16>,
}

impl PrevPartOffsets {
    pub open spec fn empty() -> PrevPartOffsets {
        PrevPartOffsets { unknown: None, key: None, value: None, elem: None }
    }

    pub open spec fn get(self, position: Part) -> Option<u16> {
        match position {
            Part::Unknown => self.unknown,
            Part::Key => self.key,
            Part::Value => self.value,
            Part::Elem => self.elem,
        }
    }

    pub open spec fn set(self, position: Part, at: u16) -> PrevPartOffsets {
        match position {
            Part::Unknown => PrevPartOffsets { unknown: Some(at), ..self },
            Part::Key => PrevPartOffsets { key: Some(at), ..self },
            Part::Value => PrevPartOffsets { value: Some(at), ..self },
            Part::Elem => PrevPartOffsets { elem: Some(at), ..self },
        }
    }

    /// Whether every record that is remembered lies below `len`.
    pub open spec fn below(self, len: int) -> bool {
        forall|position: Part| (#[trigger] self.get(position)) matches Some(p) ==> p < len
    }
}

/// The positions that the children of a container take in turn: the first
/// for the children at even indices, the second for those at odd ones.
#[derive(Debug, Clone, Copy, PartialEq, Eq, Structural)]
pub struct Parts(pub Part, pub Part);

/// One level of the stack: the state of an open map or array.
#[derive(Debug, Clone, Copy, PartialEq, Eq, Structural)]
pub struct ActiveMapArr {
    pub active_primitive: ActivePrimitive,
    /// The index in the table of the first child.
    pub start_from_offset: u16,
    /// The number of children so far.
    pub len: u16,
    /// The positions that children take in turn.
    pub parts: Parts,
    pub prev_part_offsets: PrevPartOffsets,
}

impl ActiveMapArr {
    /// The state of a map whose first child will be the record at `start`.
    pub open spec fn map_at(start: u16) -> ActiveMapArr {
        ActiveMapArr {
            active_primitive: ActivePrimitive::idle(),
            start_from_offset: start,
            len: 0,
            parts: Parts(Part::Key, Part::Value),
            prev_part_offsets: PrevPartOffsets::empty(),
        }
    }

    /// The state of an array whose first child will be the record at `start`.
    pub open spec fn arr_at(start: u16) -> ActiveMapArr {
        ActiveMapArr {
            active_primitive: ActivePrimitive::idle(),
            start_from_offset: start,
            len: 0,
            parts: Parts(Part::Elem, Part::Elem),
            prev_part_offsets: PrevPartOffsets::empty(),
        }
    }

    /// The position that the next child takes.
    pub open spec fn position(self) -> Part {
        if self.len % 2 == 0 {
            self.parts.0
        } else {
            self.parts.1
        }
    }

    /// The state after a child was written as the record at `at`.
    pub open spec fn advanced(self, at: u16) -> ActiveMapArr {
        ActiveMapArr {
            len: (self.len + 1) as u16,
            prev_part_offsets: self.prev_part_offsets.set(self.position(), at),
            ..self
        }
    }

    /// The state after the scan was poisoned at this level.
    pub open spec fn poisoned(self) -> ActiveMapArr {
        ActiveMapArr {
            parts: Parts(Part::Unknown, Part::Unknown),
            prev_part_offsets: PrevPartOffsets::empty(),
            ..self
        }
    }

    /// Whether the level is sound for a table of `len` records: its children
    /// are records of the table, and so is every record that it remembers.
    pub open spec fn fits(self, len: int) -> bool {
        &&& self.start_from_offset + self.len <= len
        &&& self.prev_part_offsets.below(len)
    }

    /// Makes the map state for `start`.
    pub fn new_map(start: u16) -> (r: ActiveMapArr)
        ensures
            r == ActiveMapArr::map_at(start),
    {
        ActiveMapArr {
            active_primitive: ActivePrimitive::default(),
            start_from_offset: start,
            len: 0,
            parts: Parts(Part::Key, Part::Value),
            prev_part_offsets: PrevPartOffsets { unknown: None, key: None, value: None, elem: None },
        }
    }

    /// Makes the array state for `start`.
    pub fn new_arr(start: u16) -> (r: ActiveMapArr)
        ensures
            r == ActiveMapArr::arr_at(start),
    {
        ActiveMapArr {
            active_primitive: ActivePrimitive::default(),
            start_from_offset: start,
            len: 0,
            parts: Parts(Part::Elem, Part::Elem),
            prev_part_offsets: PrevPartOffsets { unknown: None, key: None, value: None, elem: None },
        }
    }

    /// Gives the position of the child that is about to be written as the
    /// record at `curr_offset`, and the last record at that position, whose
    /// `next` link is to be set; counts the child.
    pub fn part(&mut self, curr_offset: u16) -> (r: (Part, Option<u16>))
        requires
            old(self).len < u16::MAX,
        ensures
            r.0 == old(self).position(),
            r.1 == old(self).prev_part_offsets.get(old(self).position()),
            *final(self) == old(self).advanced(curr_offset),
    {
        let curr_position = if self.len % 2 == 0 {
            self.parts.0
        } else {
            self.parts.1
        };
        let prev_position_offset = match curr_position {
            Part::Unknown => {
                let prev = self.prev_part_offsets.unknown;
                self.prev_part_offsets.unknown = Some(curr_offset);
                prev
            },
            Part::Key => {
                let prev = self.prev_part_offsets.key;
                self.prev_part_offsets.key = Some(curr_offset);
                prev
            },
            Part::Value => {
                let prev = self.prev_part_offsets.value;
                self.prev_part_offsets.value = Some(curr_offset);
                prev
            },
            Part::Elem => {
                let prev = self.prev_part_offsets.elem;
                self.prev_part_offsets.elem = Some(curr_offset);
                prev
            },
        };
        self.len += 1;
        (curr_position, prev_position_offset)
    }
}

/// The whole state of a scan, as plain values.
pub struct ScanState {
    /// The next byte that the scan reads.
    pub cursor: int,
    /// Where the scan ends: the index of the `}` that closes the root map.
    pub end: int,
    /// Whether the byte before was a `\` that escapes the next one.
    pub escape: bool,
    /// Whether the scan was poisoned.
    pub error: bool,
    pub simd: Simd,
    /// The open map or array.
    pub active: ActiveMapArr,
    /// The maps and arrays around it, the root map first.
    pub bottom: Seq<ActiveMapArr>,
    /// The records written so far.
    pub table: Seq<Offset>,
}

impl ScanState {
    /// The state before the first byte is read.
    pub open spec fn begin(start: int, end: int) -> ScanState {
        ScanState {
            cursor: start,
            end,
            escape: false,
            error: false,
            simd: Simd::start(),
            active: ActiveMapArr::map_at(0),
            bottom: Seq::empty(),
            table: Seq::empty(),
        }
    }

    /// Whether the table and the stack are sound for the input: the table only
    /// points forwards and fits the input, each level of the stack fits the
    /// table, and each level but the root has a record before its children,
    /// which is that of a map or an array unless the scan is poisoned.
    pub open spec fn table_wf(self, input: Seq<u8>) -> bool {
        &&& valid_utf8(input)
        &&& 0 <= self.cursor <= self.end < input.len()
        &&& self.end <= u32::MAX
        &&& table_linked(self.table)
        &&& table_fits(input, self.table)
        &&& self.active.fits(self.table.len() as int)
        &&& self.bottom.len() <= MAX_DEPTH
        &&& forall|i: int| 0 <= i < self.bottom.len() ==> (#[trigger] self.bottom[i]).fits(
            self.table.len() as int,
        )
        &&& forall|i: int| 0 < i < self.bottom.len() ==> 1 <= (
        #[trigger] self.bottom[i]).start_from_offset
        &&& self.bottom.len() > 0 ==> 1 <= self.active.start_from_offset
        &&& !self.error ==> self.levels_opened()
    }

    /// Whether each level but the root was opened by a map or an array:
    /// the record before its first child is one.
    pub open spec fn levels_opened(self) -> bool {
        &&& forall|i: int|
            0 < i < self.bottom.len() ==> is_container(
                self.table[(#[trigger] self.bottom[i]).start_from_offset - 1].kind,
            )
        &&& self.bottom.len() > 0 ==> is_container(
            self.table[self.active.start_from_offset - 1].kind,
        )
    }

    /// Whether the scan has kept what the table held in the state `before`:
    /// the table has not got shorter, every record that it held is at its
    /// position still, a scan that was poisoned is poisoned still, and in
    /// a scan that is not poisoned every record that it held has kept its
    /// kind.
    pub open spec fn keeps(self, before: ScanState) -> bool {
        &&& before.table.len() <= self.table.len()
        &&& before.error ==> self.error
        &&& forall|i: int|
            0 <= i < before.table.len() ==> (#[trigger] self.table[i]).position
                == before.table[i].position
        &&& !self.error ==> forall|i: int|
            0 <= i < before.table.len() ==> kind_kept(
                before.table[i].kind,
                (#[trigger] self.table[i]).kind,
            )
    }

    /// Whether the state is sound for the input before the byte at `at` is
    /// handled: the table and the stack are sound; at every level a string
    /// or number that was begun starts on a character boundary at or before
    /// `at`; the quote mask is active inside a string and nowhere else, and
    /// no container on the stack was left inside a string; and inside a
    /// string a `\` was taken note of exactly if there is one before `at`.
    pub open spec fn wf(self, input: Seq<u8>, at: int) -> bool {
        let p = self.active.active_primitive;
        &&& self.table_wf(input)
        &&& 0 <= at <= self.end
        &&& p.fits(input, at)
        &&& forall|i: int|
            0 <= i < self.bottom.len() ==> (#[trigger] self.bottom[i]).active_primitive.fits(
                input,
                at,
            )
        &&& (self.simd.active_mask == ActiveMask::Quote) == (p.kind == ActivePrimitiveKind::Str)
        &&& forall|i: int|
            0 <= i < self.bottom.len() ==> (#[trigger] self.bottom[i]).active_primitive.kind
                != ActivePrimitiveKind::Str
        &&& p.kind == ActivePrimitiveKind::Str ==> (p.escaped || self.escape) == has_escape(
            input,
            p.input_offset as int,
            at,
        )
    }

    /// A sound state stays sound over bytes that need no handling: any bytes
    /// outside of a string, and bytes that are no `\` inside of one.
    pub proof fn lemma_advance(self, input: Seq<u8>, at: int, to: int)
        requires
            self.wf(input, at),
            at <= to <= self.end,
            self.active.active_primitive.kind == ActivePrimitiveKind::Str ==> forall|k: int|
                at <= k < to ==> input[k] != 0x5cu8,
        ensures
            self.wf(input, to),
    {
        let p = self.active.active_primitive;
        if p.kind == ActivePrimitiveKind::Str {
            lemma_has_escape_extend(input, p.input_offset as int, at, to);
        }
        assert forall|i: int| 0 <= i < self.bottom.len() implies (
        #[trigger] self.bottom[i]).active_primitive.fits(input, to) by {
            assert(self.bottom[i].active_primitive.fits(input, at));
        }
    }
}

/// The stack of open maps and arrays.
#[derive(Debug)]
pub struct Stack {
    pub active_map_arr: ActiveMapArr,
    pub bottom: Vec<ActiveMapArr>,
}

impl Stack {
    /// The stack of a scan that is about to start, on the given storage.
    pub(crate) fn attach(bottom: Vec<ActiveMapArr>) -> (r: Stack)
        requires
            bottom@.len() == 0,
        ensures
            r.active_map_arr == ActiveMapArr::map_at(0),
            r.bottom@ == Seq::<ActiveMapArr>::empty(),
    {
        assert(bottom@ =~= Seq::<ActiveMapArr>::empty());
        Stack { active_map_arr: ActiveMapArr::new_map(0), bottom }
    }
}

/// The state of a scan, but for the table that it writes.
#[derive(Debug)]
pub struct Scan {
    /// The next byte to read. A scan by blocks leaves it on the start of the
    /// block while it visits the bytes of the block.
    pub input_offset: usize,
    /// Where the scan ends.
    pub input_len: usize,
    pub escape: bool,
    pub error: bool,
    pub simd: Simd,
    pub stack: Stack,
}

impl Scan {
    /// The state of a scan of the bytes from `start` up to `end`, on the
    /// given storage.
    pub(crate) fn attach(stack: Vec<ActiveMapArr>, start: usize, end: usize) -> (r: Scan)
        requires
            stack@.len() == 0,
        ensures
            r.state(Seq::empty()) == ScanState::begin(start as int, end as int),
    {
        Scan {
            input_offset: start,
            input_len: end,
            escape: false,
            error: false,
            stack: Stack::attach(stack),
            simd: Simd::new(),
        }
    }

    /// The number of bytes that are left to read.
    pub(crate) fn input_remaining(&self) -> (n: usize)
        requires
            self.input_offset <= self.input_len,
        ensures
            n == self.input_len - self.input_offset,
    {
        self.input_len - self.input_offset
    }

    /// Makes the quote mask the active one.
    pub(crate) fn set_mask_quote(&mut self)
        ensures
            final(self).simd == (Simd {
                active_mask: ActiveMask::Quote,
                masks: old(self).simd.masks.pre_masked_quote(),
            }),
            final(self).input_offset == old(self).input_offset,
            final(self).input_len == old(self).input_len,
            final(self).escape == old(self).escape,
            final(self).error == old(self).error,
            final(self).stack == old(self).stack,
    {
        self.simd.active_mask = ActiveMask::Quote;
        pre_mask_quote(&mut self.simd.masks);
    }

    /// Moves on to the next quote or escape of the block.
    pub(crate) fn shift_mask_quote(&mut self)
        ensures
            final(self).simd == (Simd {
                masks: old(self).simd.masks.pre_masked_quote(),
                ..old(self).simd
            }),
            final(self).input_offset == old(self).input_offset,
            final(self).input_len == old(self).input_len,
            final(self).escape == old(self).escape,
            final(self).error == old(self).error,
            final(self).stack == old(self).stack,
    {
        pre_mask_quote(&mut self.simd.masks);
    }

    /// Makes the interest mask the active one.
    pub(crate) fn set_mask_interest(&mut self)
        ensures
            final(self).simd == (Simd { active_mask: ActiveMask::Interest, ..old(self).simd }),
            final(self).input_offset == old(self).input_offset,
            final(self).input_len == old(self).input_len,
            final(self).escape == old(self).escape,
            final(self).error == old(self).error,
            final(self).stack == old(self).stack,
    {
        self.simd.active_mask = ActiveMask::Interest;
        pre_mask_interest(&mut self.simd.masks);
    }

    /// The whole state, with the given table.
    pub open spec fn state(&self, table: Seq<Offset>) -> ScanState {
        ScanState {
            cursor: self.input_offset as int,
            end: self.input_len as int,
            escape: self.escape,
            error: self.error,
            simd: self.simd,
            active: self.stack.active_map_arr,
            bottom: self.stack.bottom@,
            table,
        }
    }
}

} // verus!
