//! Scanning byte by byte.

use vstd::prelude::*;
use crate::de::interest::{
    interest_arr_end, interest_escape, interest_map_end, interest_str, interest_value_elem_end,
    match_interest, ScanFnInput, ARR_END, COMMA, ESCAPE, MAP_END, QUOTE,
};
use crate::de::state::{ActivePrimitiveKind, ScanState};

verus! {

impl ScanState {
    /// The state after the byte at the cursor was handled. Outside of any
    /// primitive every byte is a byte of interest; inside a string only `"`
    /// and `\` are; inside a number or an atom only `,`, `}` and `]` are.
    #[verifier::opaque]
    pub open spec fn handled(self, input: Seq<u8>) -> ScanState {
        let at = self.cursor;
        let c = input[at];
        match self.active.active_primitive.kind {
            ActivePrimitiveKind::Idle => self.interest_at(input, at),
            ActivePrimitiveKind::Str => if c == ESCAPE {
                self.escape_at(input, at)
            } else if c == QUOTE {
                self.str_at(at)
            } else {
                self
            },
            _ => if c == COMMA {
                self.value_elem_end_at(input, at)
            } else if c == MAP_END {
                self.map_end_at(at)
            } else if c == ARR_END {
                self.arr_end_at(at)
            } else {
                self
            },
        }
    }

    /// The state after the byte at the cursor was read: the byte is handled,
    /// and the cursor moves on by one.
    pub open spec fn step(self, input: Seq<u8>) -> ScanState {
        ScanState { cursor: self.cursor + 1, ..self.handled(input) }
    }

    /// The state after the bytes from the cursor up to `to` were read one by
    /// one.
    pub open spec fn run_to(self, input: Seq<u8>, to: int) -> ScanState
        decreases to - self.cursor,
    {
        if self.cursor >= to {
            self
        } else {
            self.step(input).run_to(input, to)
        }
    }
}

/// Scans the rest of the input byte by byte.
pub(crate) fn scan(i: &mut ScanFnInput)
    requires
        old(i)@.wf(old(i).input@, old(i)@.cursor),
    ensures
        final(i)@ == old(i)@.run_to(old(i).input@, old(i)@.end),
        final(i)@.wf(final(i).input@, final(i)@.cursor),
        final(i)@.cursor == old(i)@.end,
        final(i)@.end == old(i)@.end,
        final(i).input == old(i).input,
        final(i)@.keeps(old(i)@),
{
    let read_to = i.scan.input_len;
    scan_block(i, read_to);
}

/// Scans the input byte by byte up to `read_to`.
pub(crate) fn scan_to(i: &mut ScanFnInput, read_to: usize)
    requires
        old(i)@.wf(old(i).input@, old(i)@.cursor),
        old(i)@.cursor <= read_to <= old(i)@.end,
    ensures
        final(i)@ == old(i)@.run_to(old(i).input@, read_to as int),
        final(i)@.wf(final(i).input@, final(i)@.cursor),
        final(i)@.cursor == read_to,
        final(i)@.end == old(i)@.end,
        final(i).input == old(i).input,
        final(i)@.keeps(old(i)@),
{
    scan_block(i, read_to);
}

/// Reads byte after byte up to `read_to` and hands each byte of interest to
/// the action that it calls for.
pub(crate) fn scan_block(i: &mut ScanFnInput, read_to: usize)
    requires
        old(i)@.wf(old(i).input@, old(i)@.cursor),
        old(i)@.cursor <= read_to <= old(i)@.end,
    ensures
        final(i)@ == old(i)@.run_to(old(i).input@, read_to as int),
        final(i)@.wf(final(i).input@, final(i)@.cursor),
        final(i)@.cursor == read_to,
        final(i)@.end == old(i)@.end,
        final(i).input == old(i).input,
        final(i)@.keeps(old(i)@),
{
    let ghost begin = i@;
    let ghost input = i.input@;
    let ghost first = *i;
    while i.scan.input_offset < read_to
        invariant
            i@.wf(input, i@.cursor),
            i.input@ == input,
            i.input == first.input,
            i@.end == begin.end,
            i@.cursor <= read_to <= begin.end,
            i@.run_to(input, read_to as int) == begin.run_to(input, read_to as int),
            i@.keeps(begin),
        decreases read_to - i.scan.input_offset,
    {
        scan_byte(i);
    }
}

/// Reads the byte at the scan's offset and moves on to the next.
pub(crate) fn scan_byte(i: &mut ScanFnInput)
    requires
        old(i)@.wf(old(i).input@, old(i)@.cursor),
        old(i)@.cursor < old(i)@.end,
    ensures
        final(i)@ == old(i)@.step(old(i).input@),
        final(i)@.wf(final(i).input@, final(i)@.cursor),
        final(i)@.cursor == old(i)@.cursor + 1,
        final(i)@.end == old(i)@.end,
        final(i).input == old(i).input,
        final(i)@.keeps(old(i)@),
{
    reveal(ScanState::handled);
    let curr_offset = i.scan.input_offset;
    let curr = i.input[curr_offset];
    i.curr_offset = curr_offset;
    i.curr = curr;
    match i.scan.stack.active_map_arr.active_primitive.kind {
        ActivePrimitiveKind::Idle => {
            match_interest(i);
        },
        ActivePrimitiveKind::Str => {
            match_str(i);
        },
        _ => {
            match_num_atom(i);
        },
    }
    let ghost handled = i@;
    i.scan.input_offset += 1;
    assert(i@ == ScanState { cursor: handled.cursor + 1, ..handled });
}

/// Handles the byte that the scan looks at inside a string.
pub(crate) fn match_str(i: &mut ScanFnInput)
    requires
        old(i).looks(),
        old(i)@.active.active_primitive.kind == ActivePrimitiveKind::Str,
        old(i).curr_offset < old(i)@.end,
    ensures
        final(i)@ == if old(i).curr == ESCAPE {
            old(i)@.escape_at(old(i).input@, old(i).curr_offset as int)
        } else if old(i).curr == QUOTE {
            old(i)@.str_at(old(i).curr_offset as int)
        } else {
            old(i)@
        },
        final(i)@.wf(final(i).input@, old(i).curr_offset + 1),
        final(i).same_input(old(i)),
        final(i)@.keeps(old(i)@),
{
    let curr = i.curr;
    if curr == ESCAPE {
        interest_escape(i);
    } else if curr == QUOTE {
        interest_str(i);
    } else {
        proof {
            i@.lemma_advance(i.input@, i.curr_offset as int, i.curr_offset + 1);
        }
    }
}

/// Handles the byte that the scan looks at inside a number or an atom.
pub(crate) fn match_num_atom(i: &mut ScanFnInput)
    requires
        old(i).looks(),
        old(i)@.active.active_primitive.kind != ActivePrimitiveKind::Str,
        old(i).curr_offset < old(i)@.end,
    ensures
        final(i)@ == if old(i).curr == COMMA {
            old(i)@.value_elem_end_at(old(i).input@, old(i).curr_offset as int)
        } else if old(i).curr == MAP_END {
            old(i)@.map_end_at(old(i).curr_offset as int)
        } else if old(i).curr == ARR_END {
            old(i)@.arr_end_at(old(i).curr_offset as int)
        } else {
            old(i)@
        },
        final(i)@.wf(final(i).input@, old(i).curr_offset + 1),
        final(i).same_input(old(i)),
        final(i)@.keeps(old(i)@),
{
    let curr = i.curr;
    if curr == COMMA {
        interest_value_elem_end(i);
    } else if curr == MAP_END {
        interest_map_end(i);
    } else if curr == ARR_END {
        interest_arr_end(i);
    } else {
        proof {
            i@.lemma_advance(i.input@, i.curr_offset as int, i.curr_offset + 1);
        }
    }
}

} // verus!
