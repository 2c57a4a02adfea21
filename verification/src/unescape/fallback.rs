//! Unescaping byte by byte.

use vstd::prelude::*;
use crate::unescape::{interest_unescape, ScanFnInput, ESCAPE};

verus! {

/// Unescapes the rest of the input byte by byte.
pub(crate) fn unescape(i: &mut ScanFnInput)
    requires
        old(i).inv(old(i).scan.input_offset as int),
    ensures
        final(i).inv(final(i).input@.len() as int),
        final(i).input == old(i).input,
{
    let read_to = i.input.len();
    unescape_block(i, read_to);
}

/// Reads byte after byte up to `read_to` and handles each `\`.
pub(crate) fn unescape_block(i: &mut ScanFnInput, read_to: usize)
    requires
        old(i).inv(old(i).scan.input_offset as int),
        read_to == old(i).input@.len(),
    ensures
        final(i).inv(read_to as int),
        final(i).input == old(i).input,
{
    let ghost first = *i;
    while i.scan.input_offset < read_to
        invariant
            i.inv(i.scan.input_offset as int),
            i.input == first.input,
            read_to == i.input@.len(),
        decreases read_to - i.scan.input_offset,
    {
        let curr_offset = i.scan.input_offset;
        let curr = i.input[curr_offset];
        if curr == ESCAPE {
            i.curr_offset = curr_offset;
            interest_unescape(i);
        } else {
            proof {
                i.lemma_skip(curr_offset as int, curr_offset + 1);
            }
        }
        i.scan.input_offset += 1;
    }
}

} // verus!
