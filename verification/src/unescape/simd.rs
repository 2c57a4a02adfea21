//! Unescaping a block of bytes at a time.

use vstd::prelude::*;

use crate::de::simd::{
    bit, lemma_drop_bit, lemma_keep_from, lemma_mask_of, lemma_trailing_zeros, mask_escape,
    mask_from, ByteClass,
};
use crate::unescape::{fallback, interest_unescape, ScanFnInput, ESCAPE};

verus! {

/// The most bytes that a block has.
pub const BLOCK_SIZE: usize = 32;

/// Unescapes the input by blocks: block after block, as long as a whole
/// block is left, and what is left byte by byte.
pub(crate) fn unescape_simd(i: &mut ScanFnInput, width: usize)
    requires
        0 < width <= BLOCK_SIZE,
        old(i).inv(old(i).scan.input_offset as int),
    ensures
        final(i).inv(final(i).input@.len() as int),
        final(i).input == old(i).input,
{
    let ghost first = *i;
    let len = i.input.len();
    while len - i.scan.input_offset >= width
        invariant
            0 < width <= BLOCK_SIZE,
            i.inv(i.scan.input_offset as int),
            i.input == first.input,
            len == i.input@.len(),
        decreases len - i.scan.input_offset,
    {
        unescape_simd_block(i, width);
    }
    fallback::unescape(i);
}

/// Handles the escapes of the block at the offset and moves on to the next.
pub(crate) fn unescape_simd_block(i: &mut ScanFnInput, width: usize)
    requires
        0 < width <= BLOCK_SIZE,
        old(i).inv(old(i).scan.input_offset as int),
        old(i).scan.input_offset + width <= old(i).input@.len(),
    ensures
        final(i).inv(final(i).scan.input_offset as int),
        final(i).scan.input_offset == old(i).scan.input_offset + width,
        final(i).input == old(i).input,
{
    let ghost first = *i;
    let ghost input = i.input@;
    let base = i.scan.input_offset;
    let whole = i.input;
    let len = whole.len();
    let block = &whole[base..base + width];
    let mut mask_escape = mask_escape(block);
    let ghost from: int = 0;
    proof {
        lemma_mask_of(block@, width as nat, ByteClass::Escape);
        assert forall|k: u32| k < width implies block@[k as int] == input[base + k] by {}
    }
    while mask_escape != 0
        invariant
            0 <= from <= width <= 32,
            i.inv(base + from),
            i.input == first.input,
            i.input@ == input,
            i.scan.input_offset == base,
            base + width <= input.len(),
            len == input.len(),
            forall|k: u32|
                k < 32 ==> #[trigger] bit(mask_escape, k) == (from <= k < width && input[base
                    + k] == ESCAPE),
        decreases mask_escape,
    {
        let ghost m = mask_escape;
        let block_offset = mask_escape.trailing_zeros();
        proof {
            lemma_trailing_zeros(m);
            lemma_drop_bit(m, block_offset);
        }
        mask_escape = mask_escape & mask_from(block_offset + 1);
        let curr_offset = base + block_offset as usize;
        proof {
            assert forall|k: u32| k < 32 implies #[trigger] bit(mask_escape, k) == (block_offset
                + 1 <= k < width && input[base + k] == ESCAPE) by {
                lemma_keep_from(m, (block_offset + 1) as u32, k);
            }
            assert forall|j: int| base + from <= j < curr_offset implies input[j] != ESCAPE by {
                let k = (j - base) as u32;
                assert(!bit(m, k));
            }
            i.lemma_skip(base + from, curr_offset as int);
            from = block_offset + 1;
        }
        i.curr_offset = curr_offset;
        interest_unescape(i);
    }
    proof {
        assert forall|j: int| base + from <= j < base + width implies input[j] != ESCAPE by {
            let k = (j - base) as u32;
            lemma_trailing_zeros(0u32);
            assert(!bit(mask_escape, k));
        }
        i.lemma_skip(base + from, base + width);
    }
    i.scan.input_offset += width;
}

} // verus!
