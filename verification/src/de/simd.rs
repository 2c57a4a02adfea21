//! Scanning a block of bytes at a time.
//!
//! A block is classified as a whole into two masks of one bit per byte: the
//! bytes of interest to the scan, and among them the quotes and escapes.
//! The scan then only visits the bytes whose bit is set.

use vstd::prelude::*;
use vstd::std_specs::bits::{axiom_u32_trailing_zeros, u32_trailing_zeros};
use crate::de::fallback;
use crate::de::interest::{
    match_interest, ScanFnInput, ARR_BEGIN, ARR_END, COLON, COMMA, ESCAPE, MAP_BEGIN, MAP_END,
    QUOTE,
};
use crate::de::state::{Scan, ScanState};

verus! {

/// The most bytes that a block has: as many as a mask has bits.
pub const BLOCK_SIZE: usize = 32;

/// The vectors that a scan by blocks is laid out for, which give a block
/// its size.
#[derive(Debug, Clone, Copy, PartialEq, Eq, Structural)]
pub enum Block {
    /// Blocks of 32 bytes.
    Avx2,
    /// Blocks of 8 bytes.
    Neon,
}

impl Block {
    /// The number of bytes in a block.
    pub open spec fn bytes(self) -> int {
        match self {
            Block::Avx2 => 32,
            Block::Neon => 8,
        }
    }

    /// The least number of bytes that are worth a scan by blocks.
    pub open spec fn threshold(self) -> int {
        5 * self.bytes()
    }

    /// The number of bytes in a block.
    pub fn size(self) -> (n: usize)
        ensures
            n == self.bytes(),
    {
        match self {
            Block::Avx2 => 32,
            Block::Neon => 8,
        }
    }

    /// The least number of bytes that are worth a scan by blocks.
    pub fn vectorization_threshold(self) -> (n: usize)
        ensures
            n == self.threshold(),
    {
        5 * self.size()
    }
}

/// The masks of the block that the scan is inside of, with the bits of the
/// bytes that were visited already cleared.
#[derive(Debug, Clone, Copy, PartialEq, Eq, Structural)]
pub struct Masks {
    /// A bit for each of `"`, `:`, `,`, `\`, `{`, `}`, `[` and `]`.
    pub interest: u32,
    /// A bit for each `"` and `\`.
    pub quote: u32,
}

/// Which of the two masks says where the next byte to visit is.
#[derive(Debug, Clone, Copy, PartialEq, Eq, Structural)]
pub enum ActiveMask {
    Interest,
    Quote,
}

impl Default for ActiveMask {
    /// The mask that is active outside of any string.
    fn default() -> (r: Self)
        ensures
            r == ActiveMask::Interest,
    {
        ActiveMask::Interest
    }
}

/// The part of the state that only a scan by blocks reads.
///
/// A scan byte by byte keeps it up to date all the same, so that a scan by
/// blocks can go on where it stopped.
#[derive(Debug, Clone, Copy, PartialEq, Eq, Structural)]
pub struct Simd {
    pub masks: Masks,
    pub active_mask: ActiveMask,
}

impl Simd {
    /// The state outside of any block and any string.
    pub open spec fn start() -> Simd {
        Simd { masks: Masks { interest: 0, quote: 0 }, active_mask: ActiveMask::Interest }
    }

    /// Makes the state outside of any block and any string.
    pub fn new() -> (r: Simd)
        ensures
            r == Simd::start(),
    {
        Simd { masks: Masks { interest: 0, quote: 0 }, active_mask: ActiveMask::default() }
    }
}

/// The mask whose bits from `k` upwards are set; none are for `k` above 31.
pub open spec fn keep_from(k: u32) -> u32 {
    ((0xffff_ffffu64 << (k as u64)) & 0xffff_ffffu64) as u32
}

/// Whether bit `k` of the mask is set.
pub open spec fn bit(m: u32, k: u32) -> bool {
    (m >> k) & 1u32 == 1u32
}

impl Masks {
    /// The masks with no bit of interest left below the first quote or
    /// escape.
    pub open spec fn pre_masked_quote(self) -> Masks {
        Masks { interest: self.interest & keep_from(u32_trailing_zeros(self.quote)), ..self }
    }

    /// The masks without the bits up to and including `k`.
    pub open spec fn shifted_past(self, k: u32) -> Masks {
        Masks {
            interest: self.interest & keep_from((k + 1) as u32),
            quote: self.quote & keep_from((k + 1) as u32),
        }
    }
}

/// Computes `keep_from`.
pub fn mask_from(k: u32) -> (m: u32)
    requires
        k <= 33,
    ensures
        m == keep_from(k),
{
    let wide: u64 = (0xffff_ffffu64 << (k as u64)) & 0xffff_ffffu64;
    assert(wide <= 0xffff_ffffu64) by (bit_vector)
        requires
            wide == (0xffff_ffffu64 << (k as u64)) & 0xffff_ffffu64,
    ;
    wide as u32
}

/// While the quote mask is active, drops every bit of interest below the
/// first quote or escape: inside a string nothing else matters.
pub fn pre_mask_quote(masks: &mut Masks)
    ensures
        *final(masks) == old(masks).pre_masked_quote(),
{
    let offset = masks.quote.trailing_zeros();
    proof {
        axiom_u32_trailing_zeros(masks.quote);
    }
    masks.interest = masks.interest & mask_from(offset);
}

/// While the interest mask is active, every bit of interest counts.
pub fn pre_mask_interest(masks: &mut Masks)
    ensures
        *final(masks) == *old(masks),
{
}

/// A mask keeps of another one the bits from `j` upwards.
pub proof fn lemma_keep_from(m: u32, j: u32, k: u32)
    by (bit_vector)
    requires
        k < 32,
        j <= 33,
    ensures
        bit(m & keep_from(j), k) == (k >= j && bit(m, k)),
{
}

/// A mask with one more bit set.
pub proof fn lemma_set_bit(m: u32, j: u32, k: u32)
    by (bit_vector)
    requires
        k < 32,
        j < 32,
    ensures
        bit(m | (1u32 << j), k) == (k == j || bit(m, k)),
{
}

/// The empty mask has no bit set.
pub proof fn lemma_no_bit(k: u32)
    by (bit_vector)
    requires
        k < 32,
    ensures
        !bit(0u32, k),
{
}

/// A mask that is not empty is at least as large as its lowest bit asks
/// for, and loses weight when that bit goes.
pub proof fn lemma_drop_bit(m: u32, j: u32)
    by (bit_vector)
    requires
        j < 32,
        bit(m, j),
    ensures
        m != 0,
        m & keep_from((j + 1) as u32) < m,
{
}

/// Keeping the upper bits of a mask never adds to it.
pub proof fn lemma_keep_le(m: u32, j: u32)
    by (bit_vector)
    requires
        j <= 33,
    ensures
        m & keep_from(j) <= m,
{
}

/// Where the lowest bit of a mask is: the mask has that bit and none below
/// it, and an empty mask has none at all.
pub proof fn lemma_trailing_zeros(m: u32)
    ensures
        u32_trailing_zeros(m) <= 32,
        m == 0 <==> u32_trailing_zeros(m) == 32,
        m != 0 ==> bit(m, u32_trailing_zeros(m)),
        forall|k: u32| k < u32_trailing_zeros(m) ==> !#[trigger] bit(m, k),
{
    axiom_u32_trailing_zeros(m);
    let t = u32_trailing_zeros(m);
    assert forall|k: u32| k < t implies !#[trigger] bit(m, k) by {
        assert((m >> k) & 1u32 == 0u32);
    }
}

/// A mask with no bit set is empty.
pub proof fn lemma_empty_mask(m: u32)
    requires
        forall|k: u32| k < 32 ==> !#[trigger] bit(m, k),
    ensures
        m == 0,
{
    lemma_trailing_zeros(m);
}

/// The group of `:`.
pub const GROUP_C: u8 = 0x01;

/// The group of `{`, `}`, `[` and `]`.
pub const GROUP_B: u8 = 0x02;

/// The group of `,`.
pub const GROUP_N: u8 = 0x04;

/// The group of `\`.
pub const GROUP_E: u8 = 0x08;

/// The group of `"`.
pub const GROUP_Q: u8 = 0x10;

/// Whether the scan may have to act on a byte.
pub open spec fn is_interest(c: u8) -> bool {
    c == QUOTE || c == COLON || c == COMMA || c == ESCAPE || c == MAP_BEGIN || c == ARR_BEGIN
        || c == MAP_END || c == ARR_END
}

/// Whether a byte is a `"` or a `\`.
pub open spec fn is_quote_escape(c: u8) -> bool {
    c == QUOTE || c == ESCAPE
}

/// The groups that have a byte with the given low nibble.
pub open spec fn groups_lo(nibble: u8) -> u8 {
    if nibble == 0x2 {
        GROUP_Q
    } else if nibble == 0xa {
        GROUP_C
    } else if nibble == 0xb || nibble == 0xd {
        GROUP_B
    } else if nibble == 0xc {
        GROUP_N | GROUP_E
    } else {
        0
    }
}

/// The groups that have a byte with the given high nibble.
pub open spec fn groups_hi(nibble: u8) -> u8 {
    if nibble == 0x2 {
        GROUP_N | GROUP_Q
    } else if nibble == 0x3 {
        GROUP_C
    } else if nibble == 0x5 {
        GROUP_B | GROUP_E
    } else if nibble == 0x7 {
        GROUP_B
    } else {
        0
    }
}

/// The groups that a byte belongs to: those that both of its nibbles have.
pub open spec fn groups(c: u8) -> u8 {
    groups_lo(c & 0x0f) & groups_hi(c >> 4)
}

/// A byte belongs to a group exactly if it is of interest.
pub proof fn lemma_groups(c: u8)
    by (bit_vector)
    ensures
        (groups(c) != 0) == is_interest(c),
{
}

/// Looks up the groups of a low nibble.
pub fn interest_lo(nibble: u8) -> (r: u8)
    ensures
        r == groups_lo(nibble),
{
    if nibble == 0x2 {
        GROUP_Q
    } else if nibble == 0xa {
        GROUP_C
    } else if nibble == 0xb || nibble == 0xd {
        GROUP_B
    } else if nibble == 0xc {
        GROUP_N | GROUP_E
    } else {
        0
    }
}

/// Looks up the groups of a high nibble.
pub fn interest_hi(nibble: u8) -> (r: u8)
    ensures
        r == groups_hi(nibble),
{
    if nibble == 0x2 {
        GROUP_N | GROUP_Q
    } else if nibble == 0x3 {
        GROUP_C
    } else if nibble == 0x5 {
        GROUP_B | GROUP_E
    } else if nibble == 0x7 {
        GROUP_B
    } else {
        0
    }
}

/// A class of bytes that a mask can be about.
#[derive(Debug, Clone, Copy, PartialEq, Eq, Structural)]
pub enum ByteClass {
    /// The bytes of interest to a scan.
    Interest,
    /// `"` and `\`.
    QuoteEscape,
    /// `\` alone.
    Escape,
}

impl ByteClass {
    /// Whether a byte is of the class.
    pub open spec fn has(self, c: u8) -> bool {
        match self {
            ByteClass::Interest => is_interest(c),
            ByteClass::QuoteEscape => is_quote_escape(c),
            ByteClass::Escape => c == ESCAPE,
        }
    }
}

/// The mask of the first `n` bytes of a block: a bit for each byte of the
/// class.
pub open spec fn mask_of(block: Seq<u8>, n: nat, class: ByteClass) -> u32
    decreases n,
{
    if n == 0 {
        0
    } else {
        let rest = mask_of(block, (n - 1) as nat, class);
        if class.has(block[n - 1]) {
            rest | (1u32 << ((n - 1) as u32))
        } else {
            rest
        }
    }
}

/// The mask of a block that has a bit for each `"` and `\`.
pub open spec fn quote_mask(block: Seq<u8>) -> u32 {
    mask_of(block, block.len(), ByteClass::QuoteEscape)
}

/// The mask of a block that has a bit for each byte of interest.
pub open spec fn interest_mask(block: Seq<u8>) -> u32 {
    mask_of(block, block.len(), ByteClass::Interest)
}

/// The mask of a block that has a bit for each `\`.
pub open spec fn escape_mask(block: Seq<u8>) -> u32 {
    mask_of(block, block.len(), ByteClass::Escape)
}

/// The mask of the first `n` bytes has a bit exactly for those of them that
/// are of the class.
pub proof fn lemma_mask_of(block: Seq<u8>, n: nat, class: ByteClass)
    requires
        n <= 32,
    ensures
        forall|k: u32|
            k < 32 ==> #[trigger] bit(mask_of(block, n, class), k) == (k < n && class.has(
                block[k as int],
            )),
    decreases n,
{
    if n == 0 {
        assert forall|k: u32| k < 32 implies !#[trigger] bit(0u32, k) by {
            lemma_no_bit(k);
        }
    } else {
        lemma_mask_of(block, (n - 1) as nat, class);
        let rest = mask_of(block, (n - 1) as nat, class);
        assert forall|k: u32| k < 32 implies #[trigger] bit(mask_of(block, n, class), k) == (k < n
            && class.has(block[k as int])) by {
            lemma_set_bit(rest, (n - 1) as u32, k);
            assert(bit(rest, k) == (k < n - 1 && class.has(block[k as int])));
        }
    }
}

/// Finds the quotes and escapes of a block.
pub fn mask_quote_escape(block: &[u8]) -> (m: u32)
    requires
        block@.len() <= BLOCK_SIZE,
    ensures
        m == quote_mask(block@),
{
    let width = block.len() as u32;
    let mut m: u32 = 0;
    let mut k: u32 = 0;
    while k < width
        invariant
            k <= width <= 32,
            block@.len() == width,
            m == mask_of(block@, k as nat, ByteClass::QuoteEscape),
        decreases width - k,
    {
        let c = block[k as usize];
        if c == QUOTE || c == ESCAPE {
            m = m | (1u32 << k);
        }
        k += 1;
    }
    m
}

/// Finds the escapes of a block.
pub fn mask_escape(block: &[u8]) -> (m: u32)
    requires
        block@.len() <= BLOCK_SIZE,
    ensures
        m == escape_mask(block@),
{
    let width = block.len() as u32;
    let mut m: u32 = 0;
    let mut k: u32 = 0;
    while k < width
        invariant
            k <= width <= 32,
            block@.len() == width,
            m == mask_of(block@, k as nat, ByteClass::Escape),
        decreases width - k,
    {
        let c = block[k as usize];
        if c == ESCAPE {
            m = m | (1u32 << k);
        }
        k += 1;
    }
    m
}

/// Finds the bytes of interest of a block: each byte is looked up by its low
/// and by its high nibble, and is of interest if the two agree on a group.
pub fn mask_interest(block: &[u8]) -> (m: u32)
    requires
        block@.len() <= BLOCK_SIZE,
    ensures
        m == interest_mask(block@),
{
    let width = block.len() as u32;
    let mut m: u32 = 0;
    let mut k: u32 = 0;
    while k < width
        invariant
            k <= width <= 32,
            block@.len() == width,
            m == mask_of(block@, k as nat, ByteClass::Interest),
        decreases width - k,
    {
        let c = block[k as usize];
        proof {
            lemma_groups(c);
        }
        if interest_lo(c & 0x0f) & interest_hi(c >> 4) != 0 {
            m = m | (1u32 << k);
        }
        k += 1;
    }
    m
}


impl ScanState {
    /// The state with the masks of a new block: while the quote mask is
    /// active, no bit of interest is left below the first quote or escape.
    pub open spec fn with_masks(self, masks: Masks) -> ScanState {
        ScanState {
            simd: Simd {
                masks: match self.simd.active_mask {
                    ActiveMask::Interest => masks,
                    ActiveMask::Quote => masks.pre_masked_quote(),
                },
                ..self.simd
            },
            ..self
        }
    }

    /// How far into the block the next byte to visit is: as far as the
    /// lowest bit of the active mask.
    pub open spec fn next_offset(self) -> u32 {
        u32_trailing_zeros(
            match self.simd.active_mask {
                ActiveMask::Interest => self.simd.masks.interest,
                ActiveMask::Quote => self.simd.masks.quote,
            },
        )
    }

    /// The state after the next byte of the block was visited: the masks lose
    /// the bits up to that byte, and the byte is handled as a byte of
    /// interest.
    #[verifier::opaque]
    pub open spec fn visit(self, input: Seq<u8>) -> ScanState {
        let offset = self.next_offset();
        ScanState {
            simd: Simd { masks: self.simd.masks.shifted_past(offset), ..self.simd },
            ..self
        }.interest_at(input, self.cursor + offset)
    }

    /// The state after every byte of the block that the masks still name was
    /// visited. (Each visit takes a bit from the interest mask.)
    pub open spec fn walk(self, input: Seq<u8>) -> ScanState
        decreases self.simd.masks.interest,
    {
        if self.simd.masks.interest == 0 {
            self
        } else {
            let next = self.visit(input);
            if next.simd.masks.interest < self.simd.masks.interest {
                next.walk(input)
            } else {
                next
            }
        }
    }

    /// The state after the bytes of interest of the block of `width` bytes
    /// at the cursor were visited. A block without quote or escape is
    /// skipped as a whole while the quote mask is active.
    #[verifier::opaque]
    pub open spec fn walked(self, input: Seq<u8>, width: int) -> ScanState {
        let bytes = input.subrange(self.cursor, self.cursor + width);
        let quote = quote_mask(bytes);
        if quote != 0 || self.simd.active_mask == ActiveMask::Interest {
            self.with_masks(Masks { interest: interest_mask(bytes), quote }).walk(input)
        } else {
            self
        }
    }

    /// The state after the block of `width` bytes at the cursor was
    /// scanned: its bytes of interest are visited, and the cursor moves on
    /// by a block.
    pub open spec fn block(self, input: Seq<u8>, width: int) -> ScanState {
        ScanState { cursor: self.cursor + width, ..self.walked(input, width) }
    }

    /// The state after every whole block of `width` bytes between the
    /// cursor and `to` was scanned.
    pub open spec fn run_blocks(self, input: Seq<u8>, to: int, width: int) -> ScanState
        decreases to - self.cursor,
    {
        if 0 < width <= to - self.cursor {
            self.block(input, width).run_blocks(input, to, width)
        } else {
            self
        }
    }

    /// The state after a scan by blocks: the first `lead` bytes are read one
    /// by one, then every whole block is scanned, and the bytes that are
    /// left are read one by one again.
    pub open spec fn run_simd(self, input: Seq<u8>, lead: int, width: int) -> ScanState {
        self.run_to(input, self.cursor + lead).run_blocks(input, self.end, width).run_to(
            input,
            self.end,
        )
    }

    /// Whether the masks fit the block of `width` bytes at the cursor from
    /// its byte `from` on: they have no bit below `from`; the quote mask has a bit for each
    /// `"` and `\` from there on; the interest mask has the bits of the quote
    /// mask and otherwise only bits of bytes of interest; and while the quote
    /// mask is active, it has no bit below the first quote or escape.
    pub open spec fn masks_fit(self, input: Seq<u8>, from: int, width: int) -> bool {
        let m = self.simd.masks;
        &&& forall|k: u32|
            k < 32 ==> #[trigger] bit(m.quote, k) == (from <= k < width && is_quote_escape(
                input[self.cursor + k],
            ))
        &&& forall|k: u32|
            k < 32 && #[trigger] bit(m.interest, k) ==> from <= k < width && is_interest(
                input[self.cursor + k],
            )
        &&& forall|k: u32| k < 32 && bit(m.quote, k) ==> #[trigger] bit(m.interest, k)
        &&& self.simd.active_mask == ActiveMask::Quote ==> forall|k: u32|
            k < 32 && k < u32_trailing_zeros(m.quote) ==> !#[trigger] bit(m.interest, k)
    }
}

/// What a byte of interest does to the masks: the quote mask stays; the
/// interest mask stays or loses the bits below the first quote or escape;
/// and if the quote mask is active afterwards, the interest mask has lost
/// them, unless the byte is a `\` before a `"` or a `\`.
pub proof fn lemma_interest_masks(s: ScanState, input: Seq<u8>, at: int)
    requires
        s.simd.active_mask == ActiveMask::Quote ==> is_quote_escape(input[at]),
    ensures
        ({
            let r = s.interest_at(input, at);
            &&& r.simd.masks.quote == s.simd.masks.quote
            &&& (r.simd.masks.interest == s.simd.masks.interest || r.simd.masks.interest
                == s.simd.masks.pre_masked_quote().interest)
            &&& r.simd.active_mask == ActiveMask::Quote ==> r.simd.masks.interest
                == s.simd.masks.pre_masked_quote().interest || (r.simd == s.simd && input[at]
                == ESCAPE && is_quote_escape(input[at + 1]))
            &&& r.cursor == s.cursor
            &&& r.end == s.end
        }),
{
    reveal(ScanState::interest_at);
    reveal(ScanState::primitive_at);
}

impl Scan {
    /// Takes in the masks of a new block.
    pub(crate) fn set_masks(&mut self, masks: Masks)
        ensures
            final(self).simd == (Simd {
                masks: match old(self).simd.active_mask {
                    ActiveMask::Interest => masks,
                    ActiveMask::Quote => masks.pre_masked_quote(),
                },
                ..old(self).simd
            }),
            final(self).input_offset == old(self).input_offset,
            final(self).input_len == old(self).input_len,
            final(self).escape == old(self).escape,
            final(self).error == old(self).error,
            final(self).stack == old(self).stack,
    {
        self.simd.masks = masks;
        match self.simd.active_mask {
            ActiveMask::Interest => pre_mask_interest(&mut self.simd.masks),
            ActiveMask::Quote => pre_mask_quote(&mut self.simd.masks),
        }
    }
}

/// The masks without the bits below the first quote or escape still fit.
pub proof fn lemma_pre_masked_fit(m: Masks, k: u32)
    requires
        k < 32,
    ensures
        bit(m.pre_masked_quote().interest, k) == (k >= u32_trailing_zeros(m.quote) && bit(
            m.interest,
            k,
        )),
{
    lemma_trailing_zeros(m.quote);
    lemma_keep_from(m.interest, u32_trailing_zeros(m.quote), k);
}

/// Visits the next byte of the block that the masks name.
pub(crate) fn scan_simd_visit(
    i: &mut ScanFnInput,
    Ghost(from): Ghost<int>,
    Ghost(width): Ghost<int>,
)
    requires
        0 <= from <= width <= 32,
        old(i)@.wf(old(i).input@, old(i)@.cursor + from),
        old(i)@.masks_fit(old(i).input@, from, width),
        old(i)@.simd.masks.interest != 0,
        old(i)@.cursor + width <= old(i)@.end,
    ensures
        final(i)@ == old(i)@.visit(old(i).input@),
        from <= old(i)@.next_offset() < width,
        final(i)@.wf(final(i).input@, old(i)@.cursor + old(i)@.next_offset() + 1),
        final(i)@.masks_fit(final(i).input@, old(i)@.next_offset() + 1, width),
        final(i)@.simd.masks.interest < old(i)@.simd.masks.interest,
        final(i).same_input(old(i)),
        final(i)@.keeps(old(i)@),
{
    reveal(ScanState::visit);
    let ghost input = i.input@;
    let ghost before = i@;
    let ghost m = i.scan.simd.masks;
    let active = match i.scan.simd.active_mask {
        ActiveMask::Interest => i.scan.simd.masks.interest,
        ActiveMask::Quote => i.scan.simd.masks.quote,
    };
    let block_offset = active.trailing_zeros();
    proof {
        lemma_trailing_zeros(m.interest);
        lemma_trailing_zeros(m.quote);
        if m.quote == 0 && i.scan.simd.active_mask == ActiveMask::Quote {
            lemma_empty_mask(m.interest);
        }
        assert(block_offset < 32);
        assert(bit(active, block_offset));
        assert(bit(m.interest, block_offset));
        assert(block_offset < width);
        lemma_drop_bit(m.interest, block_offset);
    }
    let shift = mask_from(block_offset + 1);
    i.scan.simd.masks.interest = i.scan.simd.masks.interest & shift;
    i.scan.simd.masks.quote = i.scan.simd.masks.quote & shift;
    let ghost shifted = i@;
    let ghost sm = i.scan.simd.masks;
    proof {
        assert(sm == m.shifted_past(block_offset));
        assert forall|k: u32| k < 32 implies #[trigger] bit(sm.quote, k) == (k >= block_offset + 1
            && bit(m.quote, k)) by {
            lemma_keep_from(m.quote, (block_offset + 1) as u32, k);
        }
        assert forall|k: u32| k < 32 implies #[trigger] bit(sm.interest, k) == (k >= block_offset
            + 1 && bit(m.interest, k)) by {
            lemma_keep_from(m.interest, (block_offset + 1) as u32, k);
        }
    }
    let input_offset = i.scan.input_offset + block_offset as usize;
    i.curr_offset = input_offset;
    i.curr = i.input[input_offset];
    proof {
        assert(bit(m.quote, block_offset) == (from <= block_offset < width && is_quote_escape(
            input[before.cursor + block_offset],
        )));
        lemma_interest_masks(shifted, input, input_offset as int);
        if before.simd.active_mask == ActiveMask::Quote {
            assert forall|k: int| before.cursor + from <= k < input_offset implies input[k]
                != ESCAPE by {
                let j = (k - before.cursor) as u32;
                assert(!bit(m.quote, j));
            }
        }
        shifted.lemma_advance(input, before.cursor + from, input_offset as int);
    }
    match_interest(i);
    proof {
        let r = i@;
        let rm = r.simd.masks;
        let next = block_offset + 1;
        let pm = sm.pre_masked_quote().interest;
        lemma_trailing_zeros(sm.quote);
        lemma_keep_le(sm.interest, u32_trailing_zeros(sm.quote));
        assert forall|k: u32| k < 32 implies #[trigger] bit(pm, k) == (k >= u32_trailing_zeros(
            sm.quote,
        ) && bit(sm.interest, k)) by {
            lemma_pre_masked_fit(sm, k);
        }
        assert forall|k: u32| k < 32 && bit(sm.quote, k) implies #[trigger] bit(pm, k) by {
            assert(bit(m.quote, k));
            assert(bit(m.interest, k));
            assert(bit(sm.interest, k));
            if k < u32_trailing_zeros(sm.quote) {
                assert(!bit(sm.quote, k));
            }
        }
        assert forall|k: u32| k < 32 && bit(sm.quote, k) implies #[trigger] bit(
            sm.interest,
            k,
        ) by {
            assert(bit(m.quote, k));
            assert(bit(m.interest, k));
        }
        if r.simd.active_mask == ActiveMask::Quote && rm.interest != pm {
            assert(is_quote_escape(input[input_offset + 1]));
            assert(rm == sm);
            if next < width {
                assert(bit(m.quote, next as u32));
                assert(bit(sm.quote, next as u32));
                assert(u32_trailing_zeros(sm.quote) <= next);
            }
            assert forall|k: u32| k < 32 && k < u32_trailing_zeros(rm.quote) implies !#[trigger] bit(
                rm.interest,
                k,
            ) by {
                if bit(rm.interest, k) {
                    assert(bit(m.interest, k));
                    assert(next <= k < width);
                }
            }
        }
        assert(r.masks_fit(input, next as int, width));
    }
}

/// Scans the block at the scan's offset and moves on to the next.
pub(crate) fn scan_simd_block(i: &mut ScanFnInput, width: usize)
    requires
        0 < width <= BLOCK_SIZE,
        old(i)@.wf(old(i).input@, old(i)@.cursor),
        old(i)@.cursor + width <= old(i)@.end,
    ensures
        final(i)@ == old(i)@.block(old(i).input@, width as int),
        final(i)@.wf(final(i).input@, final(i)@.cursor),
        final(i)@.cursor == old(i)@.cursor + width,
        final(i)@.end == old(i)@.end,
        final(i).input == old(i).input,
        final(i)@.keeps(old(i)@),
{
    reveal(ScanState::walked);
    let ghost input = i.input@;
    let ghost before = i@;
    let ghost first = *i;
    let base = i.scan.input_offset;
    let whole = i.input;
    let block = &whole[base..base + width];
    let mask_quote = mask_quote_escape(block);
    if mask_quote != 0 || i.scan.simd.active_mask == ActiveMask::Interest {
        let mask_interest = mask_interest(block);
        let ghost fresh = Masks { interest: mask_interest, quote: mask_quote };
        i.scan.set_masks(Masks { interest: mask_interest, quote: mask_quote });
        let ghost from: int = 0;
        let ghost loaded = i@;
        proof {
            lemma_mask_of(block@, width as nat, ByteClass::QuoteEscape);
            lemma_mask_of(block@, width as nat, ByteClass::Interest);
            assert(loaded == before.with_masks(fresh));
            assert forall|k: u32| k < 32 implies #[trigger] bit(
                loaded.simd.masks.interest,
                k,
            ) == (bit(fresh.interest, k) && (loaded.simd.active_mask == ActiveMask::Interest || k
                >= u32_trailing_zeros(fresh.quote))) by {
                lemma_pre_masked_fit(fresh, k);
            }
            lemma_trailing_zeros(fresh.quote);
            assert forall|k: u32| k < width implies block@[k as int] == input[base + k] by {}
            assert forall|k: u32| k < 32 && bit(loaded.simd.masks.quote, k) implies #[trigger] bit(
                loaded.simd.masks.interest,
                k,
            ) by {
                assert(bit(fresh.quote, k));
                assert(bit(fresh.interest, k));
                if k < u32_trailing_zeros(fresh.quote) {
                    assert(!bit(fresh.quote, k));
                }
            }
            assert(loaded.masks_fit(input, 0, width as int));
        }
        while i.scan.simd.masks.interest != 0
            invariant
                0 <= from <= width <= 32,
                i@.wf(input, base + from),
                i@.masks_fit(input, from, width as int),
                i@.cursor == base,
                i@.end == before.end,
                base + width <= before.end,
                i.input@ == input,
                i.input == first.input,
                i@.walk(input) == loaded.walk(input),
                i@.keeps(before),
            decreases i.scan.simd.masks.interest,
        {
            let ghost offset = i@.next_offset();
            scan_simd_visit(i, Ghost(from), Ghost(width as int));
            proof {
                from = offset + 1;
            }
        }
        proof {
            let done = i@;
            if done.simd.active_mask == ActiveMask::Quote {
                lemma_trailing_zeros(done.simd.masks.interest);
                assert forall|k: u32| k < 32 implies !#[trigger] bit(done.simd.masks.quote, k) by {
                    if bit(done.simd.masks.quote, k) {
                        assert(bit(done.simd.masks.interest, k));
                    }
                }
                assert forall|k: int| base + from <= k < base + width implies input[k]
                    != ESCAPE by {
                    let j = (k - base) as u32;
                    assert(!bit(done.simd.masks.quote, j));
                }
            }
            done.lemma_advance(input, base + from, base + width);
        }
    } else {
        proof {
            lemma_mask_of(block@, width as nat, ByteClass::QuoteEscape);
            lemma_trailing_zeros(0u32);
            assert forall|k: int| base <= k < base + width implies input[k] != ESCAPE by {
                let j = (k - base) as u32;
                assert(block@[j as int] == input[k]);
                assert(!bit(mask_quote, j));
            }
            i@.lemma_advance(input, base as int, base + width);
        }
    }
    i.scan.input_offset += width;
}

/// Scans the rest of the input by blocks: the first `lead` bytes one by
/// one, then block after block, and what is left one by one again.
pub(crate) fn scan_simd(i: &mut ScanFnInput, lead: usize, width: usize)
    requires
        0 < width <= BLOCK_SIZE,
        old(i)@.wf(old(i).input@, old(i)@.cursor),
        old(i)@.cursor + lead <= old(i)@.end,
    ensures
        final(i)@ == old(i)@.run_simd(old(i).input@, lead as int, width as int),
        final(i)@.wf(final(i).input@, final(i)@.cursor),
        final(i)@.cursor == old(i)@.end,
        final(i)@.end == old(i)@.end,
        final(i).input == old(i).input,
        final(i)@.keeps(old(i)@),
{
    let ghost input = i.input@;
    let ghost first = *i;
    if lead != 0 {
        let read_to = i.scan.input_offset + lead;
        fallback::scan_to(i, read_to);
    }
    let ghost led = i@;
    assert(led == first@.run_to(input, first@.cursor + lead));
    while i.scan.input_len - i.scan.input_offset >= width
        invariant
            0 < width <= BLOCK_SIZE,
            i@.wf(input, i@.cursor),
            i@.end == first@.end,
            i.input@ == input,
            i.input == first.input,
            i@.keeps(first@),
            i@.run_blocks(input, first@.end, width as int) == led.run_blocks(
                input,
                first@.end,
                width as int,
            ),
        decreases i.scan.input_len - i.scan.input_offset,
    {
        scan_simd_block(i, width);
    }
    fallback::scan(i);
}

} // verus!
