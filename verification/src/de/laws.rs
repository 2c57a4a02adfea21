//! What holds of the two ways to scan: by blocks and byte by byte.
//!
//! The two give the same table for every input on which the scan byte by
//! byte meets each byte where it belongs. On other inputs they may differ:
//! a scan by blocks does not look at the bytes between two bytes of interest,
//! and it acts on every byte of interest that it meets outside of a string.

use vstd::prelude::*;
use vstd::std_specs::bits::u32_trailing_zeros;
use crate::de::interest::{ARR_END, COMMA, ESCAPE, MAP_END, QUOTE};
use crate::de::simd::{
    bit, interest_mask, is_interest, is_quote_escape, lemma_drop_bit, lemma_empty_mask,
    lemma_keep_from, lemma_keep_le, lemma_mask_of, lemma_pre_masked_fit, lemma_trailing_zeros,
    quote_mask, ActiveMask, Block, ByteClass, Masks, Simd, BLOCK_SIZE,
};
use crate::de::state::{ActivePrimitiveKind, ScanState};
use crate::de::{scan_bounds, scanned, scanned_fallback};
use crate::std_ext::str::lemma_trim_end_bytes_prefix;

verus! {

impl ScanState {
    /// Whether the byte at the cursor is one on which both ways to scan
    /// agree: outside of any primitive it is a byte of interest, and no `\`;
    /// inside a number or an atom it is no byte of interest, or one of `,`,
    /// `}` and `]`. Inside a string every byte is.
    pub open spec fn agrees(self, input: Seq<u8>) -> bool {
        let c = input[self.cursor];
        match self.active.active_primitive.kind {
            ActivePrimitiveKind::Idle => is_interest(c) && c != ESCAPE,
            ActivePrimitiveKind::Str => true,
            _ => !is_interest(c) || c == COMMA || c == MAP_END || c == ARR_END,
        }
    }

    /// Whether both ways to scan agree on every byte that a scan byte by
    /// byte reads from the cursor up to `to`.
    pub open spec fn regular_to(self, input: Seq<u8>, to: int) -> bool
        decreases to - self.cursor,
    {
        self.cursor >= to || (self.agrees(input) && self.step(input).regular_to(input, to))
    }

    /// Whether the state is one that a scan byte by byte can be in: the
    /// quote mask is active inside a string and nowhere else, a byte is
    /// escaped inside a string only, no bits of a block are left, and no
    /// container on the stack was left inside a string.
    pub open spec fn settled(self) -> bool {
        &&& (self.simd.active_mask == ActiveMask::Quote) == (self.active.active_primitive.kind
            == ActivePrimitiveKind::Str)
        &&& self.escape ==> self.active.active_primitive.kind == ActivePrimitiveKind::Str
        &&& self.simd.masks == (Masks { interest: 0, quote: 0 })
        &&& forall|i: int|
            0 <= i < self.bottom.len() ==> (#[trigger] self.bottom[i]).active_primitive.kind
                != ActivePrimitiveKind::Str
    }

    /// The state with another cursor and other masks.
    pub open spec fn lifted(self, cursor: int, masks: Masks) -> ScanState {
        ScanState { cursor, simd: Simd { masks, ..self.simd }, ..self }
    }

    /// Whether a byte of interest at `at` makes the scan drop the bits of
    /// interest below the next quote or escape.
    pub open spec fn premasks_at(self, input: Seq<u8>, at: int) -> bool {
        let c = input[at];
        ||| c == QUOTE && (self.escape || self.active.active_primitive.kind
            != ActivePrimitiveKind::Str)
        ||| c == ESCAPE && (self.escape || !is_quote_escape(input[at + 1]))
    }
}

/// Whether an input is one on which both ways to scan agree on every byte
/// that a scan byte by byte reads.
pub open spec fn regular(input: Seq<u8>) -> bool {
    match scan_bounds(input) {
        Some((start, end)) => ScanState::begin(start, end).regular_to(input, end),
        None => true,
    }
}

/// The empty masks stay empty.
pub proof fn lemma_pre_masked_empty()
    ensures
        (Masks { interest: 0, quote: 0 }).pre_masked_quote() == (Masks { interest: 0, quote: 0 }),
{
    let m = Masks { interest: 0, quote: 0 };
    lemma_keep_le(0u32, u32_trailing_zeros(0u32));
    lemma_trailing_zeros(0u32);
}

/// The start of a value does the same to a state whatever its cursor and
/// its masks are, and nothing to the masks.
pub proof fn lemma_primitive_lifted(s: ScanState, input: Seq<u8>, at: int, cursor: int, m: Masks)
    ensures
        s.lifted(cursor, m).primitive_at(input, at) == s.primitive_at(input, at).lifted(
            cursor,
            m,
        ),
{
    reveal(ScanState::primitive_at);
}

/// The end of a number does the same to a state whatever its cursor and its
/// masks are, and nothing to the masks.
pub proof fn lemma_num_end_lifted(s: ScanState, at: int, cursor: int, m: Masks)
    ensures
        s.lifted(cursor, m).num_end_at(at) == s.num_end_at(at).lifted(cursor, m),
{
}

/// A `"` does the same to a state whatever its cursor and its masks are.
pub proof fn lemma_str_lifted(s: ScanState, input: Seq<u8>, at: int, cursor: int, m: Masks)
    requires
        input[at] == QUOTE,
    ensures
        s.lifted(cursor, m).str_at(at) == s.str_at(at).lifted(
            cursor,
            if s.premasks_at(input, at) {
                m.pre_masked_quote()
            } else {
                m
            },
        ),
{
}

/// A `\` does the same to a state whatever its cursor and its masks are.
pub proof fn lemma_escape_lifted(s: ScanState, input: Seq<u8>, at: int, cursor: int, m: Masks)
    requires
        input[at] == ESCAPE,
    ensures
        s.lifted(cursor, m).escape_at(input, at) == s.escape_at(input, at).lifted(
            cursor,
            if s.premasks_at(input, at) {
                m.pre_masked_quote()
            } else {
                m
            },
        ),
{
}

/// A `,` does the same to a state whatever its cursor and its masks are.
pub proof fn lemma_value_elem_end_lifted(
    s: ScanState,
    input: Seq<u8>,
    at: int,
    cursor: int,
    m: Masks,
)
    ensures
        s.lifted(cursor, m).value_elem_end_at(input, at) == s.value_elem_end_at(input, at).lifted(
            cursor,
            m,
        ),
{
    lemma_num_end_lifted(s, at, cursor, m);
    lemma_primitive_lifted(s.num_end_at(at), input, at + 1, cursor, m);
}

/// A `}` or a `]` does the same to a state whatever its cursor and its masks
/// are.
pub proof fn lemma_end_lifted(s: ScanState, at: int, cursor: int, m: Masks)
    ensures
        s.lifted(cursor, m).map_end_at(at) == s.map_end_at(at).lifted(cursor, m),
        s.lifted(cursor, m).arr_end_at(at) == s.arr_end_at(at).lifted(cursor, m),
{
    lemma_num_end_lifted(s, at, cursor, m);
}

/// A `{` or a `[` does the same to a state whatever its cursor and its masks
/// are.
pub proof fn lemma_begin_lifted(s: ScanState, input: Seq<u8>, at: int, cursor: int, m: Masks)
    ensures
        s.lifted(cursor, m).map_begin_at() == s.map_begin_at().lifted(cursor, m),
        s.lifted(cursor, m).arr_begin_at(input, at) == s.arr_begin_at(input, at).lifted(
            cursor,
            m,
        ),
{
    let pushed = s.pushed(crate::de::offsets::OffsetKind::Arr(0));
    assert(s.lifted(cursor, m).pushed(crate::de::offsets::OffsetKind::Arr(0)) == pushed.lifted(
        cursor,
        m,
    ));
    let begun = pushed.begun(crate::de::state::ActiveMapArr::arr_at(pushed.table.len() as u16));
    assert(pushed.lifted(cursor, m).begun(
        crate::de::state::ActiveMapArr::arr_at(pushed.table.len() as u16),
    ) == begun.lifted(cursor, m));
    lemma_primitive_lifted(begun, input, at + 1, cursor, m);
}

/// A byte of interest does the same to a state whatever its cursor and its
/// masks are, and to the masks what `premasks_at` says.
pub proof fn lemma_interest_lifted(s: ScanState, input: Seq<u8>, at: int, cursor: int, m: Masks)
    ensures
        s.lifted(cursor, m).interest_at(input, at) == s.interest_at(input, at).lifted(
            cursor,
            if s.premasks_at(input, at) {
                m.pre_masked_quote()
            } else {
                m
            },
        ),
{
    reveal(ScanState::interest_at);
    let c = input[at];
    if c == QUOTE {
        lemma_str_lifted(s, input, at, cursor, m);
    } else if c == ESCAPE {
        lemma_escape_lifted(s, input, at, cursor, m);
    } else if c == COMMA {
        lemma_value_elem_end_lifted(s, input, at, cursor, m);
    } else if c == MAP_END || c == ARR_END {
        lemma_end_lifted(s, at, cursor, m);
    } else if c == crate::de::interest::COLON {
        lemma_primitive_lifted(s, input, at + 1, cursor, m);
    } else if c == crate::de::interest::MAP_BEGIN || c == crate::de::interest::ARR_BEGIN {
        lemma_begin_lifted(s, input, at, cursor, m);
    }
}

impl ScanState {
    /// Whether the byte at the cursor is one that a scan by blocks visits:
    /// a quote or escape while the quote mask is active, and a byte of
    /// interest while the interest mask is.
    pub open spec fn visits(self, input: Seq<u8>) -> bool {
        match self.simd.active_mask {
            ActiveMask::Interest => is_interest(input[self.cursor]),
            ActiveMask::Quote => is_quote_escape(input[self.cursor]),
        }
    }
}

/// The start of a value leaves the masks, the escape and the stack as they
/// are, and the scan outside of a string if it was.
pub proof fn lemma_primitive_keeps(s: ScanState, input: Seq<u8>, at: int)
    ensures
        ({
            let r = s.primitive_at(input, at);
            &&& r.simd == s.simd
            &&& r.escape == s.escape
            &&& r.bottom == s.bottom
            &&& r.cursor == s.cursor
            &&& r.end == s.end
            &&& s.active.active_primitive.kind != ActivePrimitiveKind::Str
                ==> r.active.active_primitive.kind != ActivePrimitiveKind::Str
        }),
{
    reveal(ScanState::primitive_at);
}

/// A scan byte by byte handles a byte on which both ways agree as a byte of
/// interest if a scan by blocks visits it, and not at all if not.
pub proof fn lemma_handled(s: ScanState, input: Seq<u8>)
    requires
        s.settled(),
        s.agrees(input),
    ensures
        s.handled(input) == if s.visits(input) {
            s.interest_at(input, s.cursor)
        } else {
            s
        },
{
    reveal(ScanState::handled);
    reveal(ScanState::interest_at);
}

/// After a byte that both ways agree on and a scan by blocks visits, the
/// state is again one that a scan byte by byte can be in. If the byte makes
/// the scan drop bits of interest, the quote mask is active afterwards; if
/// it is active afterwards and no bits were dropped, the byte is a `\` before
/// a `"` or a `\`.
pub proof fn lemma_visit_settled(s: ScanState, input: Seq<u8>)
    requires
        s.settled(),
        s.agrees(input),
        s.visits(input),
    ensures
        ({
            let r = s.interest_at(input, s.cursor);
            &&& r.lifted(s.cursor + 1, r.simd.masks).settled()
            &&& r.cursor == s.cursor
            &&& r.end == s.end
            &&& s.premasks_at(input, s.cursor) ==> r.simd.active_mask == ActiveMask::Quote
            &&& r.simd.active_mask == ActiveMask::Quote && !s.premasks_at(input, s.cursor)
                ==> is_quote_escape(input[s.cursor + 1])
        }),
{
    reveal(ScanState::interest_at);
    lemma_pre_masked_empty();
    let at = s.cursor;
    let c = input[at];
    if c == QUOTE {
    } else if c == ESCAPE {
    } else if c == COMMA {
        lemma_primitive_keeps(s.num_end_at(at), input, at + 1);
    } else if c == MAP_END {
        let e = s.num_end_at(at);
        if e.bottom.len() > 0 {
            assert(e.bottom[e.bottom.len() - 1].active_primitive.kind != ActivePrimitiveKind::Str);
        }
    } else if c == ARR_END {
        let e = s.num_end_at(at);
        if e.bottom.len() > 0 {
            assert(e.bottom[e.bottom.len() - 1].active_primitive.kind != ActivePrimitiveKind::Str);
        }
    } else if c == crate::de::interest::COLON {
        lemma_primitive_keeps(s, input, at + 1);
    } else if c == crate::de::interest::MAP_BEGIN {
    } else if c == crate::de::interest::ARR_BEGIN {
        let pushed = s.pushed(crate::de::offsets::OffsetKind::Arr(0));
        let begun = pushed.begun(crate::de::state::ActiveMapArr::arr_at(pushed.table.len() as u16));
        lemma_primitive_keeps(begun, input, at + 1);
    }
}

/// Reading up to a place and on from there is reading all the way.
pub proof fn lemma_run_to_split(s: ScanState, input: Seq<u8>, mid: int, to: int)
    requires
        s.cursor <= mid <= to,
    ensures
        s.run_to(input, mid).run_to(input, to) == s.run_to(input, to),
        s.run_to(input, mid).cursor == mid,
    decreases mid - s.cursor,
{
    if s.cursor < mid {
        lemma_run_to_split(s.step(input), input, mid, to);
    }
}

/// If both ways agree all the way, they agree up to a place and on from
/// there.
pub proof fn lemma_regular_split(s: ScanState, input: Seq<u8>, mid: int, to: int)
    requires
        s.cursor <= mid <= to,
        s.regular_to(input, to),
    ensures
        s.regular_to(input, mid),
        s.run_to(input, mid).regular_to(input, to),
    decreases mid - s.cursor,
{
    if s.cursor < mid {
        lemma_regular_split(s.step(input), input, mid, to);
    }
}

/// One byte on which both ways agree leaves a state that a scan byte by
/// byte can be in, and the end of the scan where it is.
pub proof fn lemma_step_settled(s: ScanState, input: Seq<u8>)
    requires
        s.settled(),
        s.agrees(input),
    ensures
        s.step(input).settled(),
        s.step(input).end == s.end,
{
    lemma_handled(s, input);
    if s.visits(input) {
        lemma_visit_settled(s, input);
        let r = s.interest_at(input, s.cursor);
        assert(s.step(input) == r.lifted(s.cursor + 1, r.simd.masks));
    }
}

/// A run of bytes on which both ways agree leaves a state that a scan byte
/// by byte can be in, and the end of the scan where it is.
pub proof fn lemma_run_settled(s: ScanState, input: Seq<u8>, to: int)
    requires
        s.settled(),
        s.regular_to(input, to),
    ensures
        s.run_to(input, to).settled(),
        s.run_to(input, to).end == s.end,
    decreases to - s.cursor,
{
    if s.cursor < to {
        lemma_step_settled(s, input);
        lemma_run_settled(s.step(input), input, to);
    }
}

/// A scan byte by byte only moves its cursor over bytes that a scan by
/// blocks does not visit.
pub proof fn lemma_skip(s: ScanState, input: Seq<u8>, to: int)
    requires
        s.settled(),
        s.cursor <= to,
        s.regular_to(input, to),
        forall|j: int| s.cursor <= j < to ==> !(#[trigger] s.lifted(j, s.simd.masks)).visits(input),
    ensures
        s.run_to(input, to) == s.lifted(to, s.simd.masks),
    decreases to - s.cursor,
{
    if s.cursor < to {
        assert(s.lifted(s.cursor, s.simd.masks) == s);
        lemma_handled(s, input);
        let next = s.step(input);
        assert(next == s.lifted(s.cursor + 1, s.simd.masks));
        assert forall|j: int| next.cursor <= j < to implies !(#[trigger] next.lifted(
            j,
            next.simd.masks,
        )).visits(input) by {
            assert(next.lifted(j, next.simd.masks) == s.lifted(j, s.simd.masks));
        }
        lemma_skip(next, input, to);
    } else {
        assert(s.lifted(to, s.simd.masks) == s);
    }
}

impl ScanState {
    /// Whether the masks say exactly what is left of the block of `width`
    /// bytes at the cursor from its byte `from` on: the quote mask has a bit for each `"`
    /// and `\` from there on, and the interest mask one for each byte of
    /// interest from there on, but, while the quote mask is active, for none
    /// below the first quote or escape.
    pub open spec fn masks_exact(self, input: Seq<u8>, from: int, width: int) -> bool {
        let m = self.simd.masks;
        &&& forall|k: u32|
            k < 32 ==> #[trigger] bit(m.quote, k) == (from <= k < width && is_quote_escape(
                input[self.cursor + k],
            ))
        &&& forall|k: u32|
            k < 32 ==> #[trigger] bit(m.interest, k) == (from <= k < width && is_interest(
                input[self.cursor + k],
            ) && (self.simd.active_mask == ActiveMask::Quote ==> k >= u32_trailing_zeros(
                m.quote,
            )))
    }
}

/// The masks that say exactly what is left of a block name its next byte
/// that a scan by blocks visits: the byte lies in the block, at or behind
/// the byte from which the masks speak, and no byte between the two is
/// visited.
pub proof fn lemma_next_offset(t: ScanState, input: Seq<u8>, from: int, width: int)
    requires
        0 <= from <= width <= 32,
        t.masks_exact(input, from, width),
        t.simd.masks.interest != 0,
    ensures
        from <= t.next_offset() < width,
        bit(t.simd.masks.interest, t.next_offset()),
        t.lifted(t.cursor + t.next_offset(), t.simd.masks).visits(input),
        forall|j: int|
            t.cursor + from <= j < t.cursor + t.next_offset() ==> !(#[trigger] t.lifted(
                j,
                t.simd.masks,
            )).visits(input),
{
    let m = t.simd.masks;
    lemma_trailing_zeros(m.interest);
    lemma_trailing_zeros(m.quote);
    if t.simd.active_mask == ActiveMask::Quote && m.quote == 0 {
        lemma_empty_mask(m.interest);
    }
    let off = t.next_offset();
    assert(off < 32);
    assert(bit(m.interest, off));
    assert forall|j: int| t.cursor + from <= j < t.cursor + off implies !(#[trigger] t.lifted(
        j,
        t.simd.masks,
    )).visits(input) by {
        let k = (j - t.cursor) as u32;
        assert(!bit(m.interest, k) || t.simd.active_mask == ActiveMask::Quote);
        assert(!bit(m.quote, k) || t.simd.active_mask == ActiveMask::Interest);
    }
}

/// Masks that say exactly what is left of a block, and have no bit of
/// interest, have no bit at all, and nothing is left that a scan by blocks
/// visits.
pub proof fn lemma_nothing_left(t: ScanState, input: Seq<u8>, from: int, width: int)
    requires
        0 <= from <= width <= 32,
        t.masks_exact(input, from, width),
        t.simd.masks.interest == 0,
    ensures
        t.simd.masks.quote == 0,
        forall|j: int|
            t.cursor + from <= j < t.cursor + width ==> !(#[trigger] t.lifted(
                j,
                t.simd.masks,
            )).visits(input),
{
    let m = t.simd.masks;
    lemma_trailing_zeros(m.interest);
    lemma_trailing_zeros(m.quote);
    assert forall|k: u32| k < 32 implies !#[trigger] bit(m.quote, k) by {
        if bit(m.quote, k) {
            assert(k >= u32_trailing_zeros(m.quote));
            assert(is_interest(input[t.cursor + k]));
            assert(bit(m.interest, k));
            assert(!bit(m.interest, k));
        }
    }
    lemma_empty_mask(m.quote);
    assert forall|j: int| t.cursor + from <= j < t.cursor + width implies !(#[trigger] t.lifted(
        j,
        t.simd.masks,
    )).visits(input) by {
        let k = (j - t.cursor) as u32;
        assert(!bit(m.interest, k));
        assert(!bit(m.quote, k));
    }
}

/// After a visit the masks again say exactly what is left of the block.
pub proof fn lemma_masks_after_visit(
    t: ScanState,
    input: Seq<u8>,
    from: int,
    after: ScanState,
    premasked: bool,
    width: int,
)
    requires
        0 <= from <= width <= 32,
        t.masks_exact(input, from, width),
        t.simd.masks.interest != 0,
        after.cursor == t.cursor,
        after.simd.masks == if premasked {
            t.simd.masks.shifted_past(t.next_offset()).pre_masked_quote()
        } else {
            t.simd.masks.shifted_past(t.next_offset())
        },
        premasked ==> after.simd.active_mask == ActiveMask::Quote,
        after.simd.active_mask == ActiveMask::Quote && !premasked ==> is_quote_escape(
            input[t.cursor + t.next_offset() + 1],
        ),
    ensures
        after.masks_exact(input, t.next_offset() + 1, width),
        after.simd.masks.interest < t.simd.masks.interest,
{
    let m = t.simd.masks;
    let off = t.next_offset();
    lemma_next_offset(t, input, from, width);
    let sm = m.shifted_past(off);
    let next = (off + 1) as u32;
    assert forall|k: u32| k < 32 implies #[trigger] bit(sm.quote, k) == (k >= next && bit(
        m.quote,
        k,
    )) by {
        lemma_keep_from(m.quote, next, k);
    }
    assert forall|k: u32| k < 32 implies #[trigger] bit(sm.interest, k) == (k >= next && bit(
        m.interest,
        k,
    )) by {
        lemma_keep_from(m.interest, next, k);
    }
    lemma_trailing_zeros(m.quote);
    lemma_trailing_zeros(sm.quote);
    lemma_drop_bit(m.interest, off);
    lemma_keep_le(sm.interest, u32_trailing_zeros(sm.quote));
    assert forall|k: u32| k < 32 implies #[trigger] bit(sm.interest, k) == (next <= k < width
        && is_interest(input[t.cursor + k])) by {
        if k >= next && t.simd.active_mask == ActiveMask::Quote {
            assert(off == u32_trailing_zeros(m.quote));
        }
    }
    let am = after.simd.masks;
    if premasked {
        assert forall|k: u32| k < 32 implies #[trigger] bit(am.interest, k) == (next <= k
            < width && is_interest(input[t.cursor + k]) && k >= u32_trailing_zeros(sm.quote)) by {
            lemma_pre_masked_fit(sm, k);
        }
    } else if after.simd.active_mask == ActiveMask::Quote {
        if next < width {
            assert(bit(sm.quote, next));
            assert(u32_trailing_zeros(sm.quote) <= next);
        }
    }
}

/// What is left of a block after a scan by blocks has visited its bytes up
/// to some byte is scanned alike by blocks and byte by byte.
pub proof fn lemma_walk(t: ScanState, u: ScanState, input: Seq<u8>, from: int, width: int)
    requires
        0 <= from <= width <= 32,
        u.settled(),
        u.cursor == t.cursor + from,
        t == u.lifted(t.cursor, t.simd.masks),
        t.masks_exact(input, from, width),
        u.regular_to(input, t.cursor + width),
    ensures
        (ScanState { cursor: t.cursor + width, ..t.walk(input) }) == u.run_to(
            input,
            t.cursor + width,
        ),
    decreases t.simd.masks.interest,
{
    let base = t.cursor;
    let zero = Masks { interest: 0, quote: 0 };
    if t.simd.masks.interest == 0 {
        lemma_nothing_left(t, input, from, width);
        assert forall|j: int| u.cursor <= j < base + width implies !(#[trigger] u.lifted(
            j,
            u.simd.masks,
        )).visits(input) by {
            assert(t.lifted(j, t.simd.masks).visits(input) == u.lifted(j, u.simd.masks).visits(
                input,
            ));
        }
        lemma_skip(u, input, base + width);
    } else {
        let off = t.next_offset();
        lemma_next_offset(t, input, from, width);
        let at = base + off;
        assert forall|j: int| u.cursor <= j < at implies !(#[trigger] u.lifted(
            j,
            u.simd.masks,
        )).visits(input) by {
            assert(t.lifted(j, t.simd.masks).visits(input) == u.lifted(j, u.simd.masks).visits(
                input,
            ));
        }
        lemma_regular_split(u, input, at, base + width);
        lemma_skip(u, input, at);
        lemma_run_to_split(u, input, at, base + width);
        let u1 = u.lifted(at, zero);
        assert(u1 == u.run_to(input, at));
        assert(u1.visits(input) == t.lifted(at, t.simd.masks).visits(input));
        lemma_handled(u1, input);
        lemma_visit_settled(u1, input);
        let r = u1.interest_at(input, at);
        let u2 = u1.step(input);
        assert(u2 == r.lifted(at + 1, r.simd.masks));
        let sm = t.simd.masks.shifted_past(off);
        let premasked = u1.premasks_at(input, at);
        let after = if premasked {
            sm.pre_masked_quote()
        } else {
            sm
        };
        lemma_interest_lifted(u1, input, at, base, sm);
        reveal(ScanState::visit);
        let t1 = t.visit(input);
        assert((ScanState { simd: Simd { masks: sm, ..t.simd }, ..t }) == u1.lifted(base, sm));
        assert(t1 == r.lifted(base, after));
        assert(t1 == u2.lifted(base, after));
        lemma_masks_after_visit(t, input, from, t1, premasked, width);
        lemma_walk(t1, u2, input, off + 1, width);
    }
}

/// A block on whose bytes both ways agree is scanned alike by blocks and
/// byte by byte.
pub proof fn lemma_block(s: ScanState, input: Seq<u8>, width: int)
    requires
        s.settled(),
        0 < width <= BLOCK_SIZE,
        0 <= s.cursor,
        s.cursor + width <= input.len(),
        s.regular_to(input, s.cursor + width),
    ensures
        s.block(input, width) == s.run_to(input, s.cursor + width),
{
    reveal(ScanState::walked);
    let base = s.cursor;
    let bytes = input.subrange(base, base + width);
    let fresh = Masks { interest: interest_mask(bytes), quote: quote_mask(bytes) };
    lemma_mask_of(bytes, width as nat, ByteClass::QuoteEscape);
    lemma_mask_of(bytes, width as nat, ByteClass::Interest);
    assert forall|k: u32| k < width implies bytes[k as int] == input[base + k] by {}
    lemma_pre_masked_empty();
    if fresh.quote != 0 || s.simd.active_mask == ActiveMask::Interest {
        let t = s.with_masks(fresh);
        assert(t == s.lifted(base, t.simd.masks));
        assert(s == s.lifted(base, s.simd.masks));
        lemma_trailing_zeros(fresh.quote);
        assert forall|k: u32| k < 32 implies #[trigger] bit(t.simd.masks.interest, k) == (k
            < width && is_interest(input[base + k]) && (s.simd.active_mask == ActiveMask::Quote
            ==> k >= u32_trailing_zeros(fresh.quote))) by {
            lemma_pre_masked_fit(fresh, k);
        }
        assert(t.masks_exact(input, 0, width));
        lemma_walk(t, s, input, 0, width);
    } else {
        lemma_trailing_zeros(0u32);
        assert forall|j: int| base <= j < base + width implies !(#[trigger] s.lifted(
            j,
            s.simd.masks,
        )).visits(input) by {
            let k = (j - base) as u32;
            assert(!bit(fresh.quote, k));
        }
        lemma_skip(s, input, base + width);
    }
}

/// Blocks on whose bytes both ways agree are scanned alike by blocks and
/// byte by byte.
pub proof fn lemma_run_blocks(s: ScanState, input: Seq<u8>, to: int, width: int)
    requires
        s.settled(),
        0 < width <= BLOCK_SIZE,
        0 <= s.cursor <= to <= input.len(),
        s.regular_to(input, to),
    ensures
        s.run_blocks(input, to, width).run_to(input, to) == s.run_to(input, to),
    decreases to - s.cursor,
{
    if to - s.cursor >= width {
        let mid = s.cursor + width;
        lemma_regular_split(s, input, mid, to);
        lemma_block(s, input, width);
        lemma_run_settled(s, input, mid);
        lemma_run_to_split(s, input, mid, to);
        lemma_run_blocks(s.block(input, width), input, to, width);
    }
}

/// On a regular input a scan by blocks gives the table that a scan byte by
/// byte gives, whatever its lead and the size of its blocks.
pub proof fn lemma_scans_agree(input: Seq<u8>, lead: int, block: Block)
    requires
        regular(input),
        0 <= lead < BLOCK_SIZE,
    ensures
        scanned(input, lead, block) == scanned_fallback(input),
{
    match scan_bounds(input) {
        Some((start, end)) => {
            if end - start > block.threshold() {
                lemma_trim_end_bytes_prefix(input);
                let s = ScanState::begin(start, end);
                let mid = start + lead;
                lemma_regular_split(s, input, mid, end);
                lemma_run_settled(s, input, mid);
                lemma_run_to_split(s, input, mid, end);
                lemma_run_blocks(s.run_to(input, mid), input, end, block.bytes());
            }
        },
        None => {},
    }
}

/// On a regular input neither the lead of a scan by blocks nor the size of
/// its blocks makes a difference to the table.
pub proof fn lemma_lead_is_immaterial(
    input: Seq<u8>,
    lead: int,
    block: Block,
    other_lead: int,
    other_block: Block,
)
    requires
        regular(input),
        0 <= lead < BLOCK_SIZE,
        0 <= other_lead < BLOCK_SIZE,
    ensures
        scanned(input, lead, block) == scanned(input, other_lead, other_block),
{
    lemma_scans_agree(input, lead, block);
    lemma_scans_agree(input, other_lead, other_block);
}

} // verus!
