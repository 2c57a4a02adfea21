//! Scanning of minified JSON maps.
//!
//! The scanner walks the input once and writes one record per string, number,
//! atom, map and array into a flat table. The children of a container follow
//! its record and are threaded through `next` links, one thread per position.
//!
//! The input is trusted to be one JSON map without white space between its
//! tokens. Any other input gives a document that is marked, or one that holds
//! nonsense, but never one that cannot be read safely.

pub mod document;
pub mod fallback;
pub mod grammar;
pub mod interest;
pub mod laws;
pub mod number;
pub mod offsets;
pub mod records;
pub mod simd;
pub mod state;
pub mod tree;
pub mod value;

use vstd::prelude::*;
use vstd::string::StringSliceAdditionalSpecFns;
use vstd::utf8::{decode_utf8, encode_utf8_decode_utf8, valid_utf8};
use crate::de::document::{DetachedDocument, Document, DocumentView};
use crate::de::grammar::valid_document;
use crate::de::interest::{interest_num_end, ScanFnInput, MAP_BEGIN, MAP_END};
use crate::de::offsets::{Offsets, OffsetsView};
use crate::de::records::{
    document_pairs, document_records, lemma_valid_scanned, lemma_valid_scanned_by_blocks,
    too_large,
};
use crate::de::simd::{Block, BLOCK_SIZE};
use crate::de::state::{ActivePrimitiveKind, Scan, ScanState};
use crate::de::tree::{document_json, lemma_valid_json, table_json};
use crate::std_ext::str::{
    lemma_trim_end_bytes_prefix, str_from_utf8, str_trim_end, trim_end_bytes,
};

verus! {

/// The bounds between which an input is scanned: behind the `{` that opens
/// the root map and up to the `}` that closes it. An input has none if it is
/// not UTF-8, or if, without the white space at its end, it does not start
/// with `{` and end with `}`, or is longer than a slice can say.
pub open spec fn scan_bounds(input: Seq<u8>) -> Option<(int, int)> {
    let trimmed = trim_end_bytes(input);
    if valid_utf8(input) && 2 <= trimmed.len() <= u32::MAX && trimmed[0] == MAP_BEGIN
        && trimmed.last() == MAP_END {
        Some((1, trimmed.len() - 1))
    } else {
        None
    }
}

impl ScanState {
    /// The table that a scan leaves behind in this state: a number that the
    /// end of the input cuts off is ended there; a string that it cuts off
    /// poisons the scan; a poisoned scan leaves the empty, marked table.
    pub open spec fn finished(self) -> OffsetsView {
        let s = match self.active.active_primitive.kind {
            ActivePrimitiveKind::Num => self.num_end_at(self.cursor),
            ActivePrimitiveKind::Str => self.unreachable(),
            _ => self,
        };
        if s.error {
            OffsetsView::rejected()
        } else {
            OffsetsView { elements: s.table, err: false, root_size_hint: s.active.len / 2 }
        }
    }
}

/// The table that a scan byte by byte gives for an input.
pub open spec fn scanned_fallback(input: Seq<u8>) -> OffsetsView {
    match scan_bounds(input) {
        Some((start, end)) => ScanState::begin(start, end).run_to(input, end).finished(),
        None => OffsetsView::rejected(),
    }
}

/// Whether a table is the one of the document that the input is: if the
/// input is a JSON map without white space between its tokens, the table
/// is marked as erroneous exactly if the map is too large for a table, and
/// else holds the records of the map and stands for its tree.
pub open spec fn reads(input: Seq<u8>, offsets: OffsetsView) -> bool {
    valid_document(input) ==> {
        &&& offsets.err == too_large(input)
        &&& !too_large(input) ==> {
            &&& offsets.elements == document_records(input)
            &&& offsets.root_size_hint == document_pairs(input)
            &&& table_json(input, offsets) == document_json(input)
        }
    }
}

/// The table that a scan gives is the one of the document that the input
/// is, whether the scan goes by blocks or byte by byte.
pub proof fn lemma_scanned_reads(input: Seq<u8>, lead: int, block: Block)
    requires
        0 <= lead < BLOCK_SIZE,
    ensures
        reads(input, scanned(input, lead, block)),
        reads(input, scanned_fallback(input)),
{
    if valid_document(input) {
        lemma_valid_scanned(input);
        lemma_valid_scanned_by_blocks(input, lead, block);
        if !too_large(input) {
            lemma_valid_json(input, lead, block);
        }
    }
}

/// The table that a scan gives for an input. An input with more than five
/// blocks between its bounds is scanned by blocks, after a lead of `lead`
/// bytes; a shorter one is scanned byte by byte.
pub open spec fn scanned(input: Seq<u8>, lead: int, block: Block) -> OffsetsView {
    match scan_bounds(input) {
        Some((start, end)) => if end - start > block.threshold() {
            ScanState::begin(start, end).run_simd(input, lead, block.bytes()).finished()
        } else {
            ScanState::begin(start, end).run_to(input, end).finished()
        },
        None => OffsetsView::rejected(),
    }
}

impl<'input> Document<'input> {
    /// Scans a JSON map into a document.
    ///
    /// The input is trusted to be a JSON map without white space between
    /// its tokens. On any other input the document is marked as erroneous,
    /// or holds nonsense, but it can always be read.
    pub fn scan_trusted(input: &'input [u8]) -> (r: Self)
        ensures
            r@ == (DocumentView { input: input@, offsets: scanned(input@, 0, Block::Avx2) }),
            r@.sound(),
            reads(input@, r@.offsets),
    {
        proof {
            lemma_scanned_reads(input@, 0, Block::Avx2);
        }
        scan(input, DetachedDocument::default(), 0, Block::Avx2)
    }

    /// Scans a JSON map into a document on the storage of an earlier one.
    pub fn scan_trusted_attach(input: &'input [u8], detached: DetachedDocument) -> (r: Self)
        ensures
            r@ == (DocumentView { input: input@, offsets: scanned(input@, 0, Block::Avx2) }),
            r@.sound(),
            reads(input@, r@.offsets),
    {
        proof {
            lemma_scanned_reads(input@, 0, Block::Avx2);
        }
        scan(input, detached, 0, Block::Avx2)
    }

    /// Scans a JSON map into a document on the storage of an earlier one,
    /// by blocks of the given size, with a lead of `lead` bytes, taken
    /// modulo the size of a block, that are read one by one before the
    /// first block.
    pub fn scan_trusted_aligned(
        input: &'input [u8],
        detached: DetachedDocument,
        lead: usize,
        block: Block,
    ) -> (r: Self)
        ensures
            r@ == (DocumentView {
                input: input@,
                offsets: scanned(input@, lead as int % block.bytes(), block),
            }),
            r@.sound(),
            reads(input@, r@.offsets),
    {
        let lead = lead % block.size();
        proof {
            lemma_scanned_reads(input@, lead as int, block);
        }
        scan(input, detached, lead, block)
    }

    /// Scans a JSON map into a document, byte by byte.
    pub fn scan_trusted_fallback(input: &'input [u8]) -> (r: Self)
        ensures
            r@ == (DocumentView { input: input@, offsets: scanned_fallback(input@) }),
            r@.sound(),
            reads(input@, r@.offsets),
    {
        proof {
            lemma_scanned_reads(input@, 0, Block::Avx2);
        }
        scan_fallback(input, DetachedDocument::default())
    }

    /// Scans a JSON map into a document, byte by byte, on the storage of
    /// an earlier one.
    pub fn scan_trusted_fallback_attach(input: &'input [u8], detached: DetachedDocument) -> (r:
        Self)
        ensures
            r@ == (DocumentView { input: input@, offsets: scanned_fallback(input@) }),
            r@.sound(),
            reads(input@, r@.offsets),
    {
        proof {
            lemma_scanned_reads(input@, 0, Block::Avx2);
        }
        scan_fallback(input, detached)
    }
}

/// Scans the input on the given storage, by blocks if it is long enough.
pub(crate) fn scan<'input>(
    input: &'input [u8],
    detached: DetachedDocument,
    lead: usize,
    block: Block,
) -> (r: Document<'input>)
    requires
        lead < BLOCK_SIZE,
    ensures
        r@ == (DocumentView { input: input@, offsets: scanned(input@, lead as int, block) }),
        r@.sound(),
{
    let (start, end) = match scan_begin(input) {
        Some(bounds) => bounds,
        None => {
            return Document::err(input);
        },
    };
    let (offsets, stack) = detached.into_parts();
    let scan = Scan::attach(stack, start, end);
    let mut i = ScanFnInput { input, curr_offset: start, curr: input[start], scan, offsets };
    if i.scan.input_remaining() > block.vectorization_threshold() {
        simd::scan_simd(&mut i, lead, block.size());
    } else {
        fallback::scan(&mut i);
    }
    scan_end(i)
}

/// Scans the input byte by byte on the given storage.
pub(crate) fn scan_fallback<'input>(input: &'input [u8], detached: DetachedDocument) -> (r:
    Document<'input>)
    ensures
        r@ == (DocumentView { input: input@, offsets: scanned_fallback(input@) }),
        r@.sound(),
{
    let (start, end) = match scan_begin(input) {
        Some(bounds) => bounds,
        None => {
            return Document::err(input);
        },
    };
    let (offsets, stack) = detached.into_parts();
    let scan = Scan::attach(stack, start, end);
    let mut i = ScanFnInput { input, curr_offset: start, curr: input[start], scan, offsets };
    fallback::scan(&mut i);
    scan_end(i)
}

/// Checks that the input is UTF-8 and has the shape of a map, and gives the
/// bounds to scan between.
pub(crate) fn scan_begin(input: &[u8]) -> (r: Option<(usize, usize)>)
    ensures
        match r {
            Some((start, end)) => scan_bounds(input@) == Some((start as int, end as int)),
            None => scan_bounds(input@) is None,
        },
        r matches Some((start, end)) ==> ScanState::begin(start as int, end as int).wf(
            input@,
            start as int,
        ) && input@[end as int] == MAP_END,
{
    let text = match str_from_utf8(input) {
        Some(text) => text,
        None => {
            return None;
        },
    };
    let trimmed = str_trim_end(text).as_bytes();
    proof {
        encode_utf8_decode_utf8(text@);
        assert(text@ == decode_utf8(input@));
        assert(trimmed@ == trim_end_bytes(input@));
        lemma_trim_end_bytes_prefix(input@);
    }
    if trimmed.len() < 2 || trimmed.len() > u32::MAX as usize {
        return None;
    }
    if trimmed[0] != MAP_BEGIN {
        return None;
    }
    if trimmed[trimmed.len() - 1] != MAP_END {
        return None;
    }
    Some((1, trimmed.len() - 1))
}

/// Ends a scan: takes care of a number or string that the end of the input
/// cuts off, and makes the document.
pub(crate) fn scan_end<'input>(i: ScanFnInput<'input>) -> (r: Document<'input>)
    requires
        i@.wf(i.input@, i@.cursor),
        i@.cursor == i@.end,
        i.input@[i@.end] == MAP_END,
    ensures
        r@ == (DocumentView { input: i.input@, offsets: i@.finished() }),
        r@.sound(),
{
    let mut i = i;
    match i.scan.stack.active_map_arr.active_primitive.kind {
        ActivePrimitiveKind::Num => {
            i.curr_offset = i.scan.input_offset;
            i.curr = i.input[i.curr_offset];
            interest_num_end(&mut i);
        },
        ActivePrimitiveKind::Str => {
            i.scan.error = true;
        },
        _ => {},
    }
    let len = i.scan.stack.active_map_arr.len;
    let pairs = len >> 1;
    assert(len >> 1 == len / 2) by (bit_vector);
    if !i.scan.error {
        let ScanFnInput { input, curr_offset: _, curr: _, scan, offsets } = i;
        Document::new(input, Offsets::attach(offsets, pairs), scan.stack.bottom)
    } else {
        Document::err(i.input)
    }
}

} // verus!
