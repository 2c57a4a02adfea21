//! The flat table of offsets that a scan produces.

use vstd::prelude::*;
use vstd::utf8::{is_char_boundary, valid_utf8};

verus! {

/// The most records a table may hold.
pub const MAX_OFFSETS: usize = 65_535;

/// A range of bytes in the input.
#[derive(Debug, Clone, Copy, PartialEq, Eq, Structural)]
pub struct Slice {
    pub offset: u32,
    pub len: u32,
}

/// What a record stands for.
#[derive(Debug, Clone, Copy, PartialEq, Eq, Structural)]
pub enum OffsetKind {
    /// A string and whether a `\` was seen in it.
    Str(Slice, bool),
    Num(Slice),
    Bool(bool),
    Null,
    /// A map with its number of key and value pairs.
    Obj(u16),
    /// An array with its number of elements.
    Arr(u16),
}

/// The role of a record within its container.
#[derive(Debug, Clone, Copy, PartialEq, Eq, Structural)]
pub enum Part {
    /// No role: the record was written after the scan was poisoned.
    Unknown,
    Key,
    Value,
    Elem,
}

impl Default for Part {
    /// No role.
    fn default() -> (r: Self)
        ensures
            r == Part::Unknown,
    {
        Part::Unknown
    }
}

/// One record of the table.
#[derive(Debug, Clone, Copy, PartialEq, Eq, Structural)]
pub struct Offset {
    pub kind: OffsetKind,
    pub position: Part,
    /// The next record with the same position in the same container.
    pub next: Option<u16>,
}

/// Whether a record of this kind is that of a map or an array.
pub open spec fn is_container(kind: OffsetKind) -> bool {
    kind is Obj || kind is Arr
}

/// Whether a record keeps its kind: a string, a number or an atom stays
/// what it is, and a map or an array stays a map or an array, which is
/// told its children when it is closed.
pub open spec fn kind_kept(before: OffsetKind, after: OffsetKind) -> bool {
    if is_container(before) {
        is_container(after)
    } else {
        after == before
    }
}

/// Whether the record at `i` only points forwards and inside the table: its
/// `next` link leads to a later record, and a container that is not empty is
/// followed by its first child (a map by its first key and value).
pub open spec fn record_linked(table: Seq<Offset>, i: int) -> bool {
    &&& table[i].next matches Some(n) ==> i < n < table.len()
    &&& table[i].kind matches OffsetKind::Obj(n) ==> n > 0 ==> i + 2 < table.len()
    &&& table[i].kind matches OffsetKind::Arr(n) ==> n > 0 ==> i + 1 < table.len()
}

/// Whether every record of the table only points forwards and inside it.
pub open spec fn table_linked(table: Seq<Offset>) -> bool {
    &&& table.len() <= MAX_OFFSETS
    &&& forall|i: int| 0 <= i < table.len() ==> #[trigger] record_linked(table, i)
}

/// Whether a slice lies inside the input and cuts no character in two.
pub open spec fn slice_fits(input: Seq<u8>, s: Slice) -> bool {
    &&& s.offset + s.len <= input.len()
    &&& is_char_boundary(input, s.offset as int)
    &&& is_char_boundary(input, s.offset + s.len)
}

/// Whether the input has a `\` from `from` up to `to`.
pub open spec fn has_escape(input: Seq<u8>, from: int, to: int) -> bool {
    exists|k: int| from <= k < to && #[trigger] input[k] == 0x5cu8
}

/// Whether a string of the input is rightly marked as escaped or not: it
/// is escaped exactly if it holds a `\`.
pub open spec fn flag_fits(input: Seq<u8>, s: Slice, escaped: bool) -> bool {
    escaped == has_escape(input, s.offset as int, s.offset + s.len)
}

/// Whether the record at `i` fits the input: its slice, if it has one, fits,
/// and if it is a string, it is rightly marked as escaped or not.
pub open spec fn record_fits(input: Seq<u8>, table: Seq<Offset>, i: int) -> bool {
    match table[i].kind {
        OffsetKind::Str(s, escaped) => slice_fits(input, s) && flag_fits(input, s, escaped),
        OffsetKind::Num(s) => slice_fits(input, s),
        _ => true,
    }
}

/// A `\` that is found lies in every range around it.
pub proof fn lemma_has_escape_found(input: Seq<u8>, from: int, at: int, to: int)
    requires
        from <= at < to,
        input[at] == 0x5cu8,
    ensures
        has_escape(input, from, to),
{
}

/// A range that is extended by bytes without a `\` has one exactly if it had
/// one before.
pub proof fn lemma_has_escape_extend(input: Seq<u8>, from: int, mid: int, to: int)
    requires
        from <= mid <= to,
        forall|k: int| mid <= k < to ==> input[k] != 0x5cu8,
    ensures
        has_escape(input, from, to) == has_escape(input, from, mid),
{
    if has_escape(input, from, to) {
        let k = choose|k: int| from <= k < to && #[trigger] input[k] == 0x5cu8;
        assert(k < mid);
    }
    if has_escape(input, from, mid) {
        let k = choose|k: int| from <= k < mid && #[trigger] input[k] == 0x5cu8;
        assert(from <= k < to);
    }
}

/// Whether the table can be read against the input: the input is UTF-8,
/// every string and number of the table is a whole piece of it, and every
/// string is rightly marked as escaped or not.
pub open spec fn table_fits(input: Seq<u8>, table: Seq<Offset>) -> bool {
    table.len() > 0 ==> {
        &&& valid_utf8(input)
        &&& forall|i: int| 0 <= i < table.len() ==> #[trigger] record_fits(input, table, i)
    }
}

/// What a table of offsets holds.
pub struct OffsetsView {
    pub elements: Seq<Offset>,
    pub err: bool,
    pub root_size_hint: u16,
}

impl OffsetsView {
    /// The view of the table that a rejected input gets: empty and marked.
    pub open spec fn rejected() -> OffsetsView {
        OffsetsView { elements: Seq::empty(), err: true, root_size_hint: 0 }
    }

    /// Whether the table is sound by itself, whatever input it is read
    /// against: its records only point forwards and inside it, a root map
    /// that is not empty has its first key and value in it, and a table
    /// that is marked as erroneous is empty.
    pub open spec fn linked(self) -> bool {
        &&& table_linked(self.elements)
        &&& self.root_size_hint > 0 ==> self.elements.len() >= 2
        &&& self.err ==> self == OffsetsView::rejected()
    }
}

/// A previously scanned table of offsets.
///
/// The table can be kept and attached again to an input that it fits, so that
/// the input need not be scanned twice.
#[derive(Debug)]
pub struct Offsets {
    pub(crate) elements: Vec<Offset>,
    pub(crate) err: bool,
    pub(crate) root_size_hint: u16,
}

impl View for Offsets {
    type V = OffsetsView;

    closed spec fn view(&self) -> OffsetsView {
        OffsetsView {
            elements: self.elements@,
            err: self.err,
            root_size_hint: self.root_size_hint,
        }
    }
}

impl Offsets {
    #[verifier::type_invariant]
    pub closed spec fn inv(&self) -> bool {
        self@.linked()
    }

    /// The table of a scan that went through.
    pub(crate) fn attach(elements: Vec<Offset>, root_size_hint: u16) -> (r: Self)
        requires
            table_linked(elements@),
            root_size_hint > 0 ==> elements@.len() >= 2,
        ensures
            r@ == (OffsetsView { elements: elements@, err: false, root_size_hint }),
    {
        Offsets { elements, err: false, root_size_hint }
    }

    /// The table of a rejected input, with no storage.
    pub(crate) fn rejected() -> (r: Self)
        ensures
            r@ == OffsetsView::rejected(),
    {
        let r = Offsets { elements: Vec::new(), err: true, root_size_hint: 0 };
        assert(r@.elements =~= Seq::empty());
        r
    }

    /// The number of records.
    pub fn len(&self) -> (n: usize)
        ensures
            n == self@.elements.len(),
            n <= MAX_OFFSETS,
            self@.linked(),
    {
        proof {
            use_type_invariant(self);
        }
        self.elements.len()
    }

    /// The record at `i`.
    pub(crate) fn get(&self, i: usize) -> (r: Offset)
        requires
            i < self@.elements.len(),
        ensures
            r == self@.elements[i as int],
    {
        self.elements[i]
    }

    /// Whether the scan was poisoned.
    pub(crate) fn err(&self) -> (r: bool)
        ensures
            r == self@.err,
    {
        self.err
    }

    /// The number of pairs of the root map.
    pub(crate) fn root_size_hint(&self) -> (r: u16)
        ensures
            r == self@.root_size_hint,
            r > 0 ==> self@.elements.len() >= 2,
    {
        proof {
            use_type_invariant(self);
        }
        self.root_size_hint
    }

    /// Takes the table apart and hands out the storage of its records.
    pub(crate) fn into_elements(self) -> (r: Vec<Offset>)
        ensures
            r@ == self@.elements,
    {
        self.elements
    }
}

impl Clone for Offsets {
    fn clone(&self) -> (r: Self)
        ensures
            r@ == self@,
    {
        proof {
            use_type_invariant(self);
        }
        let mut elements: Vec<Offset> = Vec::with_capacity(self.elements.len());
        let mut i: usize = 0;
        while i < self.elements.len()
            invariant
                i <= self.elements.len(),
                elements@ == self.elements@.subrange(0, i as int),
            decreases self.elements.len() - i,
        {
            elements.push(self.elements[i]);
            proof {
                assert(elements@ =~= self.elements@.subrange(0, i + 1));
            }
            i += 1;
        }
        proof {
            assert(elements@ =~= self.elements@);
        }
        Offsets { elements, err: self.err, root_size_hint: self.root_size_hint }
    }
}

} // verus!
