//! Documents: an input buffer paired with its table of offsets.

use std::borrow::Cow;
use vstd::prelude::*;
use vstd::string::StringSliceAdditionalSpecFns;
use vstd::utf8::{decode_utf8, encode_utf8_decode_utf8, valid_utf8};
use crate::de::offsets::{
    flag_fits, has_escape, lemma_has_escape_found, record_fits, record_linked, slice_fits,
    table_fits, table_linked, Offset, OffsetKind, Offsets, OffsetsView, Slice,
};
use crate::de::state::ActiveMapArr;
use crate::std_ext::str::{lemma_valid_between, str_from_utf8};
use crate::unescape::laws::lemma_unescape_plain_text;
use crate::unescape::{unescape_trusted, unescaped_text};

verus! {

/// What a document holds: its input and its table.
pub struct DocumentView {
    pub input: Seq<u8>,
    pub offsets: OffsetsView,
}

impl DocumentView {
    /// Whether the document can be read safely: its table only points
    /// forwards and inside itself, every string and number of it is a whole
    /// piece of the input, every string is rightly marked as escaped or
    /// not, and a table that is marked as erroneous is empty.
    pub open spec fn sound(self) -> bool {
        &&& self.offsets.linked()
        &&& table_fits(self.input, self.offsets.elements)
    }
}

/// A JSON document that borrows its input buffer.
///
/// A document comes from a scan of an input, or from a table of an earlier
/// scan that is attached to an input again.
#[derive(Debug)]
pub struct Document<'input> {
    pub(crate) input: &'input [u8],
    pub(crate) offsets: Offsets,
    pub(crate) _detached_stack: Vec<ActiveMapArr>,
}

impl<'input> View for Document<'input> {
    type V = DocumentView;

    closed spec fn view(&self) -> DocumentView {
        DocumentView { input: self.input@, offsets: self.offsets@ }
    }
}

/// The storage of a document, emptied, for the scan of another one.
#[derive(Debug)]
pub struct DetachedDocument {
    pub(crate) offsets: Vec<Offset>,
    pub(crate) stack: Vec<ActiveMapArr>,
}

/// What detached storage holds: the records and the levels of the stack
/// that are left in it.
pub struct DetachedView {
    pub offsets: Seq<Offset>,
    pub stack: Seq<ActiveMapArr>,
}

impl DetachedView {
    /// What cleared storage holds: nothing.
    pub open spec fn cleared() -> DetachedView {
        DetachedView { offsets: Seq::empty(), stack: Seq::empty() }
    }
}

impl View for DetachedDocument {
    type V = DetachedView;

    closed spec fn view(&self) -> DetachedView {
        DetachedView { offsets: self.offsets@, stack: self.stack@ }
    }
}

impl DetachedDocument {
    #[verifier::type_invariant]
    pub closed spec fn inv(&self) -> bool {
        &&& self.offsets@.len() == 0
        &&& self.stack@.len() == 0
    }
}

impl DetachedDocument {
    /// Hands out the two pieces of storage: the one for the records and the
    /// one for the stack, both cleared.
    pub(crate) fn into_parts(self) -> (r: (Vec<Offset>, Vec<ActiveMapArr>))
        ensures
            r.0@ == self@.offsets,
            r.1@ == self@.stack,
            self@ == DetachedView::cleared(),
    {
        proof {
            use_type_invariant(&self);
        }
        assert(self.offsets@ =~= Seq::empty());
        assert(self.stack@ =~= Seq::empty());
        (self.offsets, self.stack)
    }
}

impl Default for DetachedDocument {
    /// Fresh storage for a document of ordinary size.
    fn default() -> (r: Self) {
        DetachedDocument { offsets: Vec::with_capacity(48), stack: Vec::with_capacity(6) }
    }
}

impl<'input> Document<'input> {
    #[verifier::type_invariant]
    pub closed spec fn inv(&self) -> bool {
        table_fits(self.input@, self.offsets@.elements)
    }

    /// The document of a scan that went through.
    pub(crate) fn new(input: &'input [u8], offsets: Offsets, stack: Vec<ActiveMapArr>) -> (r:
        Self)
        requires
            table_fits(input@, offsets@.elements),
        ensures
            r@ == (DocumentView { input: input@, offsets: offsets@ }),
            offsets@.linked(),
    {
        let n = offsets.len();
        Document { input, offsets, _detached_stack: stack }
    }

    /// The document of a rejected input: empty and marked.
    pub(crate) fn err(input: &'input [u8]) -> (r: Self)
        ensures
            r@ == (DocumentView { input: input@, offsets: OffsetsView::rejected() }),
            r@.sound(),
    {
        Document { input, offsets: Offsets::rejected(), _detached_stack: Vec::new() }
    }

    /// Whether the scan met anything that it could not make sense of.
    ///
    /// Not every input that is no JSON map is found out.
    pub fn is_err(&self) -> (r: bool)
        ensures
            r == self@.offsets.err,
    {
        self.offsets.err()
    }

    /// Takes the storage of this document, cleared, for the scan of another
    /// one: the storage of its records and the storage of its stack.
    pub fn detach(self) -> (r: DetachedDocument)
        ensures
            r@ == DetachedView::cleared(),
    {
        let Document { input: _, offsets, _detached_stack } = self;
        let mut offsets = offsets.into_elements();
        offsets.clear();
        let mut stack = _detached_stack;
        stack.clear();
        let r = DetachedDocument { offsets, stack };
        assert(r@.offsets =~= Seq::empty());
        assert(r@.stack =~= Seq::empty());
        r
    }

    /// Takes the table of this document.
    pub fn into_offsets(self) -> (r: Offsets)
        ensures
            r@ == self@.offsets,
            self@.sound(),
    {
        proof {
            use_type_invariant(&self);
        }
        let n = self.offsets.len();
        self.offsets
    }
}

impl<'input> Clone for Document<'input> {
    /// A document on the same input, with a table of its own.
    fn clone(&self) -> (r: Self)
        ensures
            r@ == self@,
    {
        proof {
            use_type_invariant(self);
        }
        Document { input: self.input, offsets: self.offsets.clone(), _detached_stack: Vec::new() }
    }
}

impl Offsets {
    /// Pairs the table with an input without looking at the input.
    ///
    /// The table has to fit the input, as it does the input that it was
    /// scanned from.
    pub fn to_document_unchecked<'a>(&self, input: &'a [u8]) -> (r: Document<'a>)
        requires
            table_fits(input@, self@.elements),
        ensures
            r@ == (DocumentView { input: input@, offsets: self@ }),
            r@.sound(),
    {
        let n = self.len();
        Document { input, offsets: self.clone(), _detached_stack: Vec::new() }
    }
}

impl Offsets {
    /// Pairs the table with an input, if the table fits the input.
    pub fn to_document_checked<'a>(&self, input: &'a [u8]) -> (r: Option<Document<'a>>)
        ensures
            r is Some <==> table_fits(input@, self@.elements),
            r matches Some(document) ==> document@ == (DocumentView {
                input: input@,
                offsets: self@,
            }) && document@.sound(),
    {
        let len = self.len();
        if len > 0 {
            let text = match str_from_utf8(input) {
                Some(text) => text,
                None => {
                    return None;
                },
            };
            let mut i: usize = 0;
            while i < len
                invariant
                    i <= len,
                    len == self@.elements.len(),
                    valid_utf8(input@),
                    text.spec_bytes() == input@,
                    forall|j: int| 0 <= j < i ==> #[trigger] record_fits(input@, self@.elements, j),
                decreases len - i,
            {
                let fits = match self.get(i).kind {
                    OffsetKind::Str(s, escaped) => s.fits(input, text) && s.holds_escape(input)
                        == escaped,
                    OffsetKind::Num(s) => s.fits(input, text),
                    _ => true,
                };
                if !fits {
                    assert(!record_fits(input@, self@.elements, i as int));
                    return None;
                }
                i += 1;
            }
        }
        Some(self.to_document_unchecked(input))
    }
}

impl Slice {
    /// Whether the slice lies inside the input and cuts no character in
    /// two.
    pub(crate) fn fits(&self, input: &[u8], text: &str) -> (r: bool)
        requires
            valid_utf8(input@),
            text.spec_bytes() == input@,
        ensures
            r == slice_fits(input@, *self),
    {
        let from = self.offset as usize;
        let len = self.len as usize;
        if len > input.len() || from > input.len() - len {
            return false;
        }
        text.is_char_boundary(from) && text.is_char_boundary(from + len)
    }

    /// Whether the slice holds a `\`.
    pub(crate) fn holds_escape(&self, input: &[u8]) -> (r: bool)
        requires
            self.offset + self.len <= input@.len(),
        ensures
            r == has_escape(input@, self.offset as int, self.offset + self.len),
    {
        let n = input.len();
        let from = self.offset as usize;
        let to = from + self.len as usize;
        let mut k = from;
        while k < to
            invariant
                from == self.offset,
                to == self.offset + self.len,
                from <= k <= to <= input@.len(),
                forall|j: int| from <= j < k ==> input@[j] != 0x5cu8,
            decreases to - k,
        {
            if input[k] == 0x5c {
                proof {
                    lemma_has_escape_found(input@, from as int, k as int, to as int);
                }
                return true;
            }
            k += 1;
        }
        false
    }

    /// The text of the slice.
    pub(crate) fn as_str<'input>(&self, input: &'input [u8]) -> (r: &'input str)
        requires
            valid_utf8(input@),
            slice_fits(input@, *self),
        ensures
            r.spec_bytes() == input@.subrange(
                self.offset as int,
                self.offset as int + self.len as int,
            ),
    {
        let n = input.len();
        let from = self.offset as usize;
        let to = from + self.len as usize;
        proof {
            lemma_valid_between(input@, from as int, to as int);
        }
        let bytes = &input[from..to];
        match str_from_utf8(bytes) {
            Some(text) => text,
            None => vstd::pervasive::unreached(),
        }
    }
}

/// What a string of a document holds.
pub struct StrView {
    /// The text between the quotes, as it stands in the input.
    pub raw: Seq<char>,
    /// Whether the text holds a `\`.
    pub escaped: bool,
}

/// What a map or an array of a document holds.
pub struct ContainerView {
    pub input: Seq<u8>,
    pub table: Seq<Offset>,
    /// The number of pairs of a map, or of elements of an array.
    pub size_hint: u16,
    /// The index in the table of the first child, if there is one.
    pub start_from_offset: Option<u16>,
}

/// What an element of a document holds.
pub enum KindView {
    Str(StrView),
    Num(Seq<char>),
    Bool(bool),
    Null,
    MapView(ContainerView),
    Arr(ContainerView),
}

/// The text of a slice of the input.
pub open spec fn slice_text(input: Seq<u8>, s: Slice) -> Seq<char> {
    decode_utf8(input.subrange(s.offset as int, s.offset as int + s.len as int))
}

/// The container whose record is the one at `i` and has `n` for its size.
pub open spec fn container_at(input: Seq<u8>, table: Seq<Offset>, i: int, n: u16) -> ContainerView {
    ContainerView {
        input,
        table,
        size_hint: n,
        start_from_offset: if n > 0 {
            Some((i + 1) as u16)
        } else {
            None
        },
    }
}

/// The element that the record at `i` stands for.
pub open spec fn element_at(input: Seq<u8>, table: Seq<Offset>, i: int) -> KindView {
    match table[i].kind {
        OffsetKind::Str(s, escaped) => KindView::Str(
            StrView { raw: slice_text(input, s), escaped },
        ),
        OffsetKind::Num(s) => KindView::Num(slice_text(input, s)),
        OffsetKind::Bool(b) => KindView::Bool(b),
        OffsetKind::Null => KindView::Null,
        OffsetKind::Obj(n) => KindView::MapView(container_at(input, table, i, n)),
        OffsetKind::Arr(n) => KindView::Arr(container_at(input, table, i, n)),
    }
}

/// The record that the `next` link of the record at `i` leads to, if the
/// link leads forwards and into the table.
pub open spec fn next_of(table: Seq<Offset>, i: int) -> Option<u16> {
    match table[i].next {
        Some(n) => if i < n < table.len() {
            Some(n)
        } else {
            None
        },
        None => None,
    }
}

/// How many records lie at and behind the one that `from` names.
pub open spec fn records_from(table: Seq<Offset>, from: Option<u16>) -> int {
    match from {
        Some(i) => table.len() - i,
        None => 0,
    }
}

/// The entries that are met by following the thread of keys from `key` and
/// the thread of values from `value` in step, up to the end of either
/// thread or to a key that is no string.
pub open spec fn entries_from(
    input: Seq<u8>,
    table: Seq<Offset>,
    key: Option<u16>,
    value: Option<u16>,
) -> Seq<(StrView, KindView)>
    decreases records_from(table, key),
{
    match (key, value) {
        (Some(k), Some(v)) => if k < table.len() && v < table.len() {
            match table[k as int].kind {
                OffsetKind::Str(s, escaped) => seq![
                    (StrView { raw: slice_text(input, s), escaped }, element_at(input, table, v as int)),
                ] + entries_from(input, table, next_of(table, k as int), next_of(table, v as int)),
                _ => Seq::empty(),
            }
        } else {
            Seq::empty()
        },
        _ => Seq::empty(),
    }
}

/// The elements that are met by following the thread from `elem`.
pub open spec fn elements_from(input: Seq<u8>, table: Seq<Offset>, elem: Option<u16>) -> Seq<
    KindView,
>
    decreases records_from(table, elem),
{
    match elem {
        Some(e) => if e < table.len() {
            seq![element_at(input, table, e as int)] + elements_from(
                input,
                table,
                next_of(table, e as int),
            )
        } else {
            Seq::empty()
        },
        None => Seq::empty(),
    }
}

impl ContainerView {
    /// The entries of a map, in the order of the input.
    pub open spec fn entries(self) -> Seq<(StrView, KindView)> {
        entries_from(
            self.input,
            self.table,
            self.start_from_offset,
            match self.start_from_offset {
                Some(k) => Some((k + 1) as u16),
                None => None,
            },
        )
    }

    /// The elements of an array, in the order of the input.
    pub open spec fn elements(self) -> Seq<KindView> {
        elements_from(self.input, self.table, self.start_from_offset)
    }
}

impl DocumentView {
    /// The root map of the document.
    pub open spec fn root(self) -> ContainerView {
        ContainerView {
            input: self.input,
            table: self.offsets.elements,
            size_hint: self.offsets.root_size_hint,
            start_from_offset: if self.offsets.root_size_hint > 0 {
                Some(0)
            } else {
                None
            },
        }
    }
}

/// A string of a document.
#[derive(Debug, Clone, Copy)]
pub struct Str<'input>(pub(crate) &'input str, pub(crate) bool);

impl<'input> View for Str<'input> {
    type V = StrView;

    closed spec fn view(&self) -> StrView {
        StrView { raw: self.0@, escaped: self.1 }
    }
}

/// A map within a document.
#[derive(Debug, Clone, Copy)]
pub struct MapView<'input, 'offsets> {
    pub(crate) input: &'input [u8],
    pub(crate) size_hint: u16,
    pub(crate) start_from_offset: Option<u16>,
    pub(crate) offsets: &'offsets Offsets,
}

impl<'input, 'offsets> View for MapView<'input, 'offsets> {
    type V = ContainerView;

    closed spec fn view(&self) -> ContainerView {
        ContainerView {
            input: self.input@,
            table: self.offsets@.elements,
            size_hint: self.size_hint,
            start_from_offset: self.start_from_offset,
        }
    }
}

/// An array within a document.
#[derive(Debug, Clone, Copy)]
pub struct Arr<'input, 'offsets> {
    pub(crate) input: &'input [u8],
    pub(crate) size_hint: u16,
    pub(crate) start_from_offset: Option<u16>,
    pub(crate) offsets: &'offsets Offsets,
}

impl<'input, 'offsets> View for Arr<'input, 'offsets> {
    type V = ContainerView;

    closed spec fn view(&self) -> ContainerView {
        ContainerView {
            input: self.input@,
            table: self.offsets@.elements,
            size_hint: self.size_hint,
            start_from_offset: self.start_from_offset,
        }
    }
}

/// An element of a document.
#[derive(Debug, Clone)]
pub enum Kind<'input, 'offsets> {
    Str(Str<'input>),
    Num(&'input str),
    Bool(bool),
    Null,
    MapView(MapView<'input, 'offsets>),
    Arr(Arr<'input, 'offsets>),
}

impl<'input, 'offsets> View for Kind<'input, 'offsets> {
    type V = KindView;

    open spec fn view(&self) -> KindView {
        match self {
            Kind::Str(s) => KindView::Str(s@),
            Kind::Num(n) => KindView::Num(n@),
            Kind::Bool(b) => KindView::Bool(*b),
            Kind::Null => KindView::Null,
            Kind::MapView(m) => KindView::MapView(m@),
            Kind::Arr(a) => KindView::Arr(a@),
        }
    }
}

impl<'input, 'offsets> Kind<'input, 'offsets> {
    /// The string, if the element is one.
    pub fn as_str(&self) -> (r: Option<Str<'input>>)
        ensures
            match r {
                Some(s) => self@ == KindView::Str(s@),
                None => !(self@ is Str),
            },
    {
        match self {
            Kind::Str(s) => Some(*s),
            _ => None,
        }
    }
}

/// What the entries of a map hold, one by one.
pub open spec fn entry_views(entries: Seq<(Str, Kind)>) -> Seq<(StrView, KindView)> {
    Seq::new(entries.len(), |j: int| (entries[j].0@, entries[j].1@))
}

/// What the elements of an array hold, one by one.
pub open spec fn element_views(elements: Seq<Kind>) -> Seq<KindView> {
    Seq::new(elements.len(), |j: int| elements[j]@)
}

impl<'input> Document<'input> {
    /// The document as the map that it is.
    pub fn as_map<'brw>(&'brw self) -> (r: MapView<'input, 'brw>)
        ensures
            r@ == self@.root(),
    {
        proof {
            use_type_invariant(self);
        }
        let size_hint = self.offsets.root_size_hint();
        MapView {
            input: self.input,
            size_hint,
            start_from_offset: if size_hint > 0 {
                Some(0)
            } else {
                None
            },
            offsets: &self.offsets,
        }
    }
}

impl<'input> Document<'input> {
    /// Hands out the input and the table of the document.
    pub(crate) fn parts(&self) -> (r: (&'input [u8], &Offsets))
        ensures
            r.0@ == self@.input,
            r.1@ == self@.offsets,
            table_fits(r.0@, r.1@.elements),
    {
        proof {
            use_type_invariant(self);
        }
        (self.input, &self.offsets)
    }
}

impl<'input> Str<'input> {
    #[verifier::type_invariant]
    pub closed spec fn inv(&self) -> bool {
        !self.1 ==> forall|k: int|
            0 <= k < self.0.spec_bytes().len() ==> self.0.spec_bytes()[k] != 0x5cu8
    }

    /// The text of a slice of the input that is rightly marked as escaped
    /// or not.
    pub(crate) fn new(input: &'input [u8], s: Slice, escaped: bool) -> (r: Self)
        requires
            valid_utf8(input@),
            slice_fits(input@, s),
            flag_fits(input@, s, escaped),
        ensures
            r@ == (StrView { raw: slice_text(input@, s), escaped }),
    {
        let text = s.as_str(input);
        proof {
            encode_utf8_decode_utf8(text@);
            if !escaped {
                assert forall|k: int| 0 <= k < text.spec_bytes().len() implies text.spec_bytes()[k]
                    != 0x5cu8 by {
                    assert(text.spec_bytes()[k] == input@[s.offset + k]);
                }
            }
        }
        Str(text, escaped)
    }

    /// The text as it stands in the input, escapes and all.
    pub fn as_raw(&self) -> (r: &'input str)
        ensures
            r@ == self@.raw,
    {
        self.0
    }

    /// The text with its escapes replaced by what they stand for.
    ///
    /// A text without a `\` is handed out as it is; any other is copied.
    pub fn to_unescaped(&self) -> (r: Cow<'input, str>)
        ensures
            r@ == unescaped_text(self@.raw),
            r is Borrowed <==> !self@.escaped,
            !self@.escaped ==> r@ == self@.raw,
    {
        proof {
            use_type_invariant(self);
            if !self.1 {
                let bytes = self.0.spec_bytes();
                assert(bytes == vstd::utf8::encode_utf8(self.0@));
                assert forall|k: int| 0 <= k < bytes.len() implies bytes[k] != 0x5cu8 by {}
                lemma_unescape_plain_text(self.0@);
            }
        }
        if self.1 {
            Cow::Owned(unescape_trusted(self.0))
        } else {
            Cow::Borrowed(self.0)
        }
    }

    /// Whether the text holds a `\`, so that it has to be unescaped.
    pub fn is_escaped(&self) -> (r: bool)
        ensures
            r == self@.escaped,
    {
        self.1
    }
}

impl<'input, 'offsets> MapView<'input, 'offsets> {
    #[verifier::type_invariant]
    pub closed spec fn inv(&self) -> bool {
        &&& table_fits(self.input@, self.offsets@.elements)
        &&& self.start_from_offset matches Some(k) ==> k + 1 < self.offsets@.elements.len()
    }

    /// The number of entries that the input announced for the map.
    pub fn size_hint(&self) -> (r: usize)
        ensures
            r == self@.size_hint,
    {
        self.size_hint as usize
    }

    /// The entries of the map, in the order of the input.
    pub fn entries(&self) -> (r: Vec<(Str<'input>, Kind<'input, 'offsets>)>)
        ensures
            entry_views(r@) == self@.entries(),
    {
        proof {
            use_type_invariant(self);
        }
        let input = self.input;
        let offsets = self.offsets;
        let len = offsets.len();
        let ghost table = offsets@.elements;
        let mut out: Vec<(Str<'input>, Kind<'input, 'offsets>)> = Vec::new();
        let mut key: Option<u16> = self.start_from_offset;
        let mut value: Option<u16> = match self.start_from_offset {
            Some(k) => Some(k + 1),
            None => None,
        };
        assert(entry_views(out@) =~= Seq::empty());
        loop
            invariant
                table == offsets@.elements,
                len == table.len(),
                table_linked(table),
                table_fits(input@, table),
                key matches Some(k) ==> k < len,
                value matches Some(v) ==> v < len,
                entry_views(out@) + entries_from(input@, table, key, value) =~= self@.entries(),
            ensures
                entry_views(out@) =~= self@.entries(),
            decreases records_from(table, key),
        {
            let (k, v) = match (key, value) {
                (Some(k), Some(v)) => (k, v),
                _ => {
                    break ;
                },
            };
            let key_record = offsets.get(k as usize);
            let value_record = offsets.get(v as usize);
            proof {
                assert(record_linked(table, k as int));
                assert(record_linked(table, v as int));
                assert(record_fits(input@, table, k as int));
            }
            let entry_key = match key_record.to_str(input) {
                Some(s) => s,
                None => {
                    break ;
                },
            };
            let entry_value = value_record.to_element(input, offsets, v);
            let ghost before = out@;
            out.push((entry_key, entry_value));
            key = key_record.next;
            value = value_record.next;
            proof {
                assert(entry_views(out@) =~= entry_views(before) + seq![(entry_key@, entry_value@)]);
            }
        }
        out
    }
}

impl<'input, 'offsets> Arr<'input, 'offsets> {
    #[verifier::type_invariant]
    pub closed spec fn inv(&self) -> bool {
        &&& table_fits(self.input@, self.offsets@.elements)
        &&& self.start_from_offset matches Some(e) ==> e < self.offsets@.elements.len()
    }

    /// The number of elements that the input announced for the array.
    pub fn size_hint(&self) -> (r: usize)
        ensures
            r == self@.size_hint,
    {
        self.size_hint as usize
    }

    /// The elements of the array, in the order of the input.
    pub fn iter(&self) -> (r: Vec<Kind<'input, 'offsets>>)
        ensures
            element_views(r@) == self@.elements(),
    {
        proof {
            use_type_invariant(self);
        }
        let input = self.input;
        let offsets = self.offsets;
        let len = offsets.len();
        let ghost table = offsets@.elements;
        let mut out: Vec<Kind<'input, 'offsets>> = Vec::new();
        let mut elem: Option<u16> = self.start_from_offset;
        assert(element_views(out@) =~= Seq::empty());
        loop
            invariant
                table == offsets@.elements,
                len == table.len(),
                table_linked(table),
                table_fits(input@, table),
                elem matches Some(e) ==> e < len,
                element_views(out@) + elements_from(input@, table, elem) =~= self@.elements(),
            ensures
                element_views(out@) =~= self@.elements(),
            decreases records_from(table, elem),
        {
            let e = match elem {
                Some(e) => e,
                None => {
                    break ;
                },
            };
            let record = offsets.get(e as usize);
            proof {
                assert(record_linked(table, e as int));
            }
            let iter_elem = record.to_element(input, offsets, e);
            let ghost before = out@;
            out.push(iter_elem);
            elem = record.next;
            proof {
                assert(element_views(out@) =~= element_views(before) + seq![iter_elem@]);
            }
        }
        out
    }
}

impl Offset {
    /// The string that the record stands for, if it stands for one.
    pub(crate) fn to_str<'input>(&self, input: &'input [u8]) -> (r: Option<Str<'input>>)
        requires
            valid_utf8(input@),
            self.kind matches OffsetKind::Str(s, escaped) ==> slice_fits(input@, s) && flag_fits(
                input@,
                s,
                escaped,
            ),
        ensures
            match self.kind {
                OffsetKind::Str(s, escaped) => r matches Some(text) && text@ == (StrView {
                    raw: slice_text(input@, s),
                    escaped,
                }),
                _ => r is None,
            },
    {
        match self.kind {
            OffsetKind::Str(s, escaped) => Some(Str::new(input, s, escaped)),
            _ => None,
        }
    }

    /// The element that the record stands for, which is the record at
    /// `self_offset`.
    pub(crate) fn to_element<'input, 'offsets>(
        &self,
        input: &'input [u8],
        offsets: &'offsets Offsets,
        self_offset: u16,
    ) -> (r: Kind<'input, 'offsets>)
        requires
            self_offset < offsets@.elements.len(),
            *self == offsets@.elements[self_offset as int],
            table_fits(input@, offsets@.elements),
        ensures
            r@ == element_at(input@, offsets@.elements, self_offset as int),
    {
        let len = offsets.len();
        proof {
            assert(record_linked(offsets@.elements, self_offset as int));
            assert(record_fits(input@, offsets@.elements, self_offset as int));
        }
        match self.kind {
            OffsetKind::Str(s, escaped) => Kind::Str(Str::new(input, s, escaped)),
            OffsetKind::Num(n) => {
                let text = n.as_str(input);
                proof {
                    encode_utf8_decode_utf8(text@);
                }
                Kind::Num(text)
            },
            OffsetKind::Obj(len) => Kind::MapView(
                MapView {
                    input,
                    size_hint: len,
                    start_from_offset: if len > 0 {
                        Some(self_offset + 1)
                    } else {
                        None
                    },
                    offsets,
                },
            ),
            OffsetKind::Arr(len) => Kind::Arr(
                Arr {
                    input,
                    size_hint: len,
                    start_from_offset: if len > 0 {
                        Some(self_offset + 1)
                    } else {
                        None
                    },
                    offsets,
                },
            ),
            OffsetKind::Bool(b) => Kind::Bool(b),
            OffsetKind::Null => Kind::Null,
        }
    }
}

} // verus!
