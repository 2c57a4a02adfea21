//! The tree of values that a document stands for.
//!
//! The tree is given twice: as what reading a document gives, by following
//! the threads of its table from the root map down, and as what the grammar
//! gives for a valid input. For the table of a valid document the two are
//! the same tree.

use vstd::prelude::*;
use crate::de::document::{
    element_at, elements_from, entries_from, next_of, slice_text, DocumentView, KindView, StrView,
};
use crate::de::grammar::{
    elements_end, is_atom_start, is_num_start, member_end, members_end, string_end, token_end,
    valid_document, value_end,
};
use crate::de::number::number_json;
use crate::de::interest::{
    slice_between, ARR_BEGIN, ARR_END, COMMA, LOWER_N, LOWER_T, MAP_BEGIN, MAP_END, QUOTE,
};
use crate::de::offsets::{Offset, OffsetKind, OffsetsView, Part, MAX_OFFSETS};
use crate::de::records::{
    document_pairs, document_records, element_count, element_records, lemma_elements_bounds,
    lemma_member_sizes, lemma_members_bounds, lemma_no_children, lemma_valid_scanned,
    lemma_valid_scanned_by_blocks, lemma_value_records_head, member_count, member_records,
    string_kind, token_kind, too_large, value_records,
};
use crate::de::simd::{Block, BLOCK_SIZE};
use crate::de::{scan_bounds, scanned, scanned_fallback};
use crate::unescape::unescaped_text;

verus! {

/// A JSON value: a string by its unescaped text, a number by its text as
/// it stands in the input, an atom, an array by its elements, or a map by
/// its members in the order of the input. What a document has for a number
/// and `serde_json` does not take for one is a string of that text.
pub enum Json {
    Str(Seq<char>),
    Num(Seq<char>),
    Bool(bool),
    Null,
    Arr(Seq<Json>),
    Obj(Seq<(Seq<char>, Json)>),
}

/// The value that the record at `i` stands for.
pub open spec fn json_at(input: Seq<u8>, table: Seq<Offset>, i: int) -> Json
    decreases table.len() - i, 0int,
{
    if i < 0 || i >= table.len() {
        Json::Null
    } else {
        match table[i].kind {
            OffsetKind::Str(s, _) => Json::Str(unescaped_text(slice_text(input, s))),
            OffsetKind::Num(s) => number_json(slice_text(input, s)),
            OffsetKind::Bool(b) => Json::Bool(b),
            OffsetKind::Null => Json::Null,
            OffsetKind::Obj(n) => Json::Obj(
                if n > 0 {
                    pairs_from(input, table, i + 1, i + 2)
                } else {
                    Seq::empty()
                },
            ),
            OffsetKind::Arr(n) => Json::Arr(
                if n > 0 {
                    jsons_from(input, table, i + 1)
                } else {
                    Seq::empty()
                },
            ),
        }
    }
}

/// The values that are met by following the thread from the record at
/// `elem`.
pub open spec fn jsons_from(input: Seq<u8>, table: Seq<Offset>, elem: int) -> Seq<Json>
    decreases table.len() - elem, 1int,
{
    if elem < 0 || elem >= table.len() {
        Seq::empty()
    } else {
        seq![json_at(input, table, elem)] + match next_of(table, elem) {
            Some(n) => jsons_from(input, table, n as int),
            None => Seq::empty(),
        }
    }
}

/// The members that are met by following the thread of keys from the
/// record at `key` and the thread of values from the record at `value` in
/// step, up to the end of either thread or to a key that is no string.
pub open spec fn pairs_from(input: Seq<u8>, table: Seq<Offset>, key: int, value: int) -> Seq<
    (Seq<char>, Json),
>
    decreases table.len() - (if key <= value {
            key
        } else {
            value
        }),
        1int,
{
    if key < 0 || key >= table.len() || value < 0 || value >= table.len() {
        Seq::empty()
    } else {
        match table[key].kind {
            OffsetKind::Str(s, _) => seq![
                (unescaped_text(slice_text(input, s)), json_at(input, table, value)),
            ] + match (next_of(table, key), next_of(table, value)) {
                (Some(k), Some(v)) => pairs_from(input, table, k as int, v as int),
                _ => Seq::empty(),
            },
            _ => Seq::empty(),
        }
    }
}

/// The tree that a table stands for, read against an input: the map of the
/// members that are met from its first two records on.
pub open spec fn table_json(input: Seq<u8>, offsets: OffsetsView) -> Json {
    Json::Obj(
        if offsets.root_size_hint > 0 {
            pairs_from(input, offsets.elements, 0, 1)
        } else {
            Seq::empty()
        },
    )
}

/// The value that an element of a document stands for: what reading the
/// element gives, with strings unescaped, all the way down.
pub open spec fn kind_json(kind: KindView) -> Json {
    match kind {
        KindView::Str(text) => Json::Str(unescaped_text(text.raw)),
        KindView::Num(text) => number_json(text),
        KindView::Bool(b) => Json::Bool(b),
        KindView::Null => Json::Null,
        KindView::MapView(map) => Json::Obj(
            match map.start_from_offset {
                Some(k) => pairs_from(map.input, map.table, k as int, k + 1),
                None => Seq::empty(),
            },
        ),
        KindView::Arr(arr) => Json::Arr(
            match arr.start_from_offset {
                Some(e) => jsons_from(arr.input, arr.table, e as int),
                None => Seq::empty(),
            },
        ),
    }
}

/// What an entry of a map stands for: its key unescaped, and its value.
pub open spec fn entry_json(entry: (StrView, KindView)) -> (Seq<char>, Json) {
    (unescaped_text(entry.0.raw), kind_json(entry.1))
}

/// The value that a record stands for is the value that the element of the
/// record stands for.
pub proof fn lemma_json_of_element(input: Seq<u8>, table: Seq<Offset>, i: int)
    requires
        0 <= i < table.len() <= MAX_OFFSETS,
        crate::de::offsets::record_linked(table, i),
    ensures
        json_at(input, table, i) == kind_json(element_at(input, table, i)),
{
}

/// The values of a thread are the values that the elements of the thread
/// stand for, one by one.
pub proof fn lemma_jsons_of_elements(input: Seq<u8>, table: Seq<Offset>, elem: int)
    requires
        0 <= elem <= u16::MAX,
        crate::de::offsets::table_linked(table),
    ensures
        jsons_from(input, table, elem) == elements_from(
            input,
            table,
            Some(elem as u16),
        ).map_values(|kind: KindView| kind_json(kind)),
    decreases table.len() - elem,
{
    let elements = elements_from(input, table, Some(elem as u16));
    let mapped = elements.map_values(|kind: KindView| kind_json(kind));
    if elem < table.len() {
        assert(crate::de::offsets::record_linked(table, elem));
        lemma_json_of_element(input, table, elem);
        match next_of(table, elem) {
            Some(n) => {
                lemma_jsons_of_elements(input, table, n as int);
                let rest = elements_from(input, table, Some(n));
                assert(mapped =~= seq![kind_json(element_at(input, table, elem))]
                    + rest.map_values(|kind: KindView| kind_json(kind)));
            },
            None => {
                assert(elements_from(input, table, None::<u16>) =~= Seq::empty());
                assert(mapped =~= seq![kind_json(element_at(input, table, elem))]);
            },
        }
    } else {
        assert(mapped =~= Seq::empty());
    }
}

/// The members of two threads are what the entries of the threads stand
/// for, one by one.
pub proof fn lemma_pairs_of_entries(input: Seq<u8>, table: Seq<Offset>, key: int, value: int)
    requires
        0 <= key <= u16::MAX,
        0 <= value <= u16::MAX,
        crate::de::offsets::table_linked(table),
    ensures
        pairs_from(input, table, key, value) == entries_from(
            input,
            table,
            Some(key as u16),
            Some(value as u16),
        ).map_values(|entry: (StrView, KindView)| entry_json(entry)),
    decreases table.len() - (if key <= value {
            key
        } else {
            value
        }),
{
    let entries = entries_from(input, table, Some(key as u16), Some(value as u16));
    let mapped = entries.map_values(|entry: (StrView, KindView)| entry_json(entry));
    if key < table.len() && value < table.len() {
        assert(crate::de::offsets::record_linked(table, key));
        assert(crate::de::offsets::record_linked(table, value));
        lemma_json_of_element(input, table, value);
        match table[key].kind {
            OffsetKind::Str(s, escaped) => {
                let head = (
                    StrView { raw: slice_text(input, s), escaped },
                    element_at(input, table, value),
                );
                let rest = entries_from(input, table, next_of(table, key), next_of(table, value));
                assert(entries == seq![head] + rest);
                match (next_of(table, key), next_of(table, value)) {
                    (Some(k), Some(v)) => {
                        lemma_pairs_of_entries(input, table, k as int, v as int);
                    },
                    _ => {
                        assert(rest =~= Seq::empty());
                    },
                }
                assert(mapped =~= seq![entry_json(head)] + rest.map_values(
                    |entry: (StrView, KindView)| entry_json(entry),
                ));
            },
            _ => {
                assert(mapped =~= Seq::empty());
            },
        }
    } else {
        assert(mapped =~= Seq::empty());
    }
}

/// The tree that the table of a document stands for is the map of what the
/// entries of its root map stand for.
pub proof fn lemma_document_json(document: DocumentView)
    requires
        document.sound(),
    ensures
        table_json(document.input, document.offsets) == Json::Obj(
            document.root().entries().map_values(|entry: (StrView, KindView)| entry_json(entry)),
        ),
{
    let entries = document.root().entries();
    if document.offsets.root_size_hint > 0 {
        lemma_pairs_of_entries(document.input, document.offsets.elements, 0, 1);
    } else {
        assert(entries.map_values(|entry: (StrView, KindView)| entry_json(entry))
            =~= Seq::empty());
    }
}

/// The text of the string whose `"` stands at `at`, unescaped.
pub open spec fn string_text(input: Seq<u8>, at: int, to: int) -> Seq<char> {
    let close = string_end(input, at + 1, to)->0 - 1;
    unescaped_text(slice_text(input, slice_between((at + 1) as usize, close)))
}

/// The value that begins at `at`.
pub open spec fn value_json(input: Seq<u8>, at: int, to: int) -> Json
    recommends
        to <= input.len(),
    decreases to - at, 0int,
{
    if at < 0 || at >= to {
        Json::Null
    } else if input[at] == QUOTE {
        Json::Str(string_text(input, at, to))
    } else if is_num_start(input[at]) {
        number_json(
            slice_text(input, slice_between(at as usize, token_end(input, at + 1, to))),
        )
    } else if input[at] == MAP_BEGIN {
        Json::Obj(members_json(input, at + 1, to, true))
    } else if input[at] == ARR_BEGIN {
        Json::Arr(elements_json(input, at + 1, to, true))
    } else if input[at] == LOWER_N {
        Json::Null
    } else {
        Json::Bool(input[at] == LOWER_T)
    }
}

/// The elements of the array whose elements go on at `at`.
pub open spec fn elements_json(input: Seq<u8>, at: int, to: int, first: bool) -> Seq<Json>
    recommends
        to <= input.len(),
    decreases to - at, 1int,
{
    if at < 0 || at >= to || (first && input[at] == ARR_END) {
        Seq::empty()
    } else {
        match value_end(input, at, to) {
            Some(end) => seq![value_json(input, at, to)] + if at < end < to && input[end]
                == COMMA {
                elements_json(input, end + 1, to, false)
            } else {
                Seq::empty()
            },
            None => Seq::empty(),
        }
    }
}

/// The members of the map whose members go on at `at`.
pub open spec fn members_json(input: Seq<u8>, at: int, to: int, first: bool) -> Seq<
    (Seq<char>, Json),
>
    recommends
        to <= input.len(),
    decreases to - at, 1int,
{
    if at < 0 || at >= to || (first && input[at] == MAP_END) {
        Seq::empty()
    } else {
        match (string_end(input, at + 1, to), member_end(input, at, to)) {
            (Some(colon), Some(end)) => if at < colon {
                seq![(string_text(input, at, to), value_json(input, colon + 1, to))] + if at < end
                    < to && input[end] == COMMA {
                    members_json(input, end + 1, to, false)
                } else {
                    Seq::empty()
                }
            } else {
                Seq::empty()
            },
            _ => Seq::empty(),
        }
    }
}

/// The tree of a document: the map of the members of its root map.
pub open spec fn document_json(input: Seq<u8>) -> Json {
    match scan_bounds(input) {
        Some((start, end)) => Json::Obj(members_json(input, start, end + 1, true)),
        None => Json::Obj(Seq::empty()),
    }
}

/// Whether the table holds the given records from its record at `x` on.
pub open spec fn holds_at(table: Seq<Offset>, records: Seq<Offset>, x: int) -> bool {
    &&& 0 <= x
    &&& x + records.len() <= table.len()
    &&& forall|j: int| 0 <= j < records.len() ==> table[x + j] == #[trigger] records[j]
}

/// A table that holds some records in a row holds the first of them and the
/// rest of them.
pub proof fn lemma_holds_split(table: Seq<Offset>, a: Seq<Offset>, b: Seq<Offset>, x: int)
    requires
        holds_at(table, a + b, x),
    ensures
        holds_at(table, a, x),
        holds_at(table, b, x + a.len()),
{
    assert forall|j: int| 0 <= j < a.len() implies table[x + j] == #[trigger] a[j] by {
        assert((a + b)[j] == a[j]);
    }
    assert forall|j: int| 0 <= j < b.len() implies table[x + a.len() + j] == #[trigger] b[j] by {
        assert((a + b)[a.len() + j] == b[j]);
    }
}

/// The elements of an array have at least one record each, and the members
/// of a map at least two.
pub proof fn lemma_records_len(input: Seq<u8>, at: int, to: int, x: int, first: bool)
    requires
        0 <= at,
        to <= input.len(),
    ensures
        elements_end(input, at, to, first) is Some ==> element_records(
            input,
            at,
            to,
            x,
            first,
        ).len() >= element_count(input, at, to, first) >= 0,
        members_end(input, at, to, first) is Some ==> member_records(input, at, to, x, first).len()
            >= 2 * member_count(input, at, to, first) >= 0,
    decreases to - at,
{
    if elements_end(input, at, to, first) is Some && !(first && input[at] == ARR_END) {
        let mid = value_end(input, at, to)->0;
        let size = value_records(input, at, to, x, Part::Elem, None).len();
        lemma_value_records_head(input, at, to, x, Part::Elem, None, Some((x + size) as u16));
        if input[mid] == COMMA {
            lemma_records_len(input, mid + 1, to, x + size, false);
        }
    }
    if members_end(input, at, to, first) is Some && !(first && input[at] == MAP_END) {
        let mid = member_end(input, at, to)->0;
        let colon = string_end(input, at + 1, to)->0;
        let size = value_records(input, colon + 1, to, x + 1, Part::Value, None).len();
        lemma_member_sizes(input, at, to, x, first);
        assert(value_end(input, colon + 1, to) is Some);
        lemma_value_records_head(input, colon + 1, to, x + 1, Part::Value, None, None);
        if input[mid] == COMMA {
            lemma_records_len(input, mid + 1, to, x + 1 + size, false);
        }
    }
}

/// The record of a value in a table stands for the value.
pub proof fn lemma_value_json(
    input: Seq<u8>,
    table: Seq<Offset>,
    at: int,
    to: int,
    x: int,
    position: Part,
    next: Option<u16>,
)
    requires
        value_end(input, at, to) is Some,
        0 <= at,
        to <= input.len(),
        holds_at(table, value_records(input, at, to, x, position, next), x),
        table.len() <= MAX_OFFSETS,
    ensures
        json_at(input, table, x) == value_json(input, at, to),
    decreases to - at, 0int,
{
    let records = value_records(input, at, to, x, position, next);
    lemma_value_records_head(input, at, to, x, position, next, next);
    assert(table[x] == records[0]);
    let c = input[at];
    if c == QUOTE {
        assert(table[x].kind == string_kind(input, at, to));
    } else if is_num_start(c) || is_atom_start(c) {
        assert(table[x].kind == token_kind(input, at, to));
    } else if c == MAP_BEGIN {
        let body = member_records(input, at + 1, to, x + 1, true);
        let n = member_count(input, at + 1, to, true);
        assert(members_end(input, at + 1, to, true) is Some);
        assert(records =~= seq![records[0]] + body);
        assert(table[x].kind == OffsetKind::Obj(n as u16));
        lemma_records_len(input, at + 1, to, x + 1, true);
        lemma_members_bounds(input, at + 1, to, true);
        lemma_holds_split(table, seq![records[0]], body, x);
        if input[at + 1] == MAP_END {
            assert(n == 0);
            assert(members_json(input, at + 1, to, true) =~= Seq::empty());
        } else {
            lemma_member_sizes(input, at + 1, to, x + 1, true);
            assert(n >= 1);
            assert(n as u16 > 0);
            lemma_members_json(input, table, at + 1, to, x + 1, true);
        }
    } else {
        assert(c == ARR_BEGIN);
        let body = element_records(input, at + 1, to, x + 1, true);
        let n = element_count(input, at + 1, to, true);
        assert(elements_end(input, at + 1, to, true) is Some);
        assert(records =~= seq![records[0]] + body);
        assert(table[x].kind == OffsetKind::Arr(n as u16));
        lemma_records_len(input, at + 1, to, x + 1, true);
        lemma_elements_bounds(input, at + 1, to, true);
        lemma_holds_split(table, seq![records[0]], body, x);
        if input[at + 1] == ARR_END {
            assert(n == 0);
            assert(elements_json(input, at + 1, to, true) =~= Seq::empty());
        } else {
            assert(value_end(input, at + 1, to) is Some);
            assert(n >= 1);
            assert(n as u16 > 0);
            lemma_elements_json(input, table, at + 1, to, x + 1, true);
        }
    }
}

/// The thread of the elements of an array in a table stands for the
/// elements.
pub proof fn lemma_elements_json(
    input: Seq<u8>,
    table: Seq<Offset>,
    at: int,
    to: int,
    x: int,
    first: bool,
)
    requires
        elements_end(input, at, to, first) is Some,
        !(first && input[at] == ARR_END),
        0 <= at,
        to <= input.len(),
        holds_at(table, element_records(input, at, to, x, first), x),
        table.len() <= MAX_OFFSETS,
    ensures
        jsons_from(input, table, x) == elements_json(input, at, to, first),
    decreases to - at, 1int,
{
    let mid = value_end(input, at, to)->0;
    assert(value_end(input, at, to) is Some);
    assert(at < mid < to && (input[mid] == COMMA || input[mid] == ARR_END));
    let size = value_records(input, at, to, x, Part::Elem, None).len() as int;
    if input[mid] == COMMA {
        let linked = value_records(input, at, to, x, Part::Elem, Some((x + size) as u16));
        let rest = element_records(input, mid + 1, to, x + size, false);
        lemma_value_records_head(input, at, to, x, Part::Elem, None, Some((x + size) as u16));
        assert(elements_end(input, mid + 1, to, false) is Some);
        lemma_records_len(input, mid + 1, to, x + size, false);
        lemma_elements_bounds(input, mid + 1, to, false);
        lemma_holds_split(table, linked, rest, x);
        lemma_value_json(input, table, at, to, x, Part::Elem, Some((x + size) as u16));
        assert(table[x] == linked[0]);
        assert(next_of(table, x) == Some((x + size) as u16));
        lemma_elements_json(input, table, mid + 1, to, x + size, false);
    } else {
        let records = value_records(input, at, to, x, Part::Elem, None);
        lemma_value_records_head(input, at, to, x, Part::Elem, None, None);
        lemma_value_json(input, table, at, to, x, Part::Elem, None);
        assert(table[x] == records[0]);
        assert(next_of(table, x) is None);
    }
}

/// The threads of the keys and the values of a map in a table stand for
/// the members of the map.
pub proof fn lemma_members_json(
    input: Seq<u8>,
    table: Seq<Offset>,
    at: int,
    to: int,
    x: int,
    first: bool,
)
    requires
        members_end(input, at, to, first) is Some,
        !(first && input[at] == MAP_END),
        0 <= at,
        to <= input.len(),
        holds_at(table, member_records(input, at, to, x, first), x),
        table.len() <= MAX_OFFSETS,
    ensures
        pairs_from(input, table, x, x + 1) == members_json(input, at, to, first),
    decreases to - at, 1int,
{
    let mid = member_end(input, at, to)->0;
    assert(member_end(input, at, to) is Some);
    assert(string_end(input, at + 1, to) is Some);
    let colon = string_end(input, at + 1, to)->0;
    assert(at < colon < to);
    assert(value_end(input, colon + 1, to) == Some(mid));
    assert(at < mid < to && (input[mid] == COMMA || input[mid] == MAP_END));
    let size = value_records(input, colon + 1, to, x + 1, Part::Value, None).len() as int;
    lemma_member_sizes(input, at, to, x, first);
    if input[mid] == COMMA {
        let key = Offset {
            kind: string_kind(input, at, to),
            position: Part::Key,
            next: Some((x + 1 + size) as u16),
        };
        let linked = value_records(
            input,
            colon + 1,
            to,
            x + 1,
            Part::Value,
            Some((x + 2 + size) as u16),
        );
        let rest = member_records(input, mid + 1, to, x + 1 + size, false);
        lemma_value_records_head(
            input,
            colon + 1,
            to,
            x + 1,
            Part::Value,
            None,
            Some((x + 2 + size) as u16),
        );
        assert(members_end(input, mid + 1, to, false) is Some);
        lemma_records_len(input, mid + 1, to, x + 1 + size, false);
        lemma_members_bounds(input, mid + 1, to, false);
        assert(member_records(input, at, to, x, first) == seq![key] + linked + rest);
        lemma_holds_split(table, seq![key] + linked, rest, x);
        lemma_holds_split(table, seq![key], linked, x);
        assert(table[x] == seq![key][0]);
        assert(table[x + 1] == linked[0]);
        lemma_value_json(
            input,
            table,
            colon + 1,
            to,
            x + 1,
            Part::Value,
            Some((x + 2 + size) as u16),
        );
        assert(next_of(table, x) == Some((x + 1 + size) as u16));
        assert(next_of(table, x + 1) == Some((x + 2 + size) as u16));
        lemma_members_json(input, table, mid + 1, to, x + 1 + size, false);
    } else {
        let key = Offset { kind: string_kind(input, at, to), position: Part::Key, next: None };
        let records = value_records(input, colon + 1, to, x + 1, Part::Value, None);
        lemma_value_records_head(input, colon + 1, to, x + 1, Part::Value, None, None);
        lemma_holds_split(table, seq![key], records, x);
        assert(table[x] == seq![key][0]);
        assert(table[x + 1] == records[0]);
        lemma_value_json(input, table, colon + 1, to, x + 1, Part::Value, None);
        assert(next_of(table, x) is None);
    }
}

/// The table of a JSON map without white space between its tokens stands
/// for the tree of the map, unless the map is too large for a table.
pub proof fn lemma_valid_json(input: Seq<u8>, lead: int, block: Block)
    requires
        valid_document(input),
        !too_large(input),
        0 <= lead < BLOCK_SIZE,
    ensures
        table_json(input, scanned_fallback(input)) == document_json(input),
        table_json(input, scanned(input, lead, block)) == document_json(input),
{
    lemma_valid_scanned(input);
    lemma_valid_scanned_by_blocks(input, lead, block);
    let (start, end) = scan_bounds(input)->0;
    crate::std_ext::str::lemma_trim_end_bytes_prefix(input);
    let table = document_records(input);
    lemma_members_bounds(input, start, end + 1, true);
    lemma_no_children(input, start, end + 1, 0);
    if document_pairs(input) > 0 {
        assert(holds_at(table, member_records(input, start, end + 1, 0, true), 0));
        lemma_members_json(input, table, start, end + 1, 0, true);
    }
}

} // verus!
