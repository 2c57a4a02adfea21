//! Documents as trees of values that own their text.

use vstd::prelude::*;
use vstd::string::StringSliceAdditionalSpecFns;
use vstd::utf8::{encode_utf8, encode_utf8_decode_utf8};
use crate::de::document::{slice_text, Document};
use crate::de::number::reads_as_number;
use crate::de::offsets::{
    flag_fits, record_fits, record_linked, table_fits, OffsetKind, Offsets, Slice,
};
use crate::de::tree::{json_at, jsons_from, pairs_from, table_json, Json};
use crate::unescape::laws::lemma_unescape_plain_text;
use crate::unescape::{unescape_trusted, unescaped_text};

verus! {

/// A JSON value that owns its text.
#[derive(Debug)]
pub enum Value {
    Null,
    Bool(bool),
    /// A number by its text as it stands in the input.
    Number(String),
    /// A string by its unescaped text, or the text of what the input has
    /// for a number and is none.
    String(String),
    Array(Vec<Value>),
    /// A map by its members in the order of the input.
    Object(Vec<(String, Value)>),
}

/// The trees of some values, one by one.
pub open spec fn values_json(values: Seq<Value>) -> Seq<Json> {
    Seq::new(values.len(), |i: int| values[i].json())
}

/// The trees of some members, one by one.
pub open spec fn members_json(members: Seq<(String, Value)>) -> Seq<(Seq<char>, Json)> {
    Seq::new(members.len(), |i: int| (members[i].0@, members[i].1.json()))
}

impl Value {
    /// The value as a tree.
    pub open spec fn json(&self) -> Json
        decreases self,
    {
        match self {
            Value::Null => Json::Null,
            Value::Bool(b) => Json::Bool(*b),
            Value::Number(text) => Json::Num(text@),
            Value::String(text) => Json::Str(text@),
            Value::Array(elements) => Json::Arr(
                Seq::new(
                    elements@.len(),
                    |i: int|
                        if 0 <= i < elements@.len() {
                            elements@[i].json()
                        } else {
                            Json::Null
                        },
                ),
            ),
            Value::Object(members) => Json::Obj(
                Seq::new(
                    members@.len(),
                    |i: int|
                        if 0 <= i < members@.len() {
                            (members@[i].0@, members@[i].1.json())
                        } else {
                            (Seq::empty(), Json::Null)
                        },
                ),
            ),
        }
    }

    /// What a document has for a number: a number of the given text if
    /// the text is one, and a string of it if it is not.
    pub fn number(text: String, is_number: bool) -> (r: Value)
        ensures
            r.json() == if is_number {
                Json::Num(text@)
            } else {
                Json::Str(text@)
            },
    {
        if is_number {
            Value::Number(text)
        } else {
            Value::String(text)
        }
    }

    /// An array of the given elements.
    pub fn array(elements: Vec<Value>) -> (r: Value)
        ensures
            r.json() == Json::Arr(values_json(elements@)),
    {
        let r = Value::Array(elements);
        assert(r.json()->Arr_0 =~= values_json(elements@));
        r
    }

    /// A map of the given members.
    pub fn object(members: Vec<(String, Value)>) -> (r: Value)
        ensures
            r.json() == Json::Obj(members_json(members@)),
    {
        let r = Value::Object(members);
        assert(r.json()->Obj_0 =~= members_json(members@));
        r
    }
}

/// The text of a string of the table, unescaped.
fn text_at(input: &[u8], s: Slice, escaped: bool) -> (r: String)
    requires
        vstd::utf8::valid_utf8(input@),
        crate::de::offsets::slice_fits(input@, s),
        flag_fits(input@, s, escaped),
    ensures
        r@ == unescaped_text(slice_text(input@, s)),
{
    let text = s.as_str(input);
    proof {
        encode_utf8_decode_utf8(text@);
    }
    if escaped {
        unescape_trusted(text)
    } else {
        proof {
            let bytes = text.spec_bytes();
            assert(bytes == encode_utf8(text@));
            assert forall|k: int| 0 <= k < bytes.len() implies bytes[k] != 0x5cu8 by {
                assert(bytes[k] == input@[s.offset + k]);
            }
            lemma_unescape_plain_text(text@);
        }
        text.to_owned()
    }
}

/// The value that the record at `i` stands for.
fn value_at(input: &[u8], offsets: &Offsets, i: usize) -> (r: Value)
    requires
        i < offsets@.elements.len(),
        table_fits(input@, offsets@.elements),
    ensures
        r.json() == json_at(input@, offsets@.elements, i as int),
    decreases offsets@.elements.len() - i, 0int,
{
    let len = offsets.len();
    let record = offsets.get(i);
    proof {
        assert(record_linked(offsets@.elements, i as int));
        assert(record_fits(input@, offsets@.elements, i as int));
    }
    match record.kind {
        OffsetKind::Str(s, escaped) => Value::String(text_at(input, s, escaped)),
        OffsetKind::Num(s) => {
            let text = s.as_str(input);
            proof {
                encode_utf8_decode_utf8(text@);
            }
            Value::number(text.to_owned(), reads_as_number(text))
        },
        OffsetKind::Bool(b) => Value::Bool(b),
        OffsetKind::Null => Value::Null,
        OffsetKind::Obj(n) => {
            if n > 0 {
                Value::object(members_from(input, offsets, i + 1, i + 2))
            } else {
                let members: Vec<(String, Value)> = Vec::new();
                assert(members_json(members@) =~= Seq::empty());
                Value::object(members)
            }
        },
        OffsetKind::Arr(n) => {
            if n > 0 {
                Value::array(values_from(input, offsets, i + 1))
            } else {
                let elements: Vec<Value> = Vec::new();
                assert(values_json(elements@) =~= Seq::empty());
                Value::array(elements)
            }
        },
    }
}

/// The values that are met by following the thread from the record at
/// `elem`.
fn values_from(input: &[u8], offsets: &Offsets, elem: usize) -> (r: Vec<Value>)
    requires
        elem < offsets@.elements.len(),
        table_fits(input@, offsets@.elements),
    ensures
        values_json(r@) == jsons_from(input@, offsets@.elements, elem as int),
    decreases offsets@.elements.len() - elem, 1int,
{
    let len = offsets.len();
    let ghost table = offsets@.elements;
    let mut out: Vec<Value> = Vec::new();
    let mut at: Option<usize> = Some(elem);
    assert(values_json(out@) =~= Seq::empty());
    loop
        invariant
            table == offsets@.elements,
            len == table.len(),
            crate::de::offsets::table_linked(table),
            table_fits(input@, table),
            at matches Some(e) ==> elem <= e < len,
            values_json(out@) + (match at {
                Some(e) => jsons_from(input@, table, e as int),
                None => Seq::empty(),
            }) =~= jsons_from(input@, table, elem as int),
        ensures
            values_json(out@) =~= jsons_from(input@, table, elem as int),
        decreases
                (match at {
                    Some(e) => len - e,
                    None => 0,
                }),
    {
        let e = match at {
            Some(e) => e,
            None => {
                break ;
            },
        };
        let record = offsets.get(e);
        proof {
            assert(record_linked(table, e as int));
        }
        let value = value_at(input, offsets, e);
        let ghost before = out@;
        out.push(value);
        at = match record.next {
            Some(n) => Some(n as usize),
            None => None,
        };
        proof {
            assert(values_json(out@) =~= values_json(before) + seq![value.json()]);
        }
    }
    out
}

/// The members that are met by following the thread of keys from the record
/// at `key` and the thread of values from the record at `value` in step.
fn members_from(input: &[u8], offsets: &Offsets, key: usize, value: usize) -> (r: Vec<
    (String, Value),
>)
    requires
        key < value < offsets@.elements.len(),
        table_fits(input@, offsets@.elements),
    ensures
        members_json(r@) == pairs_from(input@, offsets@.elements, key as int, value as int),
    decreases offsets@.elements.len() - key, 1int,
{
    let len = offsets.len();
    let ghost table = offsets@.elements;
    let mut out: Vec<(String, Value)> = Vec::new();
    let mut at: Option<(usize, usize)> = Some((key, value));
    assert(members_json(out@) =~= Seq::empty());
    loop
        invariant
            table == offsets@.elements,
            len == table.len(),
            crate::de::offsets::table_linked(table),
            table_fits(input@, table),
            at matches Some((k, v)) ==> key <= k < len && key < v < len,
            members_json(out@) + (match at {
                Some((k, v)) => pairs_from(input@, table, k as int, v as int),
                None => Seq::empty(),
            }) =~= pairs_from(input@, table, key as int, value as int),
        ensures
            members_json(out@) =~= pairs_from(input@, table, key as int, value as int),
        decreases
                (match at {
                    Some((k, v)) => len - k,
                    None => 0,
                }),
    {
        let (k, v) = match at {
            Some(pair) => pair,
            None => {
                break ;
            },
        };
        let key_record = offsets.get(k);
        let value_record = offsets.get(v);
        proof {
            assert(record_linked(table, k as int));
            assert(record_linked(table, v as int));
            assert(record_fits(input@, table, k as int));
        }
        let name = match key_record.kind {
            OffsetKind::Str(s, escaped) => text_at(input, s, escaped),
            _ => {
                break ;
            },
        };
        let member = value_at(input, offsets, v);
        let ghost before = out@;
        let ghost entry = (name@, member.json());
        out.push((name, member));
        at = match (key_record.next, value_record.next) {
            (Some(nk), Some(nv)) => Some((nk as usize, nv as usize)),
            _ => None,
        };
        proof {
            assert(members_json(out@) =~= members_json(before) + seq![entry]);
        }
    }
    out
}

impl<'input> Document<'input> {
    /// The document as a tree of values that own their text: what reading
    /// the document through its entries and elements gives all the way
    /// down, with every string unescaped.
    pub fn to_value(&self) -> (r: Value)
        ensures
            r.json() == table_json(self@.input, self@.offsets),
    {
        let (input, offsets) = self.parts();
        let len = offsets.len();
        if offsets.root_size_hint() > 0 {
            Value::object(members_from(input, offsets, 0, 1))
        } else {
            let members: Vec<(String, Value)> = Vec::new();
            assert(members_json(members@) =~= Seq::empty());
            Value::object(members)
        }
    }
}

} // verus!
