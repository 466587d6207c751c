//! The canonical value model: six kinds of value, and their mathematical view.

use vstd::prelude::*;
use vstd::string::StringExecFns;
use crate::text::{decimal, push_bytes, push_decimal, push_signed_decimal, signed_decimal};

verus! {

/// A value of the canonical model.
///
/// A `Mapping` holds its entries in the order in which they were given. The
/// encoder accepts it only if the keys ascend strictly by the octets of their
/// UTF-8 form.
#[derive(Debug, PartialEq)]
pub enum MapValue {
    /// UTF-8 text.
    String(String),
    /// Arbitrary octets.
    Bytes(Vec<u8>),
    /// Values in order.
    List(Vec<MapValue>),
    /// Pairs of key and value, in order.
    Mapping(Vec<(String, MapValue)>),
    /// One bit; never the same as a STRING.
    Boolean(bool),
    /// Signed integer of 64 bits; never the same as a STRING.
    Integer(i64),
}

/// What a `MapValue` stands for: the same tree over mathematical sequences.
pub enum Canon {
    String(Seq<char>),
    Bytes(Seq<u8>),
    List(Seq<Canon>),
    Mapping(Seq<(Seq<char>, Canon)>),
    Boolean(bool),
    Integer(i64),
}

/// The tree that a value stands for.
pub open spec fn canon_of(v: MapValue) -> Canon
    decreases v,
{
    match v {
        MapValue::String(s) => Canon::String(s@),
        MapValue::Bytes(b) => Canon::Bytes(b@),
        MapValue::List(items) => Canon::List(
            Seq::new(
                items@.len(),
                |i: int|
                    if 0 <= i < items@.len() {
                        canon_of(items@[i])
                    } else {
                        arbitrary()
                    },
            ),
        ),
        MapValue::Mapping(entries) => Canon::Mapping(
            Seq::new(
                entries@.len(),
                |i: int|
                    if 0 <= i < entries@.len() {
                        (entries@[i].0@, canon_of(entries@[i].1))
                    } else {
                        arbitrary()
                    },
            ),
        ),
        MapValue::Boolean(b) => Canon::Boolean(b),
        MapValue::Integer(i) => Canon::Integer(i),
    }
}

impl View for MapValue {
    type V = Canon;

    open spec fn view(&self) -> Canon {
        canon_of(*self)
    }
}

/// The views of the values of a list, in order.
pub open spec fn list_view(items: Seq<MapValue>) -> Seq<Canon> {
    Seq::new(items.len(), |i: int| items[i]@)
}

/// The views of the entries of a map, in order.
pub open spec fn entries_view(entries: Seq<(String, MapValue)>) -> Seq<(Seq<char>, Canon)> {
    Seq::new(entries.len(), |i: int| (entries[i].0@, entries[i].1@))
}

/// The view of a LIST is the list of the views of its values.
pub proof fn lemma_view_list(items: Vec<MapValue>)
    ensures
        MapValue::List(items)@ == Canon::List(list_view(items@)),
{
    assert(MapValue::List(items)@->List_0 =~= list_view(items@));
}

/// The view of a MAP is the list of the views of its entries.
pub proof fn lemma_view_mapping(entries: Vec<(String, MapValue)>)
    ensures
        MapValue::Mapping(entries)@ == Canon::Mapping(entries_view(entries@)),
{
    assert(MapValue::Mapping(entries)@->Mapping_0 =~= entries_view(entries@));
}

/// A copy of `v` that shares nothing with it.
pub fn clone_value(v: &MapValue) -> (r: MapValue)
    ensures
        r@ == v@,
    decreases v,
{
    match v {
        MapValue::String(s) => MapValue::String(s.clone()),
        MapValue::Bytes(b) => {
            let mut out: Vec<u8> = Vec::new();
            push_bytes(&mut out, b.as_slice());
            MapValue::Bytes(out)
        },
        MapValue::List(items) => {
            let mut out: Vec<MapValue> = Vec::new();
            let mut i: usize = 0;
            while i < items.len()
                invariant
                    i <= items@.len(),
                    out@.len() == i,
                    forall|j: int| 0 <= j < i ==> (#[trigger] out@[j])@ == items@[j]@,
                    *v == MapValue::List(*items),
                decreases items@.len() - i,
            {
                proof {
                    vstd::std_specs::vec::axiom_vec_index_decreases(*items, i as int);
                    assert((*v)->List_0 == *items);
                }
                let c = clone_value(&items[i]);
                out.push(c);
                i += 1;
            }
            proof {
                lemma_view_list(*items);
                lemma_view_list(out);
                assert(list_view(out@) =~= list_view(items@));
            }
            MapValue::List(out)
        },
        MapValue::Mapping(entries) => {
            let mut out: Vec<(String, MapValue)> = Vec::new();
            let mut i: usize = 0;
            while i < entries.len()
                invariant
                    i <= entries@.len(),
                    out@.len() == i,
                    forall|j: int|
                        0 <= j < i ==> (#[trigger] out@[j]).0@ == entries@[j].0@ && out@[j].1@
                            == entries@[j].1@,
                    *v == MapValue::Mapping(*entries),
                decreases entries@.len() - i,
            {
                let k = entries[i].0.clone();
                proof {
                    vstd::std_specs::vec::axiom_vec_index_decreases(*entries, i as int);
                    assert((*v)->Mapping_0 == *entries);
                }
                let c = clone_value(&entries[i].1);
                out.push((k, c));
                i += 1;
            }
            proof {
                lemma_view_mapping(*entries);
                lemma_view_mapping(out);
                assert(entries_view(out@) =~= entries_view(entries@));
            }
            MapValue::Mapping(out)
        },
        MapValue::Boolean(b) => MapValue::Boolean(*b),
        MapValue::Integer(i) => MapValue::Integer(*i),
    }
}

impl Clone for MapValue {
    fn clone(&self) -> (r: Self)
        ensures
            r@ == self@,
    {
        clone_value(self)
    }
}

/// A value in a short form for people: a STRING between quotes, a BOOLEAN and
/// an INTEGER as they are written, and BYTES, a LIST and a MAP by their size.
pub open spec fn brief(v: Canon) -> Seq<char> {
    match v {
        Canon::String(s) => "\""@ + s + "\""@,
        Canon::Bytes(b) => "<"@ + decimal(b.len()) + " bytes>"@,
        Canon::List(items) => "["@ + decimal(items.len()) + " items]"@,
        Canon::Mapping(entries) => "{"@ + decimal(entries.len()) + " entries}"@,
        Canon::Boolean(b) => if b {
            "true"@
        } else {
            "false"@
        },
        Canon::Integer(i) => signed_decimal(i as int),
    }
}

impl MapValue {
    /// The value in a short form for people.
    pub fn to_string(&self) -> (s: String)
        ensures
            s@ == brief(self@),
    {
        match self {
            MapValue::String(text) => {
                let mut s = String::from_str("\"");
                s.append(text.as_str());
                s.append("\"");
                s
            },
            MapValue::Bytes(b) => {
                let mut s = String::from_str("<");
                push_decimal(&mut s, b.len() as u64);
                s.append(" bytes>");
                s
            },
            MapValue::List(items) => {
                proof {
                    lemma_view_list(*items);
                }
                let mut s = String::from_str("[");
                push_decimal(&mut s, items.len() as u64);
                s.append(" items]");
                s
            },
            MapValue::Mapping(entries) => {
                proof {
                    lemma_view_mapping(*entries);
                }
                let mut s = String::from_str("{");
                push_decimal(&mut s, entries.len() as u64);
                s.append(" entries}");
                s
            },
            MapValue::Boolean(b) => {
                if *b {
                    String::from_str("true")
                } else {
                    String::from_str("false")
                }
            },
            MapValue::Integer(i) => {
                let mut s = String::new();
                push_signed_decimal(&mut s, *i);
                assert(s@ =~= signed_decimal(*i as int));
                s
            },
        }
    }
}

} // verus!
