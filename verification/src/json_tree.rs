//! A JSON text as a tree that keeps what error precedence needs: every pair of
//! an object in the order of the source, pairs with equal keys too, and every
//! number as the token that the source holds.

use vstd::prelude::*;

verus! {

/// A parsed JSON value.
#[derive(Debug)]
pub enum ParsedJson {
    Null,
    Bool(bool),
    /// The number token as it stands in the source: `42`, `3.14`, `1e5`.
    Number(String),
    String(String),
    Array(Vec<ParsedJson>),
    /// All pairs in the order of the source; keys may repeat.
    Object(Vec<(String, ParsedJson)>),
}

/// What a `ParsedJson` stands for: the same tree over mathematical sequences.
pub enum JsonTree {
    Null,
    Bool(bool),
    Number(Seq<char>),
    String(Seq<char>),
    Array(Seq<JsonTree>),
    Object(Seq<(Seq<char>, JsonTree)>),
}

/// The tree that a parsed value stands for.
pub open spec fn tree_of(v: ParsedJson) -> JsonTree
    decreases v,
{
    match v {
        ParsedJson::Null => JsonTree::Null,
        ParsedJson::Bool(b) => JsonTree::Bool(b),
        ParsedJson::Number(token) => JsonTree::Number(token@),
        ParsedJson::String(s) => JsonTree::String(s@),
        ParsedJson::Array(items) => JsonTree::Array(
            Seq::new(
                items@.len(),
                |i: int|
                    if 0 <= i < items@.len() {
                        tree_of(items@[i])
                    } else {
                        arbitrary()
                    },
            ),
        ),
        ParsedJson::Object(pairs) => JsonTree::Object(
            Seq::new(
                pairs@.len(),
                |i: int|
                    if 0 <= i < pairs@.len() {
                        (pairs@[i].0@, tree_of(pairs@[i].1))
                    } else {
                        arbitrary()
                    },
            ),
        ),
    }
}

impl View for ParsedJson {
    type V = JsonTree;

    open spec fn view(&self) -> JsonTree {
        tree_of(*self)
    }
}

/// The trees of the values of an array, in order.
pub open spec fn array_view(items: Seq<ParsedJson>) -> Seq<JsonTree> {
    Seq::new(items.len(), |i: int| items[i]@)
}

/// The trees of the pairs of an object, in order.
pub open spec fn pairs_view(pairs: Seq<(String, ParsedJson)>) -> Seq<(Seq<char>, JsonTree)> {
    Seq::new(pairs.len(), |i: int| (pairs[i].0@, pairs[i].1@))
}

/// The tree of an array is the array of the trees of its values.
pub proof fn lemma_view_array(items: Vec<ParsedJson>)
    ensures
        ParsedJson::Array(items)@ == JsonTree::Array(array_view(items@)),
{
    assert(ParsedJson::Array(items)@->Array_0 =~= array_view(items@));
}

/// The tree of an object is the sequence of the trees of its pairs.
pub proof fn lemma_view_object(pairs: Vec<(String, ParsedJson)>)
    ensures
        ParsedJson::Object(pairs)@ == JsonTree::Object(pairs_view(pairs@)),
{
    assert(ParsedJson::Object(pairs)@->Object_0 =~= pairs_view(pairs@));
}

} // verus!
