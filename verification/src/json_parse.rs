//! From JSON text to a `ParsedJson` tree.
//!
//! The `serde_json` crate decides whether a text is JSON, and reads every
//! string and every number, `true`, `false` and `null`. Objects and arrays are
//! taken apart here, member by member, so that pairs with equal keys are kept
//! and every object is a MAP, whatever its keys are.

use vstd::prelude::*;
use vstd::slice::slice_subrange;
use crate::json_tree::{
    array_view, lemma_view_array, lemma_view_object, pairs_view, JsonTree, ParsedJson,
};

verus! {

/// Whether an octet is JSON whitespace: space, tab, line feed, carriage return.
pub open spec fn is_ws(b: u8) -> bool {
    b == 0x20 || b == 0x09 || b == 0x0A || b == 0x0D
}

/// The first offset from `pos` on that holds no whitespace: the length of
/// `raw` where only whitespace is left.
pub open spec fn skip_ws(raw: Seq<u8>, pos: int) -> int
    decreases raw.len() - pos,
{
    if 0 <= pos < raw.len() && is_ws(raw[pos]) {
        skip_ws(raw, pos + 1)
    } else {
        pos
    }
}

/// Whether `serde_json` finds the syntax of a text to be that of one JSON
/// value with nothing but whitespace around it.
pub uninterp spec fn json_accepts(text: Seq<char>) -> bool;

/// The string that `serde_json` reads at the start of `rest`, with its escapes
/// resolved, and the number of octets that it takes up.
pub uninterp spec fn json_string_at(rest: Seq<u8>) -> Option<(Seq<char>, int)>;

/// The number, `true`, `false` or `null` that `serde_json` reads at the start
/// of `rest`, and the number of octets that it takes up.
pub uninterp spec fn json_scalar_at(rest: Seq<u8>) -> Option<(JsonTree, int)>;

/// Whether a tree is a number, `true`, `false` or `null`.
pub open spec fn is_scalar(t: JsonTree) -> bool {
    t is Null || t is Bool || t is Number
}

/// The deepest nesting of objects and arrays that is taken apart. A text that
/// nests deeper is not read, like a text with a fault of syntax.
pub const MAX_NESTING: u32 = 127;

/// The value that starts at `pos`, whitespace before it passed over, and the
/// offset after it. `room` is the number of levels of objects and arrays that
/// the value may still open.
pub open spec fn value_at(raw: Seq<u8>, pos: int, room: nat) -> Option<(JsonTree, int)>
    decreases raw.len() - pos, 0int,
{
    let p = skip_ws(raw, pos);
    if pos < 0 || p < pos || p >= raw.len() {
        None
    } else if raw[p] == 0x7B {
        let q = skip_ws(raw, p + 1);
        if room == 0 {
            None
        } else if 0 <= q < raw.len() && raw[q] == 0x7D {
            Some((JsonTree::Object(Seq::empty()), q + 1))
        } else {
            members_at(raw, p + 1, (room - 1) as nat, Seq::empty())
        }
    } else if raw[p] == 0x5B {
        let q = skip_ws(raw, p + 1);
        if room == 0 {
            None
        } else if 0 <= q < raw.len() && raw[q] == 0x5D {
            Some((JsonTree::Array(Seq::empty()), q + 1))
        } else {
            elements_at(raw, p + 1, (room - 1) as nat, Seq::empty())
        }
    } else if raw[p] == 0x22 {
        match json_string_at(raw.skip(p)) {
            Some((s, n)) => if 0 < n && p + n <= raw.len() {
                Some((JsonTree::String(s), p + n))
            } else {
                None
            },
            None => None,
        }
    } else {
        match json_scalar_at(raw.skip(p)) {
            Some((t, n)) => if 0 < n && p + n <= raw.len() && is_scalar(t) {
                Some((t, p + n))
            } else {
                None
            },
            None => None,
        }
    }
}

/// The object whose pairs so far are `acc` and whose next pair starts at `pos`:
/// a string, a colon and a value, then a comma and more pairs, or the closing
/// brace.
pub open spec fn members_at(
    raw: Seq<u8>,
    pos: int,
    room: nat,
    acc: Seq<(Seq<char>, JsonTree)>,
) -> Option<(JsonTree, int)>
    decreases raw.len() - pos, 1int,
{
    let p = skip_ws(raw, pos);
    if pos < 0 || p < pos || p >= raw.len() || raw[p] != 0x22 {
        None
    } else {
        match json_string_at(raw.skip(p)) {
            None => None,
            Some((key, n)) => {
                let q = skip_ws(raw, p + n);
                if !(0 < n && p + n <= raw.len()) || q < p + n || q >= raw.len() || raw[q]
                    != 0x3A {
                    None
                } else {
                    match value_at(raw, q + 1, room) {
                        None => None,
                        Some((val, e)) => {
                            let r = skip_ws(raw, e);
                            if e <= q || r < e || r >= raw.len() {
                                None
                            } else if raw[r] == 0x2C {
                                members_at(raw, r + 1, room, acc.push((key, val)))
                            } else if raw[r] == 0x7D {
                                Some((JsonTree::Object(acc.push((key, val))), r + 1))
                            } else {
                                None
                            }
                        },
                    }
                }
            },
        }
    }
}

/// The array whose values so far are `acc` and whose next value starts at
/// `pos`: a value, then a comma and more values, or the closing bracket.
pub open spec fn elements_at(raw: Seq<u8>, pos: int, room: nat, acc: Seq<JsonTree>) -> Option<
    (JsonTree, int),
>
    decreases raw.len() - pos, 1int,
{
    match value_at(raw, pos, room) {
        None => None,
        Some((val, e)) => {
            let r = skip_ws(raw, e);
            if e <= pos || r < e || r >= raw.len() {
                None
            } else if raw[r] == 0x2C {
                elements_at(raw, r + 1, room, acc.push(val))
            } else if raw[r] == 0x5D {
                Some((JsonTree::Array(acc.push(val)), r + 1))
            } else {
                None
            }
        },
    }
}

/// The tree of a JSON text: one value, and nothing but whitespace after it.
/// Objects and arrays may nest `MAX_NESTING` deep.
pub open spec fn document_tree(raw: Seq<u8>) -> Option<JsonTree> {
    match value_at(raw, 0, MAX_NESTING as nat) {
        None => None,
        Some((t, e)) => if skip_ws(raw, e) >= raw.len() {
            Some(t)
        } else {
            None
        },
    }
}

/// Whether `text` has the syntax of one JSON value with nothing but whitespace
/// around it, as `serde_json::from_str` decides it when it passes over the
/// value without building anything from it (`serde::de::IgnoredAny`).
#[verifier::external_body]
pub(crate) fn json_is_valid(text: &str) -> (r: bool)
    ensures
        r == json_accepts(text@),
{
    serde_json::from_str::<serde::de::IgnoredAny>(text).is_ok()
}

/// The JSON string at the start of `rest`, read by a `serde_json` stream
/// deserializer: the string with its escapes resolved, and the stream's byte
/// offset after it. Nothing where the deserializer reads no string there.
#[verifier::external_body]
pub(crate) fn json_string_token(rest: &[u8]) -> (r: Option<(String, usize)>)
    ensures
        match r {
            Some((s, n)) => json_string_at(rest@) == Some((s@, n as int)),
            None => json_string_at(rest@) is None,
        },
{
    let mut stream = serde_json::Deserializer::from_slice(rest).into_iter::<String>();
    match stream.next() {
        Some(Ok(s)) => Some((s, stream.byte_offset())),
        _ => None,
    }
}

/// The JSON value at the start of `rest`, read by a `serde_json` stream
/// deserializer, where it is `null`, `true`, `false` or a number: the value,
/// a number as the token that the text holds, and the stream's byte offset
/// after it. Nothing where the deserializer fails or reads another kind of
/// value.
#[verifier::external_body]
pub(crate) fn json_scalar_token(rest: &[u8]) -> (r: Option<(ParsedJson, usize)>)
    ensures
        match r {
            Some((v, n)) => json_scalar_at(rest@) == Some((v@, n as int)),
            None => json_scalar_at(rest@) is None,
        },
{
    let mut stream = serde_json::Deserializer::from_slice(rest).into_iter::<serde_json::Value>();
    let value = match stream.next() {
        Some(Ok(value)) => value,
        _ => return None,
    };
    match value {
        serde_json::Value::Null => Some((ParsedJson::Null, stream.byte_offset())),
        serde_json::Value::Bool(b) => Some((ParsedJson::Bool(b), stream.byte_offset())),
        serde_json::Value::Number(n) => Some(
            (ParsedJson::Number(n.as_str().to_owned()), stream.byte_offset()),
        ),
        _ => None,
    }
}

/// The offset at which a token ends that starts at `p` and takes up `n` of the
/// `len` octets of a text: nothing where it takes up none, or more than are
/// left.
pub fn token_end(len: usize, p: usize, n: usize) -> (r: Option<usize>)
    ensures
        r is Some <==> 0 < n && p + n <= len,
        r matches Some(end) ==> end == p + n,
{
    if n == 0 || p > len || n > len - p {
        None
    } else {
        Some(p + n)
    }
}

/// A value that was read as a number, `true`, `false` or `null`, where it is
/// one of these; nothing for a string, an array or an object.
pub fn scalar_only(v: ParsedJson) -> (r: Option<ParsedJson>)
    ensures
        r is Some <==> is_scalar(v@),
        r matches Some(s) ==> s@ == v@,
{
    match v {
        ParsedJson::Null => Some(ParsedJson::Null),
        ParsedJson::Bool(b) => Some(ParsedJson::Bool(b)),
        ParsedJson::Number(token) => Some(ParsedJson::Number(token)),
        _ => None,
    }
}

/// The first offset from `pos` on that holds no whitespace.
pub fn skip_whitespace(raw: &[u8], pos: usize) -> (p: usize)
    ensures
        p == skip_ws(raw@, pos as int),
        pos <= p,
        pos <= raw@.len() ==> p <= raw@.len(),
{
    let mut p: usize = pos;
    while p < raw.len() && (raw[p] == 0x20 || raw[p] == 0x09 || raw[p] == 0x0A || raw[p] == 0x0D)
        invariant
            pos <= p,
            pos <= raw@.len() ==> p <= raw@.len(),
            skip_ws(raw@, pos as int) == skip_ws(raw@, p as int),
        decreases raw@.len() - p,
    {
        p += 1;
    }
    p
}

/// Reads the value that starts at `pos`, whitespace before it passed over.
/// `room` is the number of levels of objects and arrays that the value may
/// still open; a value that needs more is not read.
pub fn parse_value_at(raw: &[u8], pos: usize, room: u32) -> (r: Option<(ParsedJson, usize)>)
    ensures
        match r {
            Some((v, end)) => value_at(raw@, pos as int, room as nat) == Some((v@, end as int))
                && pos < end <= raw@.len(),
            None => value_at(raw@, pos as int, room as nat) is None,
        },
    decreases raw@.len() - pos, 0int,
{
    let p = skip_whitespace(raw, pos);
    if p >= raw.len() {
        return None;
    }
    let first = raw[p];
    if first == 0x7B {
        if room == 0 {
            return None;
        }
        let q = skip_whitespace(raw, p + 1);
        if q < raw.len() && raw[q] == 0x7D {
            let pairs: Vec<(String, ParsedJson)> = Vec::new();
            proof {
                lemma_view_object(pairs);
                assert(pairs_view(pairs@) =~= Seq::<(Seq<char>, JsonTree)>::empty());
            }
            return Some((ParsedJson::Object(pairs), q + 1));
        }
        parse_members_at(raw, p + 1, room - 1)
    } else if first == 0x5B {
        if room == 0 {
            return None;
        }
        let q = skip_whitespace(raw, p + 1);
        if q < raw.len() && raw[q] == 0x5D {
            let items: Vec<ParsedJson> = Vec::new();
            proof {
                lemma_view_array(items);
                assert(array_view(items@) =~= Seq::<JsonTree>::empty());
            }
            return Some((ParsedJson::Array(items), q + 1));
        }
        parse_elements_at(raw, p + 1, room - 1)
    } else if first == 0x22 {
        match json_string_token(slice_subrange(raw, p, raw.len())) {
            None => None,
            Some((s, n)) => match token_end(raw.len(), p, n) {
                None => None,
                Some(end) => Some((ParsedJson::String(s), end)),
            },
        }
    } else {
        match json_scalar_token(slice_subrange(raw, p, raw.len())) {
            None => None,
            Some((v, n)) => match token_end(raw.len(), p, n) {
                None => None,
                Some(end) => match scalar_only(v) {
                    None => None,
                    Some(scalar) => Some((scalar, end)),
                },
            },
        }
    }
}

/// Reads the pairs of an object from `pos`, which stands after its opening
/// brace, up to its closing brace.
fn parse_members_at(raw: &[u8], pos: usize, room: u32) -> (r: Option<(ParsedJson, usize)>)
    requires
        0 < pos <= raw@.len(),
    ensures
        match r {
            Some((v, end)) => members_at(raw@, pos as int, room as nat, Seq::empty()) == Some(
                (v@, end as int),
            ) && pos < end <= raw@.len(),
            None => members_at(raw@, pos as int, room as nat, Seq::empty()) is None,
        },
    decreases raw@.len() - pos, 1int,
{
    let mut pairs: Vec<(String, ParsedJson)> = Vec::new();
    let mut cur: usize = pos;
    assert(pairs_view(pairs@) =~= Seq::<(Seq<char>, JsonTree)>::empty());
    loop
        invariant
            pos <= cur <= raw@.len(),
            members_at(raw@, pos as int, room as nat, Seq::empty()) == members_at(
                raw@,
                cur as int,
                room as nat,
                pairs_view(pairs@),
            ),
        decreases raw@.len() - cur,
    {
        let p = skip_whitespace(raw, cur);
        if p >= raw.len() || raw[p] != 0x22 {
            return None;
        }
        let (key, n) = match json_string_token(slice_subrange(raw, p, raw.len())) {
            None => {
                return None;
            },
            Some(pair) => pair,
        };
        let key_end = match token_end(raw.len(), p, n) {
            None => {
                return None;
            },
            Some(end) => end,
        };
        let q = skip_whitespace(raw, key_end);
        if q >= raw.len() || raw[q] != 0x3A {
            return None;
        }
        let (val, e) = match parse_value_at(raw, q + 1, room) {
            None => {
                return None;
            },
            Some(pair) => pair,
        };
        let r = skip_whitespace(raw, e);
        if r >= raw.len() {
            return None;
        }
        let next = raw[r];
        if next != 0x2C && next != 0x7D {
            return None;
        }
        proof {
            assert(pairs_view(pairs@.push((key, val))) =~= pairs_view(pairs@).push(
                (key@, val@),
            ));
        }
        pairs.push((key, val));
        if next == 0x7D {
            proof {
                lemma_view_object(pairs);
            }
            return Some((ParsedJson::Object(pairs), r + 1));
        }
        cur = r + 1;
    }
}

/// Reads the values of an array from `pos`, which stands after its opening
/// bracket, up to its closing bracket.
fn parse_elements_at(raw: &[u8], pos: usize, room: u32) -> (r: Option<(ParsedJson, usize)>)
    requires
        0 < pos <= raw@.len(),
    ensures
        match r {
            Some((v, end)) => elements_at(raw@, pos as int, room as nat, Seq::empty()) == Some(
                (v@, end as int),
            ) && pos < end <= raw@.len(),
            None => elements_at(raw@, pos as int, room as nat, Seq::empty()) is None,
        },
    decreases raw@.len() - pos, 1int,
{
    let mut items: Vec<ParsedJson> = Vec::new();
    let mut cur: usize = pos;
    assert(array_view(items@) =~= Seq::<JsonTree>::empty());
    loop
        invariant
            pos <= cur <= raw@.len(),
            elements_at(raw@, pos as int, room as nat, Seq::empty()) == elements_at(
                raw@,
                cur as int,
                room as nat,
                array_view(items@),
            ),
        decreases raw@.len() - cur,
    {
        let (val, e) = match parse_value_at(raw, cur, room) {
            None => {
                return None;
            },
            Some(pair) => pair,
        };
        let r = skip_whitespace(raw, e);
        if r >= raw.len() {
            return None;
        }
        let next = raw[r];
        if next != 0x2C && next != 0x5D {
            return None;
        }
        proof {
            assert(array_view(items@.push(val)) =~= array_view(items@).push(val@));
        }
        items.push(val);
        if next == 0x5D {
            proof {
                lemma_view_array(items);
            }
            return Some((ParsedJson::Array(items), r + 1));
        }
        cur = r + 1;
    }
}

/// Reads a JSON text as a tree: one value, and nothing but whitespace after it.
pub fn parse_document(raw: &[u8]) -> (r: Option<ParsedJson>)
    ensures
        match r {
            Some(v) => document_tree(raw@) == Some(v@),
            None => document_tree(raw@) is None,
        },
{
    match parse_value_at(raw, 0, MAX_NESTING) {
        None => None,
        Some((v, end)) => {
            let rest = skip_whitespace(raw, end);
            if rest < raw.len() {
                return None;
            }
            Some(v)
        },
    }
}

} // verus!
