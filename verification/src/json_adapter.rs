//! JSON-STRICT: from untrusted JSON octets to a canonical value.
//!
//! | JSON            | canonical model                         |
//! |-----------------|-----------------------------------------|
//! | object          | MAP                                     |
//! | array           | LIST                                    |
//! | string          | STRING                                  |
//! | `true`, `false` | BOOLEAN                                 |
//! | integer token   | INTEGER                                 |
//! | other numbers   | rejected: a `.`, `e` or `E` in the token |
//! | `null`          | rejected                                |
//!
//! A byte order mark is rejected, and so is every `\u` escape of a surrogate.
//! Pairs with equal keys are noted and not reported at once, so that a
//! violation of higher precedence further on is still found.

use vstd::prelude::*;
use vstd::utf8::{decode_utf8, encode_utf8_decode_utf8, valid_utf8};
use crate::constants::{MAX_CANON_BYTES, MAX_DEPTH};
use crate::encode::{utf8_str, validate_utf8_scalar};
use crate::errors::{
    rank, rank_of, MapError, ERR_CANON_MCF, ERR_DUP_KEY, ERR_LIMIT_DEPTH, ERR_LIMIT_SIZE,
    ERR_SCHEMA, ERR_TYPE, ERR_UTF8,
};
use crate::json_parse::{document_tree, json_accepts, json_is_valid, parse_document, skip_whitespace, skip_ws};
use crate::json_tree::{
    array_view, lemma_view_array, lemma_view_object, pairs_view, JsonTree, ParsedJson,
};
use crate::json_number::{integer_of_token, parse_integer_token};
use crate::json_object::{assembled, entry_of, lemma_assembled};
use crate::repeats::{is_sorted_places, marks_of_places, repeat_marks, sorted_places};
use crate::sorted::insert_sorted;
use crate::value::{
    clone_value, entries_view, lemma_view_list, lemma_view_mapping, list_view, Canon, MapValue,
};

verus! {

/// Whether an octet is a hexadecimal digit.
pub open spec fn is_hex(b: u8) -> bool {
    (0x30 <= b <= 0x39) || (0x41 <= b <= 0x46) || (0x61 <= b <= 0x66)
}

/// Whether the four octets at `i` are the hexadecimal digits of a surrogate
/// code point, D800 to DFFF.
pub open spec fn surrogate_digits(raw: Seq<u8>, i: int) -> bool {
    &&& raw[i] == 0x44 || raw[i] == 0x64
    &&& raw[i + 1] == 0x38 || raw[i + 1] == 0x39 || (0x41 <= raw[i + 1] <= 0x46) || (0x61
        <= raw[i + 1] <= 0x66)
    &&& is_hex(raw[i + 2])
    &&& is_hex(raw[i + 3])
}

/// Whether, from offset `i` on, a string literal of the text holds a `\u`
/// escape of a surrogate code point. `in_string` says whether offset `i` lies
/// inside a string literal. Inside one, a backslash takes the octet after it
/// with it, so that an escaped quote does not end the literal, and a `\u`
/// takes four more.
pub open spec fn has_surrogate_escape(raw: Seq<u8>, i: int, in_string: bool) -> bool
    decreases raw.len() - i,
{
    if i < 0 || i >= raw.len() {
        false
    } else if !in_string {
        has_surrogate_escape(raw, i + 1, raw[i] == 0x22)
    } else if raw[i] == 0x5C {
        if i + 1 >= raw.len() {
            false
        } else if raw[i + 1] == 0x75 && i + 5 < raw.len() {
            surrogate_digits(raw, i + 2) || has_surrogate_escape(raw, i + 6, true)
        } else {
            has_surrogate_escape(raw, i + 2, true)
        }
    } else {
        has_surrogate_escape(raw, i + 1, raw[i] != 0x22)
    }
}

/// Whether a byte order mark stands where the text begins, after whitespace.
pub open spec fn has_bom(raw: Seq<u8>) -> bool {
    let s = skip_ws(raw, 0);
    0 <= s && s + 3 <= raw.len() && raw[s] == 0xEF && raw[s + 1] == 0xBB && raw[s + 2] == 0xBF
}

/// The tree of a JSON-STRICT text, or the code of the first check that it
/// fails: size, byte order mark, UTF-8, surrogate escapes, JSON syntax.
pub open spec fn strict_tree(raw: Seq<u8>) -> Result<JsonTree, &'static str> {
    if raw.len() > MAX_CANON_BYTES {
        Err(ERR_LIMIT_SIZE)
    } else if has_bom(raw) {
        Err(ERR_SCHEMA)
    } else if !valid_utf8(raw) {
        Err(ERR_UTF8)
    } else if has_surrogate_escape(raw, 0, false) {
        Err(ERR_UTF8)
    } else if !json_accepts(decode_utf8(raw)) {
        Err(ERR_CANON_MCF)
    } else {
        match document_tree(raw) {
            None => Err(ERR_CANON_MCF),
            Some(t) => Ok(t),
        }
    }
}

/// Whether the key of pair `n` is the key of a pair before it.
pub open spec fn repeats_key(pairs: Seq<(Seq<char>, JsonTree)>, n: int) -> bool {
    exists|j: int| 0 <= j < n && (#[trigger] pairs[j]).0 == pairs[n].0
}

/// Whether some object of the tree has two pairs with the same key.
pub open spec fn has_dup(t: JsonTree) -> bool
    decreases t, 0int,
{
    match t {
        JsonTree::Object(pairs) => pairs_dup(pairs, pairs.len() as int),
        JsonTree::Array(items) => items_dup(items, items.len() as int),
        _ => false,
    }
}

/// Whether, among the first `n` pairs of an object, a key repeats or a value
/// holds an object in which one does.
pub open spec fn pairs_dup(pairs: Seq<(Seq<char>, JsonTree)>, n: int) -> bool
    decreases pairs, n,
{
    if n <= 0 || n > pairs.len() {
        false
    } else {
        pairs_dup(pairs, n - 1) || repeats_key(pairs, n - 1) || has_dup(pairs[n - 1].1)
    }
}

/// Whether one of the first `n` values of an array holds an object in which a
/// key repeats.
pub open spec fn items_dup(items: Seq<JsonTree>, n: int) -> bool
    decreases items, n,
{
    if n <= 0 || n > items.len() {
        false
    } else {
        items_dup(items, n - 1) || has_dup(items[n - 1])
    }
}

/// The depth at which a value inside a container at `depth` stands: one more
/// for an object or an array, the same for the rest.
pub open spec fn child_depth(t: JsonTree, depth: nat) -> nat {
    if t is Object || t is Array {
        depth + 1
    } else {
        depth
    }
}

/// The canonical value of a JSON tree that stands at `depth`, or the code of
/// the first violation met.
pub open spec fn to_canon(t: JsonTree, depth: nat) -> Result<Canon, &'static str>
    decreases t, 0int,
{
    if depth > MAX_DEPTH {
        Err(ERR_LIMIT_DEPTH)
    } else {
        match t {
            JsonTree::Object(pairs) => match object_entries(pairs, pairs.len() as int, depth) {
                Ok(entries) => Ok(Canon::Mapping(entries)),
                Err(code) => Err(code),
            },
            JsonTree::Array(items) => match array_items(items, items.len() as int, depth) {
                Ok(values) => Ok(Canon::List(values)),
                Err(code) => Err(code),
            },
            JsonTree::String(s) => Ok(Canon::String(s)),
            JsonTree::Bool(b) => Ok(Canon::Boolean(b)),
            JsonTree::Null => Err(ERR_TYPE),
            JsonTree::Number(token) => match integer_of_token(token) {
                Some(i) => Ok(Canon::Integer(i)),
                None => Err(ERR_TYPE),
            },
        }
    }
}

/// The entries that the first `n` pairs of an object give. The value of every
/// pair is converted, in the order of the source, and the first that cannot be
/// converted decides the code. Of the pairs, one whose key came before gives
/// no entry, and the others stand in the order of their keys.
pub open spec fn object_entries(pairs: Seq<(Seq<char>, JsonTree)>, n: int, depth: nat) -> Result<
    Seq<(Seq<char>, Canon)>,
    &'static str,
>
    decreases pairs, n,
{
    if n <= 0 || n > pairs.len() {
        Ok(Seq::empty())
    } else {
        match object_entries(pairs, n - 1, depth) {
            Err(code) => Err(code),
            Ok(front) => match to_canon(pairs[n - 1].1, child_depth(pairs[n - 1].1, depth)) {
                Err(code) => Err(code),
                Ok(v) => if repeats_key(pairs, n - 1) {
                    Ok(front)
                } else {
                    Ok(insert_sorted(front, (pairs[n - 1].0, v)))
                },
            },
        }
    }
}

/// The values that the first `n` values of an array give, in order.
pub open spec fn array_items(items: Seq<JsonTree>, n: int, depth: nat) -> Result<
    Seq<Canon>,
    &'static str,
>
    decreases items, n,
{
    if n <= 0 || n > items.len() {
        Ok(Seq::empty())
    } else {
        match array_items(items, n - 1, depth) {
            Err(code) => Err(code),
            Ok(front) => match to_canon(items[n - 1], child_depth(items[n - 1], depth)) {
                Err(code) => Err(code),
                Ok(v) => Ok(front.push(v)),
            },
        }
    }
}

/// The code to report for a violation found while equal keys are on record:
/// the violation itself where it wins over the duplicate, else the duplicate.
pub open spec fn reported(code: &'static str, dup: bool) -> &'static str {
    if dup && rank(code@) > rank(ERR_DUP_KEY@) {
        ERR_DUP_KEY
    } else {
        code
    }
}

/// The canonical value of a JSON-STRICT text, and whether the text holds
/// equal keys in one object; or the code to report.
pub open spec fn json_strict(raw: Seq<u8>) -> Result<(Canon, bool), &'static str> {
    match strict_tree(raw) {
        Err(code) => Err(code),
        Ok(t) => match to_canon(t, 1) {
            Err(code) => Err(reported(code, has_dup(t))),
            Ok(v) => Ok((v, has_dup(t))),
        },
    }
}

/// Checks that a string holds no surrogate code point. A Rust string cannot
/// hold one, so the check never fails.
pub fn ensure_no_surrogates(s: &str) -> (r: Result<(), MapError>)
    ensures
        r is Ok,
{
    validate_utf8_scalar(s)
}

/// Whether an octet is a hexadecimal digit.
fn hex_octet(b: u8) -> (r: bool)
    ensures
        r == is_hex(b),
{
    (0x30 <= b && b <= 0x39) || (0x41 <= b && b <= 0x46) || (0x61 <= b && b <= 0x66)
}

/// Looks through the string literals of a JSON text for `\u` escapes of
/// surrogate code points. The text is looked at as octets, before any parser
/// sees it, so that such an escape is always reported as a fault of encoding.
pub fn scan_for_surrogate_escapes(raw: &[u8]) -> (r: Result<(), MapError>)
    ensures
        r is Ok <==> !has_surrogate_escape(raw@, 0, false),
        r matches Err(e) ==> e.code == ERR_UTF8,
{
    let mut in_string = false;
    let mut i: usize = 0;
    while i < raw.len()
        invariant
            i <= raw@.len(),
            has_surrogate_escape(raw@, 0, false) == has_surrogate_escape(raw@, i as int, in_string),
        decreases raw@.len() - i,
    {
        let b = raw[i];
        if !in_string {
            if b == 0x22 {
                in_string = true;
            }
            i += 1;
        } else if b == 0x5C {
            if raw.len() - i < 2 {
                return Ok(());
            }
            if raw[i + 1] == 0x75 && raw.len() - i > 5 {
                let d0 = raw[i + 2];
                let d1 = raw[i + 3];
                if (d0 == 0x44 || d0 == 0x64) && (d1 == 0x38 || d1 == 0x39 || (0x41 <= d1 && d1
                    <= 0x46) || (0x61 <= d1 && d1 <= 0x66)) && hex_octet(raw[i + 4]) && hex_octet(
                    raw[i + 5],
                ) {
                    return Err(MapError::new(ERR_UTF8, "surrogate escape in JSON string"));
                }
                i += 6;
            } else {
                i += 2;
            }
        } else {
            if b == 0x22 {
                in_string = false;
            }
            i += 1;
        }
    }
    Ok(())
}

/// Reads JSON-STRICT octets as a tree and notes whether an object holds equal
/// keys. Equal keys are no failure here.
pub fn json_strict_parse_with_dups(raw: &[u8]) -> (r: Result<(ParsedJson, bool), MapError>)
    ensures
        match r {
            Ok((tree, dup)) => strict_tree(raw@) == Ok::<JsonTree, &'static str>(tree@) && dup
                == has_dup(tree@),
            Err(e) => strict_tree(raw@) == Err::<JsonTree, &'static str>(e.code),
        },
{
    if raw.len() > MAX_CANON_BYTES {
        return Err(MapError::new(ERR_LIMIT_SIZE, "input exceeds MAX_CANON_BYTES"));
    }
    let start = skip_whitespace(raw, 0);
    if raw.len() - start >= 3 && raw[start] == 0xEF && raw[start + 1] == 0xBB && raw[start + 2]
        == 0xBF {
        return Err(MapError::new(ERR_SCHEMA, "UTF-8 BOM rejected"));
    }
    let text = match utf8_str(raw) {
        None => {
            return Err(MapError::new(ERR_UTF8, "invalid UTF-8 in JSON input"));
        },
        Some(text) => text,
    };
    match scan_for_surrogate_escapes(raw) {
        Err(e) => {
            return Err(e);
        },
        Ok(()) => {},
    }
    proof {
        encode_utf8_decode_utf8(text@);
    }
    if !json_is_valid(text) {
        return Err(MapError::new(ERR_CANON_MCF, "JSON parse error"));
    }
    let parsed = match parse_document(raw) {
        None => {
            return Err(MapError::new(ERR_CANON_MCF, "JSON parse error"));
        },
        Some(parsed) => parsed,
    };
    let mut dup_found = false;
    match check_duplicates(&parsed, &mut dup_found) {
        Err(e) => {
            return Err(e);
        },
        Ok(()) => {},
    }
    Ok((parsed, dup_found))
}

/// Looks through every object of a tree for equal keys and sets `dup_found`
/// where it finds some. Equal keys are no failure: the search goes on, and the
/// caller decides what to report.
pub fn check_duplicates(val: &ParsedJson, dup_found: &mut bool) -> (r: Result<(), MapError>)
    ensures
        r is Ok,
        *final(dup_found) == (*old(dup_found) || has_dup(val@)),
    decreases val,
{
    match val {
        ParsedJson::Object(pairs) => {
            proof {
                lemma_view_object(*pairs);
            }
            let ghost pv = pairs_view(pairs@);
            let marks = repeat_marks(pairs);
            let mut i: usize = 0;
            while i < pairs.len()
                invariant
                    i <= pairs@.len(),
                    pv == pairs_view(pairs@),
                    (*val)->Object_0 == *pairs,
                    *val is Object,
                    marks@.len() == pairs@.len(),
                    forall|k: int|
                        0 <= k < pairs@.len() ==> #[trigger] marks@[k] == repeats_key(pv, k),
                    *dup_found == (*old(dup_found) || pairs_dup(pv, i as int)),
                decreases pairs@.len() - i,
            {
                proof {
                    vstd::std_specs::vec::axiom_vec_index_decreases(*pairs, i as int);
                    assert(pv[i as int].1 == pairs@[i as int].1@);
                }
                match ensure_no_surrogates(pairs[i].0.as_str()) {
                    Err(e) => {
                        return Err(e);
                    },
                    Ok(()) => {},
                }
                if marks[i] {
                    *dup_found = true;
                }
                match check_duplicates(&pairs[i].1, dup_found) {
                    Err(e) => {
                        return Err(e);
                    },
                    Ok(()) => {},
                }
                i += 1;
            }
            Ok(())
        },
        ParsedJson::Array(items) => {
            proof {
                lemma_view_array(*items);
            }
            let ghost iv = array_view(items@);
            let mut i: usize = 0;
            while i < items.len()
                invariant
                    i <= items@.len(),
                    iv == array_view(items@),
                    (*val)->Array_0 == *items,
                    *val is Array,
                    *dup_found == (*old(dup_found) || items_dup(iv, i as int)),
                decreases items@.len() - i,
            {
                proof {
                    vstd::std_specs::vec::axiom_vec_index_decreases(*items, i as int);
                    assert(iv[i as int] == items@[i as int]@);
                }
                match check_duplicates(&items[i], dup_found) {
                    Err(e) => {
                        return Err(e);
                    },
                    Ok(()) => {},
                }
                i += 1;
            }
            Ok(())
        },
        ParsedJson::String(s) => ensure_no_surrogates(s.as_str()),
        _ => Ok(()),
    }
}

/// Where the first `n` pairs of an object cannot be converted, neither can any
/// more of them, and the code is the same.
pub proof fn lemma_object_entries_fails(
    pairs: Seq<(Seq<char>, JsonTree)>,
    n: int,
    m: int,
    depth: nat,
)
    requires
        object_entries(pairs, n, depth) is Err,
        n <= m <= pairs.len(),
    ensures
        object_entries(pairs, m, depth) == object_entries(pairs, n, depth),
    decreases m - n,
{
    if n < m {
        lemma_object_entries_fails(pairs, n, m - 1, depth);
    }
}

/// Where the first `n` values of an array cannot be converted, neither can any
/// more of them, and the code is the same.
pub proof fn lemma_array_items_fails(items: Seq<JsonTree>, n: int, m: int, depth: nat)
    requires
        array_items(items, n, depth) is Err,
        n <= m <= items.len(),
    ensures
        array_items(items, m, depth) == array_items(items, n, depth),
    decreases m - n,
{
    if n < m {
        lemma_array_items_fails(items, n, m - 1, depth);
    }
}

/// Converts the values of the pairs of an object at `depth`, in the order of
/// the source, up to the first that cannot be converted. The value of a pair
/// whose key an earlier pair has is converted like the others, so that a
/// violation in it is found.
fn convert_pairs(pairs: &Vec<(String, ParsedJson)>, depth: u32) -> (r: Result<
    Vec<MapValue>,
    MapError,
>)
    requires
        depth <= MAX_DEPTH,
    ensures
        match r {
            Ok(converted) => {
                &&& object_entries(pairs_view(pairs@), pairs@.len() as int, depth as nat) is Ok
                &&& converted@.len() == pairs@.len()
                &&& forall|k: int|
                    0 <= k < pairs@.len() ==> to_canon(
                        pairs_view(pairs@)[k].1,
                        child_depth(pairs_view(pairs@)[k].1, depth as nat),
                    ) == Ok::<Canon, &'static str>((#[trigger] converted@[k])@)
            },
            Err(e) => object_entries(pairs_view(pairs@), pairs@.len() as int, depth as nat)
                == Err::<Seq<(Seq<char>, Canon)>, &'static str>(e.code),
        },
    decreases pairs,
{
    let ghost pv = pairs_view(pairs@);
    let mut converted: Vec<MapValue> = Vec::new();
    let mut i: usize = 0;
    while i < pairs.len()
        invariant
            i <= pairs@.len(),
            converted@.len() == i,
            depth <= MAX_DEPTH,
            pv == pairs_view(pairs@),
            object_entries(pv, i as int, depth as nat) is Ok,
            forall|k: int|
                0 <= k < i ==> to_canon(pv[k].1, child_depth(pv[k].1, depth as nat)) == Ok::<
                    Canon,
                    &'static str,
                >((#[trigger] converted@[k])@),
        decreases pairs@.len() - i,
    {
        proof {
            vstd::std_specs::vec::axiom_vec_index_decreases(*pairs, i as int);
            assert(pv[i as int].0 == pairs@[i as int].0@);
            assert(pv[i as int].1 == pairs@[i as int].1@);
        }
        match ensure_no_surrogates(pairs[i].0.as_str()) {
            Err(e) => {
                return Err(e);
            },
            Ok(()) => {},
        }
        let next_depth = match &pairs[i].1 {
            ParsedJson::Object(_) => depth + 1,
            ParsedJson::Array(_) => depth + 1,
            _ => depth,
        };
        assert(next_depth == child_depth(pv[i as int].1, depth as nat)) by {
            match pairs@[i as int].1 {
                ParsedJson::Object(inner) => {
                    lemma_view_object(inner);
                },
                ParsedJson::Array(inner) => {
                    lemma_view_array(inner);
                },
                _ => {},
            }
        }
        match json_to_canon_value(&pairs[i].1, next_depth) {
            Err(e) => {
                proof {
                    assert(object_entries(pv, i + 1, depth as nat) == Err::<
                        Seq<(Seq<char>, Canon)>,
                        &'static str,
                    >(e.code));
                    lemma_object_entries_fails(pv, i + 1, pairs@.len() as int, depth as nat);
                }
                return Err(e);
            },
            Ok(child) => {
                converted.push(child);
            },
        }
        i += 1;
    }
    Ok(converted)
}

/// Puts the converted values of an object together with their keys, in the
/// order of the keys, and leaves out every pair whose key an earlier pair has.
fn assemble_entries(
    pairs: &Vec<(String, ParsedJson)>,
    order: &Vec<usize>,
    marks: &Vec<bool>,
    converted: &Vec<MapValue>,
    Ghost(depth): Ghost<nat>,
) -> (entries: Vec<(String, MapValue)>)
    requires
        is_sorted_places(pairs_view(pairs@), order@),
        marks@.len() == pairs@.len(),
        converted@.len() == pairs@.len(),
        forall|k: int|
            0 <= k < pairs@.len() ==> #[trigger] marks@[k] == repeats_key(pairs_view(pairs@), k),
        object_entries(pairs_view(pairs@), pairs@.len() as int, depth) is Ok,
        forall|k: int|
            0 <= k < pairs@.len() ==> to_canon(
                pairs_view(pairs@)[k].1,
                child_depth(pairs_view(pairs@)[k].1, depth),
            ) == Ok::<Canon, &'static str>((#[trigger] converted@[k])@),
    ensures
        entries_view(entries@) == object_entries(
            pairs_view(pairs@),
            pairs@.len() as int,
            depth,
        )->Ok_0,
{
    let ghost pv = pairs_view(pairs@);
    let n = pairs.len();
    let mut entries: Vec<(String, MapValue)> = Vec::new();
    let ghost mut src: Seq<int> = Seq::empty();
    let mut p: usize = 0;
    while p < n
        invariant
            p <= n,
            n == pairs@.len(),
            pv == pairs_view(pairs@),
            is_sorted_places(pv, order@),
            marks@.len() == n,
            converted@.len() == n,
            forall|k: int|
                0 <= k < n ==> to_canon(pv[k].1, child_depth(pv[k].1, depth)) == Ok::<
                    Canon,
                    &'static str,
                >((#[trigger] converted@[k])@),
            entries@.len() == src.len(),
            forall|k: int|
                0 <= k < src.len() ==> 0 <= (#[trigger] src[k]) < p && !marks@[order@[src[k]] as int]
                    && entries_view(entries@)[k] == entry_of(pv[order@[src[k]] as int], depth),
            forall|k1: int, k2: int|
                0 <= k1 < k2 < src.len() ==> (#[trigger] src[k1]) < (#[trigger] src[k2]),
            forall|q: int|
                0 <= q < p && !marks@[(#[trigger] order@[q]) as int] ==> src.contains(q),
        decreases n - p,
    {
        let idx = order[p];
        if !marks[idx] {
            let key = pairs[idx].0.clone();
            let val = clone_value(&converted[idx]);
            let ghost old_view = entries_view(entries@);
            let ghost old_src = src;
            proof {
                assert(pv[idx as int].0 == pairs@[idx as int].0@);
            }
            entries.push((key, val));
            proof {
                src = src.push(p as int);
                assert(entries_view(entries@) =~= old_view.push((key@, val@)));
                assert forall|q: int|
                    0 <= q < p + 1 && !marks@[(#[trigger] order@[q]) as int] implies src.contains(
                    q,
                ) by {
                    if q < p {
                        let k = choose|k: int| 0 <= k < old_src.len() && old_src[k] == q;
                        assert(src[k] == q);
                    } else {
                        assert(src[old_src.len() as int] == q);
                    }
                }
            }
        }
        p += 1;
    }
    proof {
        assert forall|k: int| 0 <= k < src.len() implies 0 <= (#[trigger] src[k]) < order@.len()
            && !repeats_key(pv, order@[src[k]] as int) && entries_view(entries@)[k] == entry_of(
            pv[order@[src[k]] as int],
            depth,
        ) by {
            assert(!marks@[order@[src[k]] as int]);
        }
        assert forall|q: int|
            0 <= q < order@.len() && !repeats_key(pv, (#[trigger] order@[q]) as int) implies src.contains(
            q,
        ) by {
            assert(!marks@[order@[q] as int]);
        }
        assert(assembled(pv, order@, src, entries_view(entries@), depth));
        lemma_assembled(pv, order@, src, entries_view(entries@), depth);
    }
    entries
}

/// Converts a JSON tree that stands at `depth` to a canonical value. The root
/// stands at depth 1; an object or an array inside a container stands one
/// deeper than the container, other values as deep as it.
pub fn json_to_canon_value(x: &ParsedJson, depth: u32) -> (r: Result<MapValue, MapError>)
    ensures
        match r {
            Ok(v) => to_canon(x@, depth as nat) == Ok::<Canon, &'static str>(v@),
            Err(e) => to_canon(x@, depth as nat) == Err::<Canon, &'static str>(e.code),
        },
    decreases x,
{
    if depth > MAX_DEPTH {
        return Err(MapError::new(ERR_LIMIT_DEPTH, "exceeds MAX_DEPTH"));
    }
    match x {
        ParsedJson::Object(pairs) => {
            proof {
                lemma_view_object(*pairs);
            }
            let order = sorted_places(pairs);
            let marks = marks_of_places(pairs, &order);
            let converted = match convert_pairs(pairs, depth) {
                Err(e) => {
                    return Err(e);
                },
                Ok(converted) => converted,
            };
            let entries = assemble_entries(pairs, &order, &marks, &converted, Ghost(depth as nat));
            proof {
                lemma_view_mapping(entries);
            }
            Ok(MapValue::Mapping(entries))
        },
        ParsedJson::Array(items) => {
            proof {
                lemma_view_array(*items);
            }
            let ghost iv = array_view(items@);
            let mut result: Vec<MapValue> = Vec::new();
            let mut i: usize = 0;
            assert(list_view(result@) =~= Seq::<Canon>::empty());
            while i < items.len()
                invariant
                    i <= items@.len(),
                    depth <= MAX_DEPTH,
                    iv == array_view(items@),
                    (*x)->Array_0 == *items,
                    *x is Array,
                    x@ == JsonTree::Array(iv),
                    array_items(iv, i as int, depth as nat) == Ok::<Seq<Canon>, &'static str>(
                        list_view(result@),
                    ),
                decreases items@.len() - i,
            {
                proof {
                    vstd::std_specs::vec::axiom_vec_index_decreases(*items, i as int);
                    assert(iv[i as int] == items@[i as int]@);
                }
                let next_depth = match &items[i] {
                    ParsedJson::Object(_) => depth + 1,
                    ParsedJson::Array(_) => depth + 1,
                    _ => depth,
                };
                assert(next_depth == child_depth(iv[i as int], depth as nat)) by {
                    match items@[i as int] {
                        ParsedJson::Object(inner) => {
                            lemma_view_object(inner);
                        },
                        ParsedJson::Array(inner) => {
                            lemma_view_array(inner);
                        },
                        _ => {},
                    }
                }
                match json_to_canon_value(&items[i], next_depth) {
                    Err(e) => {
                        proof {
                            assert(array_items(iv, i + 1, depth as nat) == Err::<
                                Seq<Canon>,
                                &'static str,
                            >(e.code));
                            lemma_array_items_fails(iv, i + 1, items@.len() as int, depth as nat);
                        }
                        return Err(e);
                    },
                    Ok(child) => {
                        proof {
                            assert(list_view(result@.push(child)) =~= list_view(result@).push(
                                child@,
                            ));
                        }
                        result.push(child);
                    },
                }
                i += 1;
            }
            proof {
                lemma_view_list(result);
            }
            Ok(MapValue::List(result))
        },
        ParsedJson::String(s) => {
            match ensure_no_surrogates(s.as_str()) {
                Err(e) => {
                    return Err(e);
                },
                Ok(()) => {},
            }
            Ok(MapValue::String(s.clone()))
        },
        ParsedJson::Bool(b) => Ok(MapValue::Boolean(*b)),
        ParsedJson::Null => Err(MapError::new(ERR_TYPE, "JSON null not allowed")),
        ParsedJson::Number(token) => match parse_integer_token(token.as_str()) {
            None => Err(MapError::new(ERR_TYPE, "JSON number is not an integer of 64 bits")),
            Some(i) => Ok(MapValue::Integer(i)),
        },
    }
}

/// The error to report for a violation found while equal keys are on record.
pub fn report_with_dup(e: MapError, dup_found: bool) -> (r: MapError)
    ensures
        r.code == reported(e.code, dup_found),
{
    if dup_found && rank_of(e.code) > rank_of(ERR_DUP_KEY) {
        MapError::new(ERR_DUP_KEY, "duplicate key in JSON")
    } else {
        e
    }
}

/// Reads JSON-STRICT octets and converts them to a canonical value. Returns
/// the value and whether an object of the text holds equal keys, in which case
/// the caller has to reject the text unless it finds a violation that wins
/// over the duplicate.
pub fn parse_json_strict(raw: &[u8]) -> (r: Result<(MapValue, bool), MapError>)
    ensures
        match r {
            Ok((v, dup)) => json_strict(raw@) == Ok::<(Canon, bool), &'static str>((v@, dup)),
            Err(e) => json_strict(raw@) == Err::<(Canon, bool), &'static str>(e.code),
        },
        raw@.len() > MAX_CANON_BYTES ==> r is Err && r->Err_0.code == ERR_LIMIT_SIZE,
{
    let (parsed, dup_found) = match json_strict_parse_with_dups(raw) {
        Err(e) => {
            return Err(e);
        },
        Ok(pair) => pair,
    };
    match json_to_canon_value(&parsed, 1) {
        Err(e) => Err(report_with_dup(e, dup_found)),
        Ok(val) => Ok((val, dup_found)),
    }
}

} // verus!
