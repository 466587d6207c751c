//! Laws that hold of the library as a whole.

use vstd::prelude::*;
use crate::constants::{
    canon_hdr, MAX_DEPTH, TAG_BOOLEAN, TAG_BYTES, TAG_INTEGER, TAG_LIST, TAG_MAP, TAG_STRING,
};
use crate::encode::{encode_entries, encode_string, encode_value, key_fault, u32_be};
use crate::errors::{rank, MapError, ERR_DUP_KEY};
use crate::json_adapter::{object_entries, repeats_key, reported, to_canon};
use crate::json_object::{convertible, entry_of, lemma_object_entries_ascending};
use crate::json_tree::JsonTree;
use crate::mid::{canonical_bytes, hex_lower, mid_of_value, mid_string, sha256};
use crate::text::hex_digits;
use crate::sorted::{
    insert_sorted, lemma_ascending_unique, lemma_insert_sorted_contains, strictly_ascending,
};
use crate::value::Canon;

verus! {

/// Whether a call that returns text or an error agrees with what is expected
/// of it: the same text, or an error with the same code.
pub open spec fn agrees(r: Result<String, MapError>, want: Result<Seq<char>, &'static str>) -> bool {
    match r {
        Ok(text) => want == Ok::<Seq<char>, &'static str>(text@),
        Err(e) => want == Err::<Seq<char>, &'static str>(e.code),
    }
}

/// Determinism: two computations of the identifier of one value end alike, in
/// the same identifier or in errors with the same code.
pub proof fn law_mid_deterministic(
    v: Canon,
    first: Result<String, MapError>,
    second: Result<String, MapError>,
)
    requires
        agrees(first, mid_of_value(v)),
        agrees(second, mid_of_value(v)),
    ensures
        first is Ok <==> second is Ok,
        first is Ok ==> first->Ok_0@ == second->Ok_0@,
        first is Err ==> first->Err_0.code == second->Err_0.code,
{
}

/// The tag with which the encoding of a value starts.
pub open spec fn tag_of(v: Canon) -> u8 {
    match v {
        Canon::String(_) => TAG_STRING,
        Canon::Bytes(_) => TAG_BYTES,
        Canon::List(_) => TAG_LIST,
        Canon::Mapping(_) => TAG_MAP,
        Canon::Boolean(_) => TAG_BOOLEAN,
        Canon::Integer(_) => TAG_INTEGER,
    }
}

/// The encoding of a value starts with the tag of its kind.
pub proof fn lemma_encoding_starts_with_tag(v: Canon, depth: nat)
    requires
        encode_value(v, depth) is Ok,
    ensures
        encode_value(v, depth)->Ok_0.len() >= 1,
        encode_value(v, depth)->Ok_0[0] == tag_of(v),
{
}

/// The hexadecimal form tells octets apart: different octets have different forms.
pub proof fn lemma_hex_lower_injective(a: Seq<u8>, b: Seq<u8>)
    requires
        hex_lower(a) == hex_lower(b),
    ensures
        a == b,
{
    assert(hex_lower(a).len() == 2 * a.len());
    assert(hex_lower(b).len() == 2 * b.len());
    assert forall|i: int| 0 <= i < a.len() implies a[i] == b[i] by {
        let x = a[i] as int;
        let y = b[i] as int;
        assert((2 * i) % 2 == 0 && (2 * i) / 2 == i);
        assert((2 * i + 1) % 2 == 1 && (2 * i + 1) / 2 == i);
        assert(hex_lower(a)[2 * i] == hex_digits()[x / 16]);
        assert(hex_lower(b)[2 * i] == hex_digits()[y / 16]);
        assert(hex_lower(a)[2 * i + 1] == hex_digits()[x % 16]);
        assert(hex_lower(b)[2 * i + 1] == hex_digits()[y % 16]);
        assert(forall|m: int, n: int|
            0 <= m < 16 && 0 <= n < 16 && hex_digits()[m] == hex_digits()[n] ==> m == n);
        assert(x / 16 == y / 16);
        assert(x % 16 == y % 16);
    }
    assert(a =~= b);
}

/// Canonical bytes with different digests have different identifiers.
pub proof fn lemma_mid_string_injective(a: Seq<u8>, b: Seq<u8>)
    requires
        mid_string(a) == mid_string(b),
    ensures
        sha256(a) == sha256(b),
{
    let p = "map1:"@;
    let x = hex_lower(sha256(a));
    let y = hex_lower(sha256(b));
    assert((p + x).subrange(p.len() as int, (p + x).len() as int) =~= x);
    assert((p + y).subrange(p.len() as int, (p + y).len() as int) =~= y);
    lemma_hex_lower_injective(sha256(a), sha256(b));
}

/// The map with the one entry of key `k` and value `v`.
pub open spec fn single(k: Seq<char>, v: Canon) -> Canon {
    Canon::Mapping(seq![(k, v)])
}

/// Type distinction: under one key, values of different kinds have different
/// canonical bytes: a BOOLEAN and a STRING, an INTEGER and a STRING, and so on.
/// Their identifiers differ too, wherever SHA-256 tells the two canonical bytes
/// apart.
pub proof fn law_type_distinction(k: Seq<char>, a: Canon, b: Canon)
    requires
        tag_of(a) != tag_of(b),
        canonical_bytes(single(k, a)) is Ok,
        canonical_bytes(single(k, b)) is Ok,
    ensures
        canonical_bytes(single(k, a)) != canonical_bytes(single(k, b)),
        sha256(canonical_bytes(single(k, a))->Ok_0) != sha256(canonical_bytes(single(k, b))->Ok_0)
            ==> mid_of_value(single(k, a)) != mid_of_value(single(k, b)),
{
    let ea = seq![(k, a)];
    let eb = seq![(k, b)];
    let key = encode_string(k)->Ok_0;
    let front = canon_hdr() + (seq![TAG_MAP] + u32_be(1));
    let xa = encode_value(a, 1)->Ok_0;
    let xb = encode_value(b, 1)->Ok_0;
    assert(encode_entries(ea, 0, 1) == Ok::<Seq<u8>, &'static str>(Seq::empty()));
    assert(encode_entries(eb, 0, 1) == Ok::<Seq<u8>, &'static str>(Seq::empty()));
    assert(encode_entries(ea, 1, 1) == Ok::<Seq<u8>, &'static str>(Seq::empty() + key + xa));
    assert(encode_entries(eb, 1, 1) == Ok::<Seq<u8>, &'static str>(Seq::empty() + key + xb));
    lemma_encoding_starts_with_tag(a, 1);
    lemma_encoding_starts_with_tag(b, 1);
    let ca = canonical_bytes(single(k, a))->Ok_0;
    let cb = canonical_bytes(single(k, b))->Ok_0;
    let at = front.len() + key.len();
    assert(ca == canon_hdr() + (seq![TAG_MAP] + u32_be(1) + (Seq::empty() + key + xa)));
    assert(cb == canon_hdr() + (seq![TAG_MAP] + u32_be(1) + (Seq::empty() + key + xb)));
    assert(ca[at as int] == xa[0]);
    assert(cb[at as int] == xb[0]);
    if mid_of_value(single(k, a)) == mid_of_value(single(k, b)) {
        lemma_mid_string_injective(ca, cb);
    }
}

/// Whether no two pairs have the same key.
pub open spec fn no_repeats(pairs: Seq<(Seq<char>, JsonTree)>) -> bool {
    forall|i: int, j: int|
        0 <= i < j < pairs.len() ==> (#[trigger] pairs[i]).0 != (#[trigger] pairs[j]).0
}

/// The entries that an object without equal keys gives: there are some exactly
/// where every value can be converted, and then they are the entries of the
/// pairs.
pub proof fn lemma_object_entries_of_distinct(
    pairs: Seq<(Seq<char>, JsonTree)>,
    n: int,
    depth: nat,
)
    requires
        0 <= n <= pairs.len(),
        no_repeats(pairs),
    ensures
        object_entries(pairs, n, depth) is Ok <==> forall|i: int|
            0 <= i < n ==> convertible(#[trigger] pairs[i], depth),
        object_entries(pairs, n, depth) is Ok ==> forall|x: (Seq<char>, Canon)|
            object_entries(pairs, n, depth)->Ok_0.contains(x) <==> exists|i: int|
                0 <= i < n && x == entry_of(#[trigger] pairs[i], depth),
    decreases n,
{
    if n > 0 {
        lemma_object_entries_of_distinct(pairs, n - 1, depth);
        assert(!repeats_key(pairs, n - 1));
        if object_entries(pairs, n, depth) is Ok {
            let es = object_entries(pairs, n, depth)->Ok_0;
            let front = object_entries(pairs, n - 1, depth)->Ok_0;
            let e = entry_of(pairs[n - 1], depth);
            assert(es == insert_sorted(front, e));
            assert forall|x: (Seq<char>, Canon)|
                es.contains(x) <==> exists|i: int|
                    0 <= i < n && x == entry_of(#[trigger] pairs[i], depth) by {
                lemma_insert_sorted_contains(front, e, x);
                if exists|i: int| 0 <= i < n && x == entry_of(#[trigger] pairs[i], depth) {
                    let i = choose|i: int| 0 <= i < n && x == entry_of(#[trigger] pairs[i], depth);
                    if i < n - 1 {
                        assert(front.contains(x));
                    }
                }
            }
        } else if object_entries(pairs, n - 1, depth) is Ok {
            assert(!convertible(pairs[n - 1], depth));
        } else {
            let i = choose|i: int| 0 <= i < n - 1 && !convertible(#[trigger] pairs[i], depth);
            assert(!convertible(pairs[i], depth));
        }
    } else {
        let es = object_entries(pairs, n, depth)->Ok_0;
        assert(es.len() == 0);
        assert forall|x: (Seq<char>, Canon)| !es.contains(x) by {}
    }
}

/// Order canonicalization: the value that an object gives depends on its
/// pairs as a set. Two objects without equal keys that hold the same pairs, in
/// whatever order, give the same value, and so the same canonical bytes and
/// the same identifier; and where one cannot be converted, neither can the
/// other.
pub proof fn law_key_order_irrelevant(
    first: Seq<(Seq<char>, JsonTree)>,
    second: Seq<(Seq<char>, JsonTree)>,
    depth: nat,
)
    requires
        no_repeats(first),
        no_repeats(second),
        forall|x: (Seq<char>, JsonTree)| first.contains(x) <==> second.contains(x),
    ensures
        to_canon(JsonTree::Object(first), depth) is Ok <==> to_canon(
            JsonTree::Object(second),
            depth,
        ) is Ok,
        to_canon(JsonTree::Object(first), depth) is Ok ==> to_canon(
            JsonTree::Object(first),
            depth,
        ) == to_canon(JsonTree::Object(second), depth),
{
    if depth <= MAX_DEPTH {
        let n1 = first.len() as int;
        let n2 = second.len() as int;
        lemma_object_entries_of_distinct(first, n1, depth);
        lemma_object_entries_of_distinct(second, n2, depth);
        lemma_all_convertible(first, second, depth);
        lemma_all_convertible(second, first, depth);
        if object_entries(first, n1, depth) is Ok {
            let e1 = object_entries(first, n1, depth)->Ok_0;
            let e2 = object_entries(second, n2, depth)->Ok_0;
            lemma_object_entries_ascending(first, n1, depth);
            lemma_object_entries_ascending(second, n2, depth);
            assert forall|x: (Seq<char>, Canon)| e1.contains(x) <==> e2.contains(x) by {
                if e1.contains(x) {
                    let i = choose|i: int|
                        0 <= i < n1 && x == entry_of(#[trigger] first[i], depth);
                    assert(first.contains(first[i]));
                    let j = choose|j: int| 0 <= j < n2 && second[j] == first[i];
                    assert(x == entry_of(second[j], depth));
                }
                if e2.contains(x) {
                    let i = choose|i: int|
                        0 <= i < n2 && x == entry_of(#[trigger] second[i], depth);
                    assert(second.contains(second[i]));
                    let j = choose|j: int| 0 <= j < n1 && first[j] == second[i];
                    assert(x == entry_of(first[j], depth));
                }
            }
            lemma_ascending_unique(e1, e2);
        }
    }
}

/// Where every pair of `a` can be converted and `b` holds no other pairs,
/// every pair of `b` can be converted.
proof fn lemma_all_convertible(
    a: Seq<(Seq<char>, JsonTree)>,
    b: Seq<(Seq<char>, JsonTree)>,
    depth: nat,
)
    requires
        forall|x: (Seq<char>, JsonTree)| a.contains(x) <==> b.contains(x),
    ensures
        (forall|i: int| 0 <= i < a.len() ==> convertible(#[trigger] a[i], depth)) ==> (forall|
            j: int,
        |
            0 <= j < b.len() ==> convertible(#[trigger] b[j], depth)),
{
    if forall|i: int| 0 <= i < a.len() ==> convertible(#[trigger] a[i], depth) {
        assert forall|j: int| 0 <= j < b.len() implies convertible(#[trigger] b[j], depth) by {
            assert(b.contains(b[j]));
            let i = choose|i: int| 0 <= i < a.len() && a[i] == b[j];
            assert(convertible(a[i], depth));
        }
    }
}

/// Keys that ascend strictly have no fault of order.
pub proof fn lemma_ascending_has_no_fault(entries: Seq<(Seq<char>, Canon)>, n: int)
    requires
        strictly_ascending(entries),
        0 <= n <= entries.len(),
    ensures
        key_fault(entries, n) is None,
    decreases n,
{
    if n > 1 {
        lemma_ascending_has_no_fault(entries, n - 1);
        let a = entries[n - 2];
        let b = entries[n - 1];
        assert(crate::sorted::comes_before(a.0, b.0));
        crate::encode::lemma_key_lt_asymmetric(
            vstd::utf8::encode_utf8(a.0),
            vstd::utf8::encode_utf8(b.0),
        );
    }
}

/// The MAP that an object gives has its keys in strict order, whatever the
/// order and the repetitions of the keys in the object: the encoder finds no
/// fault of order in it.
pub proof fn law_json_keys_in_order(pairs: Seq<(Seq<char>, JsonTree)>, depth: nat)
    requires
        to_canon(JsonTree::Object(pairs), depth) is Ok,
    ensures
        to_canon(JsonTree::Object(pairs), depth)->Ok_0 is Mapping,
        strictly_ascending(to_canon(JsonTree::Object(pairs), depth)->Ok_0->Mapping_0),
        key_fault(
            to_canon(JsonTree::Object(pairs), depth)->Ok_0->Mapping_0,
            to_canon(JsonTree::Object(pairs), depth)->Ok_0->Mapping_0.len() as int,
        ) is None,
{
    lemma_object_entries_ascending(pairs, pairs.len() as int, depth);
    let es = object_entries(pairs, pairs.len() as int, depth)->Ok_0;
    lemma_ascending_has_no_fault(es, es.len() as int);
}

/// Whether a value that stands `depth` containers below the root keeps the
/// rules of the model: containers nest no deeper than the limit and hold no
/// more entries than the limit, the keys of every MAP ascend strictly, and the
/// length of every STRING, key and BYTES fits in 32 bits.
pub open spec fn well_formed(v: Canon, depth: nat) -> bool
    decreases v,
{
    match v {
        Canon::String(s) => vstd::utf8::encode_utf8(s).len() <= u32::MAX,
        Canon::Bytes(b) => b.len() <= u32::MAX,
        Canon::Boolean(_) => true,
        Canon::Integer(_) => true,
        Canon::List(items) => {
            &&& depth + 1 <= MAX_DEPTH
            &&& items.len() <= crate::constants::MAX_LIST_ENTRIES
            &&& forall|i: int| 0 <= i < items.len() ==> well_formed(#[trigger] items[i], depth + 1)
        },
        Canon::Mapping(entries) => {
            &&& depth + 1 <= MAX_DEPTH
            &&& entries.len() <= crate::constants::MAX_MAP_ENTRIES
            &&& strictly_ascending(entries)
            &&& forall|i: int|
                0 <= i < entries.len() ==> vstd::utf8::encode_utf8((#[trigger] entries[i]).0).len()
                    <= u32::MAX && well_formed(entries[i].1, depth + 1)
        },
    }
}

/// Keys without a fault of order ascend strictly.
pub proof fn lemma_no_fault_is_ascending(entries: Seq<(Seq<char>, Canon)>, n: int)
    requires
        0 <= n <= entries.len(),
        key_fault(entries, n) is None,
    ensures
        forall|i: int, j: int|
            0 <= i < j < n ==> crate::sorted::comes_before(
                (#[trigger] entries[i]).0,
                (#[trigger] entries[j]).0,
            ),
    decreases n,
{
    if n > 1 {
        assert(key_fault(entries, n - 1) is None);
        lemma_no_fault_is_ascending(entries, n - 1);
        let last = entries[n - 1].0;
        assert(crate::sorted::comes_before(entries[n - 2].0, last));
        assert forall|i: int, j: int| 0 <= i < j < n implies crate::sorted::comes_before(
            (#[trigger] entries[i]).0,
            (#[trigger] entries[j]).0,
        ) by {
            if j == n - 1 && i < n - 2 {
                crate::sorted::lemma_comes_before_order(entries[i].0, entries[n - 2].0, last);
            }
        }
    }
}

/// The first `n` values of a list can be encoded exactly where each of them can.
pub proof fn lemma_encode_items_ok(items: Seq<Canon>, n: int, depth: nat)
    requires
        0 <= n <= items.len(),
    ensures
        crate::encode::encode_items(items, n, depth) is Ok <==> forall|i: int|
            0 <= i < n ==> encode_value(#[trigger] items[i], depth) is Ok,
    decreases n,
{
    if n > 0 {
        lemma_encode_items_ok(items, n - 1, depth);
        if crate::encode::encode_items(items, n - 1, depth) is Err {
            let i = choose|i: int| 0 <= i < n - 1 && !(encode_value(#[trigger] items[i], depth) is Ok);
            assert(!(encode_value(items[i], depth) is Ok));
        } else if encode_value(items[n - 1], depth) is Err {
            assert(!(encode_value(items[n - 1], depth) is Ok));
        }
    }
}

/// The first `n` entries of a map can be encoded exactly where each key and
/// each value can.
pub proof fn lemma_encode_entries_ok(entries: Seq<(Seq<char>, Canon)>, n: int, depth: nat)
    requires
        0 <= n <= entries.len(),
    ensures
        encode_entries(entries, n, depth) is Ok <==> forall|i: int|
            0 <= i < n ==> encode_string((#[trigger] entries[i]).0) is Ok && encode_value(
                entries[i].1,
                depth,
            ) is Ok,
    decreases n,
{
    if n > 0 {
        lemma_encode_entries_ok(entries, n - 1, depth);
        if encode_entries(entries, n - 1, depth) is Err {
            let i = choose|i: int|
                0 <= i < n - 1 && !(encode_string((#[trigger] entries[i]).0) is Ok && encode_value(
                    entries[i].1,
                    depth,
                ) is Ok);
            assert(!(encode_string(entries[i].0) is Ok && encode_value(entries[i].1, depth) is Ok));
        } else if !(encode_string(entries[n - 1].0) is Ok && encode_value(entries[n - 1].1, depth)
            is Ok) {
            assert(encode_entries(entries, n, depth) is Err);
        }
    }
}

/// The encoder accepts exactly the values that keep the rules of the model.
pub proof fn law_encodes_iff_well_formed(v: Canon, depth: nat)
    ensures
        encode_value(v, depth) is Ok <==> well_formed(v, depth),
    decreases v,
{
    match v {
        Canon::List(items) => {
            lemma_encode_items_ok(items, items.len() as int, depth + 1);
            assert forall|i: int| 0 <= i < items.len() implies (encode_value(
                #[trigger] items[i],
                depth + 1,
            ) is Ok <==> well_formed(items[i], depth + 1)) by {
                law_encodes_iff_well_formed(items[i], depth + 1);
            }
        },
        Canon::Mapping(entries) => {
            let n = entries.len() as int;
            lemma_encode_entries_ok(entries, n, depth + 1);
            assert forall|i: int| 0 <= i < entries.len() implies (encode_value(
                (#[trigger] entries[i]).1,
                depth + 1,
            ) is Ok <==> well_formed(entries[i].1, depth + 1)) by {
                law_encodes_iff_well_formed(entries[i].1, depth + 1);
            }
            if key_fault(entries, n) is None {
                lemma_no_fault_is_ascending(entries, n);
            }
            if strictly_ascending(entries) {
                lemma_ascending_has_no_fault(entries, n);
            }
        },
        _ => {},
    }
}

/// Precedence with equal keys on record: what is reported is the violation
/// found or the duplicate, whichever comes first in the order of precedence.
pub proof fn law_duplicate_precedence(code: &'static str, dup: bool)
    ensures
        !dup ==> reported(code, dup) == code,
        dup ==> reported(code, dup) == code || reported(code, dup) == ERR_DUP_KEY,
        dup ==> rank(reported(code, dup)@) <= rank(code@) && rank(reported(code, dup)@) <= rank(
            ERR_DUP_KEY@,
        ),
{
}

/// No value is passed over: where an object can be converted, the value of
/// every one of its pairs can, the pairs with a repeated key too. So a
/// violation in the value of a repeated key is found like any other.
pub proof fn law_no_value_is_skipped(pairs: Seq<(Seq<char>, JsonTree)>, depth: nat)
    requires
        to_canon(JsonTree::Object(pairs), depth) is Ok,
    ensures
        forall|i: int| 0 <= i < pairs.len() ==> convertible(#[trigger] pairs[i], depth),
{
    crate::json_object::lemma_object_entries_elements(pairs, pairs.len() as int, depth);
}

} // verus!
