//! The order in which a JSON text gives the members of its objects does not
//! matter, at any depth of nesting.

use vstd::prelude::*;
use crate::json_adapter::{
    array_items, child_depth, has_dup, items_dup, json_strict, object_entries, pairs_dup,
    repeats_key, strict_tree, to_canon,
};
use crate::json_object::{convertible, entry_of, lemma_object_entries_ascending};
use crate::json_tree::JsonTree;
use crate::laws::{lemma_object_entries_of_distinct, no_repeats};
use crate::sorted::lemma_ascending_unique;
use crate::value::Canon;

verus! {

/// Whether two trees hold the same values up to the order of the pairs of
/// their objects: arrays hold like values place by place, and objects, which
/// have no key twice, hold under each key like values.
pub open spec fn same_members(a: JsonTree, b: JsonTree) -> bool
    decreases a,
{
    match a {
        JsonTree::Object(p) => {
            &&& b is Object
            &&& no_repeats(p)
            &&& no_repeats(b->Object_0)
            &&& forall|i: int|
                0 <= i < p.len() ==> exists|j: int|
                    0 <= j < b->Object_0.len() && (#[trigger] b->Object_0[j]).0 == (
                    #[trigger] p[i]).0 && same_members(p[i].1, b->Object_0[j].1)
            &&& forall|j: int|
                0 <= j < b->Object_0.len() ==> exists|i: int|
                    0 <= i < p.len() && (#[trigger] p[i]).0 == (#[trigger] b->Object_0[j]).0
                        && same_members(p[i].1, b->Object_0[j].1)
        },
        JsonTree::Array(x) => {
            &&& b is Array
            &&& x.len() == b->Array_0.len()
            &&& forall|i: int| 0 <= i < x.len() ==> same_members(#[trigger] x[i], b->Array_0[i])
        },
        _ => a == b,
    }
}

/// Like trees are of the same kind, so that inside a container they stand at
/// the same depth.
pub proof fn lemma_same_members_depth(a: JsonTree, b: JsonTree, depth: nat)
    requires
        same_members(a, b),
    ensures
        child_depth(a, depth) == child_depth(b, depth),
{
}

/// The first `n` values of an array can be converted exactly where each of
/// them can, and then they give their values place by place.
pub proof fn lemma_array_items_ok(items: Seq<JsonTree>, n: int, depth: nat)
    requires
        0 <= n <= items.len(),
    ensures
        array_items(items, n, depth) is Ok <==> forall|i: int|
            0 <= i < n ==> to_canon(#[trigger] items[i], child_depth(items[i], depth)) is Ok,
        array_items(items, n, depth) is Ok ==> array_items(items, n, depth)->Ok_0.len() == n
            && forall|i: int|
            0 <= i < n ==> array_items(items, n, depth)->Ok_0[i] == to_canon(
                #[trigger] items[i],
                child_depth(items[i], depth),
            )->Ok_0,
    decreases n,
{
    if n > 0 {
        lemma_array_items_ok(items, n - 1, depth);
        if array_items(items, n - 1, depth) is Err {
            let i = choose|i: int|
                0 <= i < n - 1 && !(to_canon(#[trigger] items[i], child_depth(items[i], depth))
                    is Ok);
            assert(!(to_canon(items[i], child_depth(items[i], depth)) is Ok));
        } else if to_canon(items[n - 1], child_depth(items[n - 1], depth)) is Err {
            assert(array_items(items, n, depth) is Err);
        }
    }
}

/// Like trees give the same canonical value, and where one cannot be
/// converted, neither can the other.
pub proof fn lemma_same_members_canon(a: JsonTree, b: JsonTree, depth: nat)
    requires
        same_members(a, b),
    ensures
        to_canon(a, depth) is Ok <==> to_canon(b, depth) is Ok,
        to_canon(a, depth) is Ok ==> to_canon(a, depth) == to_canon(b, depth),
    decreases a, 0int,
{
    if depth <= crate::constants::MAX_DEPTH {
        match a {
            JsonTree::Array(x) => {
                let y = b->Array_0;
                let n = x.len() as int;
                lemma_array_items_ok(x, n, depth);
                lemma_array_items_ok(y, n, depth);
                assert forall|i: int| 0 <= i < n implies (to_canon(
                    #[trigger] x[i],
                    child_depth(x[i], depth),
                ) is Ok <==> to_canon(y[i], child_depth(y[i], depth)) is Ok) && (to_canon(
                    x[i],
                    child_depth(x[i], depth),
                ) is Ok ==> to_canon(x[i], child_depth(x[i], depth)) == to_canon(
                    y[i],
                    child_depth(y[i], depth),
                )) by {
                    lemma_same_members_depth(x[i], y[i], depth);
                    lemma_same_members_canon(x[i], y[i], child_depth(x[i], depth));
                }
                if array_items(x, n, depth) is Ok {
                    assert forall|i: int| 0 <= i < n implies to_canon(
                        #[trigger] y[i],
                        child_depth(y[i], depth),
                    ) is Ok by {
                        assert(to_canon(x[i], child_depth(x[i], depth)) is Ok);
                    }
                    let vx = array_items(x, n, depth)->Ok_0;
                    let vy = array_items(y, n, depth)->Ok_0;
                    assert forall|i: int| 0 <= i < n implies vx[i] == vy[i] by {
                        assert(vx[i] == to_canon(x[i], child_depth(x[i], depth))->Ok_0);
                        assert(vy[i] == to_canon(y[i], child_depth(y[i], depth))->Ok_0);
                    }
                    assert(vx =~= vy);
                }
                if array_items(y, n, depth) is Ok {
                    assert forall|i: int| 0 <= i < n implies to_canon(
                        #[trigger] x[i],
                        child_depth(x[i], depth),
                    ) is Ok by {
                        assert(to_canon(y[i], child_depth(y[i], depth)) is Ok);
                    }
                }
            },
            JsonTree::Object(p) => {
                let q = b->Object_0;
                lemma_same_members_object(p, q, depth);
            },
            _ => {},
        }
    }
}

/// Whether the pair at place `i` of `p` and the pair at place `j` of `q` have
/// the same key and like values.
pub open spec fn alike(
    p: Seq<(Seq<char>, JsonTree)>,
    i: int,
    q: Seq<(Seq<char>, JsonTree)>,
    j: int,
) -> bool {
    0 <= i < p.len() && 0 <= j < q.len() && q[j].0 == p[i].0 && same_members(p[i].1, q[j].1)
}

/// Whether the pair at place `i` of `p` has a pair of `q` that is alike.
pub open spec fn has_partner(
    p: Seq<(Seq<char>, JsonTree)>,
    i: int,
    q: Seq<(Seq<char>, JsonTree)>,
) -> bool {
    exists|j: int| alike(p, i, q, j)
}

/// Whether the pair at place `j` of `q` has a pair of `p` that is alike.
pub open spec fn is_partner(
    p: Seq<(Seq<char>, JsonTree)>,
    q: Seq<(Seq<char>, JsonTree)>,
    j: int,
) -> bool {
    exists|i: int| alike(p, i, q, j)
}

/// Whether `x` is the entry that one of the pairs gives.
pub open spec fn gives(p: Seq<(Seq<char>, JsonTree)>, x: (Seq<char>, Canon), depth: nat) -> bool {
    exists|i: int| 0 <= i < p.len() && x == entry_of(#[trigger] p[i], depth)
}

/// Two pairs with the same key and like values give the same entry, and where
/// the value of one cannot be converted, neither can that of the other.
proof fn lemma_alike_pairs(
    p: Seq<(Seq<char>, JsonTree)>,
    i: int,
    q: Seq<(Seq<char>, JsonTree)>,
    j: int,
    depth: nat,
)
    requires
        alike(p, i, q, j),
    ensures
        convertible(p[i], depth) <==> convertible(q[j], depth),
        convertible(p[i], depth) ==> entry_of(p[i], depth) == entry_of(q[j], depth),
    decreases p, 1int,
{
    lemma_same_members_depth(p[i].1, q[j].1, depth);
    lemma_same_members_canon(p[i].1, q[j].1, child_depth(p[i].1, depth));
}

/// In two objects that hold like values under the same keys, every pair of
/// one has a pair of the other that is alike.
proof fn lemma_partners(p: Seq<(Seq<char>, JsonTree)>, q: Seq<(Seq<char>, JsonTree)>)
    requires
        same_members(JsonTree::Object(p), JsonTree::Object(q)),
    ensures
        no_repeats(p),
        no_repeats(q),
        forall|i: int| 0 <= i < p.len() ==> #[trigger] has_partner(p, i, q),
        forall|j: int| 0 <= j < q.len() ==> #[trigger] is_partner(p, q, j),
{
    assert forall|i: int| 0 <= i < p.len() implies #[trigger] has_partner(p, i, q) by {
        let j = choose|j: int|
            0 <= j < q.len() && (#[trigger] q[j]).0 == (#[trigger] p[i]).0 && same_members(
                p[i].1,
                q[j].1,
            );
        assert(alike(p, i, q, j));
    }
    assert forall|j: int| 0 <= j < q.len() implies #[trigger] is_partner(p, q, j) by {
        let i = choose|i: int|
            0 <= i < p.len() && (#[trigger] p[i]).0 == (#[trigger] q[j]).0 && same_members(
                p[i].1,
                q[j].1,
            );
        assert(alike(p, i, q, j));
    }
}

/// In two objects that hold like values under the same keys, the values of one
/// can all be converted exactly where those of the other can, and then the
/// pairs of the two give the same entries.
proof fn lemma_same_entries(
    p: Seq<(Seq<char>, JsonTree)>,
    q: Seq<(Seq<char>, JsonTree)>,
    depth: nat,
)
    requires
        same_members(JsonTree::Object(p), JsonTree::Object(q)),
    ensures
        (forall|i: int| 0 <= i < p.len() ==> convertible(#[trigger] p[i], depth)) <==> (forall|
            j: int,
        |
            0 <= j < q.len() ==> convertible(#[trigger] q[j], depth)),
        (forall|i: int| 0 <= i < p.len() ==> convertible(#[trigger] p[i], depth)) ==> forall|
            x: (Seq<char>, Canon),
        |
            #![trigger gives(p, x, depth)]
            #![trigger gives(q, x, depth)]
            gives(p, x, depth) <==> gives(q, x, depth),
    decreases p, 2int,
{
    lemma_partners(p, q);
    if forall|i: int| 0 <= i < p.len() ==> convertible(#[trigger] p[i], depth) {
        assert forall|j: int| 0 <= j < q.len() implies convertible(#[trigger] q[j], depth) by {
            assert(is_partner(p, q, j));
            let i = choose|i: int| alike(p, i, q, j);
            lemma_alike_pairs(p, i, q, j, depth);
            assert(convertible(p[i], depth));
        }
    }
    if forall|j: int| 0 <= j < q.len() ==> convertible(#[trigger] q[j], depth) {
        assert forall|i: int| 0 <= i < p.len() implies convertible(#[trigger] p[i], depth) by {
            assert(has_partner(p, i, q));
            let j = choose|j: int| alike(p, i, q, j);
            lemma_alike_pairs(p, i, q, j, depth);
            assert(convertible(q[j], depth));
        }
    }
    if forall|i: int| 0 <= i < p.len() ==> convertible(#[trigger] p[i], depth) {
        assert forall|x: (Seq<char>, Canon)|
            #![trigger gives(p, x, depth)]
            #![trigger gives(q, x, depth)]
            gives(p, x, depth) <==> gives(q, x, depth) by {
            if gives(p, x, depth) {
                let i = choose|i: int| 0 <= i < p.len() && x == entry_of(#[trigger] p[i], depth);
                assert(has_partner(p, i, q));
            let j = choose|j: int| alike(p, i, q, j);
                lemma_alike_pairs(p, i, q, j, depth);
                assert(convertible(p[i], depth));
                assert(x == entry_of(q[j], depth));
            }
            if gives(q, x, depth) {
                let j = choose|j: int| 0 <= j < q.len() && x == entry_of(#[trigger] q[j], depth);
                assert(is_partner(p, q, j));
            let i = choose|i: int| alike(p, i, q, j);
                lemma_alike_pairs(p, i, q, j, depth);
                assert(convertible(p[i], depth));
                assert(x == entry_of(p[i], depth));
            }
        }
    }
}

/// Two objects without equal keys that hold like values under the same keys
/// give the same entries, and where one cannot be converted, neither can the
/// other.
pub proof fn lemma_same_members_object(
    p: Seq<(Seq<char>, JsonTree)>,
    q: Seq<(Seq<char>, JsonTree)>,
    depth: nat,
)
    requires
        same_members(JsonTree::Object(p), JsonTree::Object(q)),
    ensures
        object_entries(p, p.len() as int, depth) is Ok <==> object_entries(
            q,
            q.len() as int,
            depth,
        ) is Ok,
        object_entries(p, p.len() as int, depth) is Ok ==> object_entries(
            p,
            p.len() as int,
            depth,
        ) == object_entries(q, q.len() as int, depth),
    decreases p, 3int,
{
    let np = p.len() as int;
    let nq = q.len() as int;
    lemma_partners(p, q);
    lemma_same_entries(p, q, depth);
    lemma_object_entries_of_distinct(p, np, depth);
    lemma_object_entries_of_distinct(q, nq, depth);
    if object_entries(p, np, depth) is Ok {
        let ep = object_entries(p, np, depth)->Ok_0;
        let eq = object_entries(q, nq, depth)->Ok_0;
        lemma_object_entries_ascending(p, np, depth);
        lemma_object_entries_ascending(q, nq, depth);
        assert forall|x: (Seq<char>, Canon)| ep.contains(x) <==> eq.contains(x) by {
            assert(ep.contains(x) <==> gives(p, x, depth));
            assert(eq.contains(x) <==> gives(q, x, depth));
        }
        lemma_ascending_unique(ep, eq);
    }
}

/// An object without equal keys whose values hold no equal keys holds none.
pub proof fn lemma_pairs_without_dup(pairs: Seq<(Seq<char>, JsonTree)>, n: int)
    requires
        0 <= n <= pairs.len(),
        no_repeats(pairs),
        forall|i: int| 0 <= i < n ==> !has_dup((#[trigger] pairs[i]).1),
    ensures
        !pairs_dup(pairs, n),
    decreases n,
{
    if n > 0 {
        lemma_pairs_without_dup(pairs, n - 1);
        assert(!has_dup(pairs[n - 1].1));
        assert(!repeats_key(pairs, n - 1));
    }
}

/// An array whose values hold no equal keys holds none.
pub proof fn lemma_items_without_dup(items: Seq<JsonTree>, n: int)
    requires
        0 <= n <= items.len(),
        forall|i: int| 0 <= i < n ==> !has_dup(#[trigger] items[i]),
    ensures
        !items_dup(items, n),
    decreases n,
{
    if n > 0 {
        lemma_items_without_dup(items, n - 1);
        assert(!has_dup(items[n - 1]));
    }
}

/// Like trees hold no equal keys in any object.
pub proof fn lemma_same_members_no_dup(a: JsonTree, b: JsonTree)
    requires
        same_members(a, b),
    ensures
        !has_dup(a),
        !has_dup(b),
    decreases a,
{
    match a {
        JsonTree::Array(x) => {
            let y = b->Array_0;
            assert forall|i: int| 0 <= i < x.len() implies !has_dup(#[trigger] x[i]) by {
                lemma_same_members_no_dup(x[i], y[i]);
            }
            assert forall|i: int| 0 <= i < y.len() implies !has_dup(#[trigger] y[i]) by {
                lemma_same_members_no_dup(x[i], y[i]);
            }
            lemma_items_without_dup(x, x.len() as int);
            lemma_items_without_dup(y, y.len() as int);
        },
        JsonTree::Object(p) => {
            let q = b->Object_0;
            lemma_partners(p, q);
            assert forall|i: int| 0 <= i < p.len() implies !has_dup((#[trigger] p[i]).1) by {
                assert(has_partner(p, i, q));
            let j = choose|j: int| alike(p, i, q, j);
                lemma_same_members_no_dup(p[i].1, q[j].1);
            }
            assert forall|j: int| 0 <= j < q.len() implies !has_dup((#[trigger] q[j]).1) by {
                assert(is_partner(p, q, j));
            let i = choose|i: int| alike(p, i, q, j);
                lemma_same_members_no_dup(p[i].1, q[j].1);
            }
            lemma_pairs_without_dup(p, p.len() as int);
            lemma_pairs_without_dup(q, q.len() as int);
        },
        _ => {},
    }
}

/// Order canonicalization: two JSON-STRICT texts whose trees hold the same
/// members, in whatever order inside each object and at whatever depth, have
/// the same identifier; and where one has none, neither has the other.
pub proof fn law_member_order_irrelevant(first: Seq<u8>, second: Seq<u8>)
    requires
        strict_tree(first) is Ok,
        strict_tree(second) is Ok,
        same_members(strict_tree(first)->Ok_0, strict_tree(second)->Ok_0),
    ensures
        json_strict(first) is Ok <==> json_strict(second) is Ok,
        json_strict(first) is Ok ==> json_strict(first) == json_strict(second),
        crate::mid_of_json(first) is Ok <==> crate::mid_of_json(second) is Ok,
        crate::mid_of_json(first) is Ok ==> crate::mid_of_json(first) == crate::mid_of_json(
            second,
        ),
{
    let a = strict_tree(first)->Ok_0;
    let b = strict_tree(second)->Ok_0;
    lemma_same_members_canon(a, b, 1);
    lemma_same_members_no_dup(a, b);
}

} // verus!
