//! What the entries are that a JSON object gives: facts about
//! `object_entries` that do not depend on how the entries are computed.

use vstd::prelude::*;
use crate::json_adapter::{child_depth, object_entries, repeats_key, to_canon};
use crate::json_tree::JsonTree;
use crate::repeats::{before, is_sorted_places};
use crate::sorted::{
    comes_before, has_key, insert_sorted, lemma_ascending_unique, lemma_comes_before_order,
    lemma_insert_sorted_ascending, lemma_insert_sorted_contains, strictly_ascending,
};
use crate::value::Canon;

verus! {

/// Whether the value of a pair of an object at `depth` can be converted.
pub open spec fn convertible(pair: (Seq<char>, JsonTree), depth: nat) -> bool {
    to_canon(pair.1, child_depth(pair.1, depth)) is Ok
}

/// The entry that a pair of an object at `depth` gives.
pub open spec fn entry_of(pair: (Seq<char>, JsonTree), depth: nat) -> (Seq<char>, Canon) {
    (pair.0, to_canon(pair.1, child_depth(pair.1, depth))->Ok_0)
}

/// The entries that an object gives have keys that ascend strictly, and their
/// keys are the keys of the pairs.
pub proof fn lemma_object_entries_ascending(
    pairs: Seq<(Seq<char>, JsonTree)>,
    n: int,
    depth: nat,
)
    requires
        0 <= n <= pairs.len(),
        object_entries(pairs, n, depth) is Ok,
    ensures
        strictly_ascending(object_entries(pairs, n, depth)->Ok_0),
        forall|k: Seq<char>|
            has_key(object_entries(pairs, n, depth)->Ok_0, k) <==> exists|i: int|
                0 <= i < n && (#[trigger] pairs[i]).0 == k,
    decreases n,
{
    let es = object_entries(pairs, n, depth)->Ok_0;
    if n > 0 {
        lemma_object_entries_ascending(pairs, n - 1, depth);
        let front = object_entries(pairs, n - 1, depth)->Ok_0;
        let key = pairs[n - 1].0;
        if repeats_key(pairs, n - 1) {
            assert forall|k: Seq<char>|
                has_key(es, k) <==> exists|i: int|
                    0 <= i < n && (#[trigger] pairs[i]).0 == k by {
                if exists|i: int| 0 <= i < n && (#[trigger] pairs[i]).0 == k {
                    let i = choose|i: int| 0 <= i < n && (#[trigger] pairs[i]).0 == k;
                    if i == n - 1 {
                        let j = choose|j: int| 0 <= j < n - 1 && (#[trigger] pairs[j]).0 == key;
                        assert(pairs[j].0 == k);
                    }
                }
            }
        } else {
            let e = entry_of(pairs[n - 1], depth);
            assert(es == insert_sorted(front, e));
            assert(!has_key(front, key));
            lemma_insert_sorted_ascending(front, e);
            assert forall|k: Seq<char>|
                has_key(es, k) <==> exists|i: int|
                    0 <= i < n && (#[trigger] pairs[i]).0 == k by {
                if has_key(es, k) {
                    let m = choose|m: int| 0 <= m < es.len() && (#[trigger] es[m]).0 == k;
                    lemma_insert_sorted_contains(front, e, es[m]);
                    assert(es.contains(es[m]));
                    if es[m] == e {
                        assert(pairs[n - 1].0 == k);
                    } else {
                        let w = choose|w: int| 0 <= w < front.len() && front[w] == es[m];
                        assert(front[w].0 == k);
                        assert(has_key(front, k));
                    }
                }
                if exists|i: int| 0 <= i < n && (#[trigger] pairs[i]).0 == k {
                    let i = choose|i: int| 0 <= i < n && (#[trigger] pairs[i]).0 == k;
                    if i == n - 1 {
                        lemma_insert_sorted_contains(front, e, e);
                        let m = choose|m: int| 0 <= m < es.len() && es[m] == e;
                        assert(es[m].0 == k);
                    } else {
                        assert(has_key(front, k));
                        let w = choose|w: int| 0 <= w < front.len() && (#[trigger] front[w]).0 == k;
                        lemma_insert_sorted_contains(front, e, front[w]);
                        assert(front.contains(front[w]));
                        let m = choose|m: int| 0 <= m < es.len() && es[m] == front[w];
                        assert(es[m].0 == k);
                    }
                }
            }
        }
    } else {
        assert(es.len() == 0);
    }
}

/// Where an object gives entries, the value of every pair can be converted,
/// and the entries are those of the pairs whose key no earlier pair has.
pub proof fn lemma_object_entries_elements(
    pairs: Seq<(Seq<char>, JsonTree)>,
    n: int,
    depth: nat,
)
    requires
        0 <= n <= pairs.len(),
        object_entries(pairs, n, depth) is Ok,
    ensures
        forall|i: int| 0 <= i < n ==> convertible(#[trigger] pairs[i], depth),
        forall|x: (Seq<char>, Canon)|
            object_entries(pairs, n, depth)->Ok_0.contains(x) <==> exists|i: int|
                0 <= i < n && !repeats_key(pairs, i) && x == entry_of(#[trigger] pairs[i], depth),
    decreases n,
{
    let es = object_entries(pairs, n, depth)->Ok_0;
    if n > 0 {
        lemma_object_entries_elements(pairs, n - 1, depth);
        let front = object_entries(pairs, n - 1, depth)->Ok_0;
        if repeats_key(pairs, n - 1) {
            assert(es == front);
        } else {
            let e = entry_of(pairs[n - 1], depth);
            assert(es == insert_sorted(front, e));
            assert forall|x: (Seq<char>, Canon)|
                es.contains(x) <==> exists|i: int|
                    0 <= i < n && !repeats_key(pairs, i) && x == entry_of(
                        #[trigger] pairs[i],
                        depth,
                    ) by {
                lemma_insert_sorted_contains(front, e, x);
                if exists|i: int|
                    0 <= i < n && !repeats_key(pairs, i) && x == entry_of(
                        #[trigger] pairs[i],
                        depth,
                    ) {
                    let i = choose|i: int|
                        0 <= i < n && !repeats_key(pairs, i) && x == entry_of(
                            #[trigger] pairs[i],
                            depth,
                        );
                    if i < n - 1 {
                        assert(front.contains(x));
                    }
                }
            }
        }
    } else {
        assert(es.len() == 0);
        assert forall|x: (Seq<char>, Canon)| !es.contains(x) by {}
    }
}

/// Whether `ev` holds, in the order of the places `src` of `order`, the entries
/// of all pairs whose key no earlier pair has.
pub open spec fn assembled(
    pv: Seq<(Seq<char>, JsonTree)>,
    order: Seq<usize>,
    src: Seq<int>,
    ev: Seq<(Seq<char>, Canon)>,
    depth: nat,
) -> bool {
    &&& ev.len() == src.len()
    &&& forall|k: int|
        0 <= k < src.len() ==> 0 <= (#[trigger] src[k]) < order.len() && !repeats_key(
            pv,
            order[src[k]] as int,
        ) && ev[k] == entry_of(pv[order[src[k]] as int], depth)
    &&& forall|k1: int, k2: int|
        0 <= k1 < k2 < src.len() ==> (#[trigger] src[k1]) < (#[trigger] src[k2])
    &&& forall|q: int|
        0 <= q < order.len() && !repeats_key(pv, (#[trigger] order[q]) as int) ==> src.contains(q)
}

/// Entries taken from the places in sorted order have keys that ascend
/// strictly, where each pair taken has a key that no earlier pair has.
pub proof fn lemma_assembled_ascending(
    pv: Seq<(Seq<char>, JsonTree)>,
    order: Seq<usize>,
    src: Seq<int>,
    ev: Seq<(Seq<char>, Canon)>,
    depth: nat,
)
    requires
        is_sorted_places(pv, order),
        assembled(pv, order, src, ev, depth),
    ensures
        strictly_ascending(ev),
{
    assert forall|k1: int, k2: int| 0 <= k1 < k2 < ev.len() implies comes_before(
        (#[trigger] ev[k1]).0,
        (#[trigger] ev[k2]).0,
    ) by {
        let q1 = src[k1];
        let q2 = src[k2];
        assert(q1 < q2);
        let i1 = order[q1] as int;
        let i2 = order[q2] as int;
        assert(before(pv, i1, i2));
        assert(ev[k1] == entry_of(pv[i1], depth));
        assert(ev[k2] == entry_of(pv[i2], depth));
        if pv[i1].0 == pv[i2].0 {
            lemma_comes_before_order(pv[i1].0, pv[i2].0, pv[i1].0);
            assert(i1 < i2);
            assert(0 <= i1 < i2 && pv[i1].0 == pv[i2].0);
            assert(repeats_key(pv, i2));
        }
    }
}

/// Entries taken from the places in sorted order, each pair whose key no
/// earlier pair has, are the entries that the object gives.
pub proof fn lemma_assembled(
    pv: Seq<(Seq<char>, JsonTree)>,
    order: Seq<usize>,
    src: Seq<int>,
    ev: Seq<(Seq<char>, Canon)>,
    depth: nat,
)
    requires
        pv.len() <= usize::MAX,
        is_sorted_places(pv, order),
        object_entries(pv, pv.len() as int, depth) is Ok,
        assembled(pv, order, src, ev, depth),
    ensures
        ev == object_entries(pv, pv.len() as int, depth)->Ok_0,
{
    let n = pv.len() as int;
    let es = object_entries(pv, n, depth)->Ok_0;
    lemma_object_entries_ascending(pv, n, depth);
    lemma_object_entries_elements(pv, n, depth);
    lemma_assembled_ascending(pv, order, src, ev, depth);
    assert forall|x: (Seq<char>, Canon)| ev.contains(x) implies es.contains(x) by {
        let k = choose|k: int| 0 <= k < ev.len() && ev[k] == x;
        let i = order[src[k]] as int;
        assert(0 <= i < n && !repeats_key(pv, i) && x == entry_of(pv[i], depth));
    }
    assert forall|x: (Seq<char>, Canon)| es.contains(x) implies ev.contains(x) by {
        let i = choose|i: int|
            0 <= i < n && !repeats_key(pv, i) && x == entry_of(#[trigger] pv[i], depth);
        let iu = i as usize;
        assert(order.contains(iu));
        let q = choose|q: int| 0 <= q < order.len() && order[q] == iu;
        assert(order[q] as int == i);
        assert(!repeats_key(pv, order[q] as int));
        assert(src.contains(q));
        let k = choose|k: int| 0 <= k < src.len() && src[k] == q;
        assert(ev[k] == entry_of(pv[order[src[k]] as int], depth));
        assert(ev[k] == x);
    }
    lemma_ascending_unique(ev, es);
}

} // verus!
