//! Which pairs of a JSON object repeat a key of an earlier pair.
//!
//! The places of the pairs are sorted by key, and pairs with the same key by
//! place, so that every repetition stands next to the pair that it repeats.

use vstd::prelude::*;
use crate::encode::{key_order, KeyOrder};
use crate::json_adapter::repeats_key;
use crate::json_tree::{pairs_view, JsonTree, ParsedJson};
use crate::sorted::{comes_before, lemma_comes_before_order};

verus! {

/// Whether the pair at place `i` stands before the pair at place `j` when the
/// pairs are put in the order of their keys, pairs with the same key in the
/// order of their places.
pub open spec fn before(pairs: Seq<(Seq<char>, JsonTree)>, i: int, j: int) -> bool {
    comes_before(pairs[i].0, pairs[j].0) || (pairs[i].0 == pairs[j].0 && i < j)
}

/// Whether the places in `order` stand in the order of `before`.
pub open spec fn in_order(pairs: Seq<(Seq<char>, JsonTree)>, order: Seq<usize>) -> bool {
    forall|p: int, q: int|
        0 <= p < q < order.len() ==> before(pairs, #[trigger] order[p] as int, #[trigger] order[q] as int)
}

/// `before` is a strict total order of places.
pub proof fn lemma_before_order(pairs: Seq<(Seq<char>, JsonTree)>, i: int, j: int, k: int)
    ensures
        !before(pairs, i, i),
        before(pairs, i, j) ==> !before(pairs, j, i),
        before(pairs, i, j) && before(pairs, j, k) ==> before(pairs, i, k),
        i != j ==> before(pairs, i, j) || before(pairs, j, i),
{
    lemma_comes_before_order(pairs[i].0, pairs[j].0, pairs[k].0);
    lemma_comes_before_order(pairs[j].0, pairs[k].0, pairs[i].0);
    lemma_comes_before_order(pairs[k].0, pairs[i].0, pairs[j].0);
    lemma_comes_before_order(pairs[i].0, pairs[k].0, pairs[j].0);
}

/// Whether the pair at place `i` stands before the pair at place `j`.
fn place_before(pairs: &Vec<(String, ParsedJson)>, i: usize, j: usize) -> (r: bool)
    requires
        i < pairs@.len(),
        j < pairs@.len(),
    ensures
        r == before(pairs_view(pairs@), i as int, j as int),
{
    let ghost pv = pairs_view(pairs@);
    assert(pv[i as int].0 == pairs@[i as int].0@);
    assert(pv[j as int].0 == pairs@[j as int].0@);
    match key_order(pairs[i].0.as_str().as_bytes(), pairs[j].0.as_str().as_bytes()) {
        KeyOrder::Less => true,
        KeyOrder::Equal => {
            proof {
                crate::text::lemma_encode_utf8_injective(pv[i as int].0, pv[j as int].0);
                lemma_comes_before_order(pv[i as int].0, pv[j as int].0, pv[i as int].0);
            }
            i < j
        },
        KeyOrder::Greater => {
            proof {
                lemma_comes_before_order(pv[j as int].0, pv[i as int].0, pv[j as int].0);
            }
            false
        },
    }
}

/// Two runs of places, each in order, as one run in order.
fn merge_places(pairs: &Vec<(String, ParsedJson)>, a: &Vec<usize>, b: &Vec<usize>) -> (out: Vec<
    usize,
>)
    requires
        in_order(pairs_view(pairs@), a@),
        in_order(pairs_view(pairs@), b@),
        forall|i: int| 0 <= i < a@.len() ==> (#[trigger] a@[i]) < pairs@.len(),
        forall|j: int| 0 <= j < b@.len() ==> (#[trigger] b@[j]) < pairs@.len(),
        forall|i: int, j: int|
            0 <= i < a@.len() && 0 <= j < b@.len() ==> #[trigger] a@[i] != #[trigger] b@[j],
        a@.len() + b@.len() <= usize::MAX,
    ensures
        in_order(pairs_view(pairs@), out@),
        out@.len() == a@.len() + b@.len(),
        forall|x: usize| out@.contains(x) <==> a@.contains(x) || b@.contains(x),
{
    let ghost pv = pairs_view(pairs@);
    let mut out: Vec<usize> = Vec::new();
    let mut i: usize = 0;
    let mut j: usize = 0;
    while i < a.len() || j < b.len()
        invariant
            i <= a@.len(),
            j <= b@.len(),
            pv == pairs_view(pairs@),
            in_order(pv, a@),
            in_order(pv, b@),
            forall|x: int| 0 <= x < a@.len() ==> (#[trigger] a@[x]) < pairs@.len(),
            forall|y: int| 0 <= y < b@.len() ==> (#[trigger] b@[y]) < pairs@.len(),
            forall|x: int, y: int|
                0 <= x < a@.len() && 0 <= y < b@.len() ==> #[trigger] a@[x] != #[trigger] b@[y],
            out@.len() == i + j,
            in_order(pv, out@),
            forall|p: int, x: int|
                0 <= p < out@.len() && i <= x < a@.len() ==> before(
                    pv,
                    #[trigger] out@[p] as int,
                    #[trigger] a@[x] as int,
                ),
            forall|p: int, y: int|
                0 <= p < out@.len() && j <= y < b@.len() ==> before(
                    pv,
                    #[trigger] out@[p] as int,
                    #[trigger] b@[y] as int,
                ),
            forall|v: usize|
                out@.contains(v) <==> a@.take(i as int).contains(v) || b@.take(j as int).contains(
                    v,
                ),
        decreases a@.len() - i + b@.len() - j,
    {
        let take_a = if j >= b.len() {
            true
        } else if i >= a.len() {
            false
        } else {
            place_before(pairs, a[i], b[j])
        };
        let ghost old_out = out@;
        if take_a {
            let v = a[i];
            proof {
                assert forall|p: int, y: int|
                    0 <= p < old_out.push(v).len() && j <= y < b@.len() implies before(
                    pv,
                    #[trigger] old_out.push(v)[p] as int,
                    #[trigger] b@[y] as int,
                ) by {
                    if p == old_out.len() {
                        lemma_before_order(pv, v as int, b@[j as int] as int, b@[y] as int);
                    }
                }
                assert forall|p: int, x: int|
                    0 <= p < old_out.push(v).len() && i + 1 <= x < a@.len() implies before(
                    pv,
                    #[trigger] old_out.push(v)[p] as int,
                    #[trigger] a@[x] as int,
                ) by {}
                assert forall|w: usize|
                    old_out.push(v).contains(w) <==> a@.take(i + 1).contains(w) || b@.take(
                        j as int,
                    ).contains(w) by {
                    lemma_push_contains(old_out, v, w);
                    assert(a@.take(i + 1) == a@.take(i as int).push(v));
                    lemma_push_contains(a@.take(i as int), v, w);
                }
            }
            out.push(v);
            i += 1;
        } else {
            let v = b[j];
            proof {
                if i < a@.len() {
                    lemma_before_order(pv, a@[i as int] as int, v as int, v as int);
                }
                assert forall|p: int, x: int|
                    0 <= p < old_out.push(v).len() && i <= x < a@.len() implies before(
                    pv,
                    #[trigger] old_out.push(v)[p] as int,
                    #[trigger] a@[x] as int,
                ) by {
                    if p == old_out.len() {
                        lemma_before_order(pv, v as int, a@[i as int] as int, a@[x] as int);
                    }
                }
                assert forall|p: int, y: int|
                    0 <= p < old_out.push(v).len() && j + 1 <= y < b@.len() implies before(
                    pv,
                    #[trigger] old_out.push(v)[p] as int,
                    #[trigger] b@[y] as int,
                ) by {}
                assert forall|w: usize|
                    old_out.push(v).contains(w) <==> a@.take(i as int).contains(w) || b@.take(
                        j + 1,
                    ).contains(w) by {
                    lemma_push_contains(old_out, v, w);
                    assert(b@.take(j + 1) == b@.take(j as int).push(v));
                    lemma_push_contains(b@.take(j as int), v, w);
                }
            }
            out.push(v);
            j += 1;
        }
    }
    assert(a@.take(i as int) == a@);
    assert(b@.take(j as int) == b@);
    out
}

/// What a sequence holds after a push: what it held, and what was pushed.
pub proof fn lemma_push_contains(s: Seq<usize>, v: usize, w: usize)
    ensures
        s.push(v).contains(w) <==> s.contains(w) || w == v,
{
    if s.contains(w) {
        let k = choose|k: int| 0 <= k < s.len() && s[k] == w;
        assert(s.push(v)[k] == w);
    }
    if w == v {
        assert(s.push(v)[s.len() as int] == w);
    }
    if s.push(v).contains(w) {
        let k = choose|k: int| 0 <= k < s.push(v).len() && s.push(v)[k] == w;
        if k < s.len() {
            assert(s[k] == w);
        }
    }
}

/// The places from `lo` up to `hi` in the order of `before`.
fn sort_places(pairs: &Vec<(String, ParsedJson)>, lo: usize, hi: usize) -> (out: Vec<usize>)
    requires
        lo <= hi <= pairs@.len(),
    ensures
        in_order(pairs_view(pairs@), out@),
        out@.len() == hi - lo,
        forall|x: usize| out@.contains(x) <==> lo <= x < hi,
    decreases hi - lo,
{
    if hi - lo <= 1 {
        let mut out: Vec<usize> = Vec::new();
        if hi - lo == 1 {
            out.push(lo);
            assert(out@[0] == lo);
        }
        return out;
    }
    let mid = lo + (hi - lo) / 2;
    let a = sort_places(pairs, lo, mid);
    let b = sort_places(pairs, mid, hi);
    proof {
        assert forall|i: int| 0 <= i < a@.len() implies (#[trigger] a@[i]) < pairs@.len() by {
            assert(a@.contains(a@[i]));
        }
        assert forall|j: int| 0 <= j < b@.len() implies (#[trigger] b@[j]) < pairs@.len() by {
            assert(b@.contains(b@[j]));
        }
        assert forall|i: int, j: int|
            0 <= i < a@.len() && 0 <= j < b@.len() implies #[trigger] a@[i] != #[trigger] b@[j] by {
            assert(a@.contains(a@[i]));
            assert(b@.contains(b@[j]));
        }
    }
    merge_places(pairs, &a, &b)
}

/// Whether `order` holds the places of all pairs, each once, in the order of
/// `before`.
pub open spec fn is_sorted_places(pairs: Seq<(Seq<char>, JsonTree)>, order: Seq<usize>) -> bool {
    &&& order.len() == pairs.len()
    &&& in_order(pairs, order)
    &&& forall|q: int| 0 <= q < order.len() ==> (#[trigger] order[q]) < pairs.len()
    &&& forall|x: usize| order.contains(x) <==> 0 <= x < pairs.len()
}

/// The places of the pairs of an object in the order of their keys, pairs with
/// the same key in the order of their places.
pub fn sorted_places(pairs: &Vec<(String, ParsedJson)>) -> (order: Vec<usize>)
    ensures
        is_sorted_places(pairs_view(pairs@), order@),
{
    let order = sort_places(pairs, 0, pairs.len());
    proof {
        assert forall|p: int| 0 <= p < order@.len() implies (#[trigger] order@[p])
            < pairs@.len() by {
            assert(order@.contains(order@[p]));
        }
    }
    order
}

/// For each pair of an object, whether its key is the key of a pair before
/// it, found from the places in sorted order.
pub(crate) fn marks_of_places(pairs: &Vec<(String, ParsedJson)>, order: &Vec<usize>) -> (marks: Vec<bool>)
    requires
        is_sorted_places(pairs_view(pairs@), order@),
    ensures
        marks@.len() == pairs@.len(),
        forall|i: int|
            0 <= i < pairs@.len() ==> #[trigger] marks@[i] == repeats_key(pairs_view(pairs@), i),
{
    let ghost pv = pairs_view(pairs@);
    let n = pairs.len();
    let mut marks: Vec<bool> = Vec::new();
    while marks.len() < n
        invariant
            marks@.len() <= n,
            forall|i: int| 0 <= i < marks@.len() ==> !(#[trigger] marks@[i]),
        decreases n - marks@.len(),
    {
        marks.push(false);
    }
    let mut p: usize = 0;
    while p < n
        invariant
            p <= n,
            n == pairs@.len(),
            marks@.len() == n,
            pv == pairs_view(pairs@),
            is_sorted_places(pv, order@),
            forall|q: int|
                0 <= q < p ==> marks@[(#[trigger] order@[q]) as int] == repeats_key(
                    pv,
                    order@[q] as int,
                ),
            forall|q: int| p <= q < n ==> !marks@[(#[trigger] order@[q]) as int],
        decreases n - p,
    {
        let cur = order[p];
        let same = if p == 0 {
            false
        } else {
            let prev = order[p - 1];
            assert(pv[prev as int].0 == pairs@[prev as int].0@);
            assert(pv[cur as int].0 == pairs@[cur as int].0@);
            crate::text::str_eq(pairs[prev].0.as_str(), pairs[cur].0.as_str())
        };
        proof {
            lemma_repeat_is_next(pv, order@, p as int);
            assert forall|q: int| 0 <= q < n && q != p implies order@[q] != cur by {
                if q < p {
                    lemma_before_order(pv, order@[q] as int, cur as int, cur as int);
                } else {
                    lemma_before_order(pv, cur as int, order@[q] as int, cur as int);
                }
            }
        }
        if same {
            marks.set(cur, true);
        }
        p += 1;
    }
    proof {
        assert forall|i: int| 0 <= i < n implies #[trigger] marks@[i] == repeats_key(pv, i) by {
            assert(order@.contains(i as usize));
            let q = choose|q: int| 0 <= q < order@.len() && order@[q] == i as usize;
            assert(marks@[order@[q] as int] == repeats_key(pv, order@[q] as int));
        }
    }
    marks
}

/// For each pair of an object, whether its key is the key of a pair before it.
pub fn repeat_marks(pairs: &Vec<(String, ParsedJson)>) -> (marks: Vec<bool>)
    ensures
        marks@.len() == pairs@.len(),
        forall|i: int|
            0 <= i < pairs@.len() ==> #[trigger] marks@[i] == repeats_key(pairs_view(pairs@), i),
{
    let order = sorted_places(pairs);
    marks_of_places(pairs, &order)
}

/// In the order of `before`, a pair repeats an earlier key exactly where the
/// pair next before it has the same key.
pub proof fn lemma_repeat_is_next(pairs: Seq<(Seq<char>, JsonTree)>, order: Seq<usize>, p: int)
    requires
        0 <= p < order.len(),
        is_sorted_places(pairs, order),
    ensures
        repeats_key(pairs, order[p] as int) <==> (p > 0 && pairs[order[p - 1] as int].0
            == pairs[order[p] as int].0),
{
    let cur = order[p] as int;
    if p > 0 && pairs[order[p - 1] as int].0 == pairs[cur].0 {
        let prev = order[p - 1] as int;
        assert(before(pairs, prev, cur));
        lemma_comes_before_order(pairs[prev].0, pairs[cur].0, pairs[prev].0);
        assert(prev < cur);
        assert(pairs[prev].0 == pairs[cur].0);
    }
    if repeats_key(pairs, cur) {
        let j = choose|j: int| 0 <= j < cur && (#[trigger] pairs[j]).0 == pairs[cur].0;
        assert(order.contains(j as usize));
        let q = choose|q: int| 0 <= q < order.len() && order[q] == j as usize;
        assert(before(pairs, j, cur));
        lemma_before_order(pairs, j, cur, j);
        if q > p {
            assert(before(pairs, order[p] as int, order[q] as int));
        }
        assert(q < p);
        let prev = order[p - 1] as int;
        assert(before(pairs, prev, cur));
        if q < p - 1 {
            assert(before(pairs, order[q] as int, order[p - 1] as int));
        }
        // the key of `prev` lies between two equal keys
        lemma_comes_before_order(pairs[j].0, pairs[prev].0, pairs[cur].0);
        lemma_comes_before_order(pairs[prev].0, pairs[cur].0, pairs[j].0);
    }
}

} // verus!
