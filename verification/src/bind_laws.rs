//! Laws of the BIND projection: what it builds is in the order of the keys,
//! and the order in which the pointers are given does not matter.

use vstd::prelude::*;
use crate::encode::key_fault;
use crate::laws::lemma_ascending_has_no_fault;
use crate::pointer::pointer_tokens;
use crate::projection::{
    bind, effective, group_keys, has_empty, is_strict_prefix, key_index, pointer_paths, project,
    project_key, project_keys, subsumed, tails, walk,
};
use crate::sorted::{
    has_key, insert_sorted, lemma_ascending_unique, lemma_insert_sorted_ascending,
    lemma_insert_sorted_contains, strictly_ascending,
};
use crate::value::Canon;

verus! {

/// Whether no key occurs twice.
pub open spec fn distinct(keys: Seq<Seq<char>>) -> bool {
    forall|a: int, b: int| 0 <= a < b < keys.len() ==> #[trigger] keys[a] != #[trigger] keys[b]
}

/// Whether one of the first `n` paths starts with `key`.
pub open spec fn starts_some(paths: Seq<Seq<Seq<char>>>, n: int, key: Seq<char>) -> bool {
    exists|i: int| 0 <= i < n && (#[trigger] paths[i]).len() > 0 && paths[i][0] == key
}

/// Whether `t` is what is left of one of the first `n` paths after `key`.
pub open spec fn is_tail(
    paths: Seq<Seq<Seq<char>>>,
    n: int,
    key: Seq<char>,
    t: Seq<Seq<char>>,
) -> bool {
    exists|i: int|
        0 <= i < n && (#[trigger] paths[i]).len() > 0 && paths[i][0] == key
            && paths[i].drop_first() == t
}

/// The first tokens of paths, gathered each once: no key occurs twice among
/// them, and they are the keys with which a path starts.
pub proof fn lemma_group_keys(paths: Seq<Seq<Seq<char>>>, n: int)
    requires
        0 <= n <= paths.len(),
    ensures
        distinct(group_keys(paths, n)),
        forall|k: Seq<char>| #[trigger] group_keys(paths, n).contains(k) <==> starts_some(paths, n, k),
    decreases n,
{
    let keys = group_keys(paths, n);
    if n > 0 {
        lemma_group_keys(paths, n - 1);
        let front = group_keys(paths, n - 1);
        let p = paths[n - 1];
        assert forall|k: Seq<char>| #[trigger] keys.contains(k) <==> starts_some(paths, n, k) by {
            if starts_some(paths, n, k) {
                let i = choose|i: int|
                    0 <= i < n && (#[trigger] paths[i]).len() > 0 && paths[i][0] == k;
                if i < n - 1 {
                    assert(starts_some(paths, n - 1, k));
                    assert(front.contains(k));
                    let w = choose|w: int| 0 <= w < front.len() && front[w] == k;
                    assert(keys[w] == k);
                } else if front.contains(k) {
                    let w = choose|w: int| 0 <= w < front.len() && front[w] == k;
                    assert(keys[w] == k);
                } else {
                    assert(keys[front.len() as int] == k);
                }
            }
            if keys.contains(k) {
                let w = choose|w: int| 0 <= w < keys.len() && keys[w] == k;
                if w < front.len() {
                    assert(front[w] == k);
                    assert(front.contains(k));
                    assert(starts_some(paths, n - 1, k));
                    let i = choose|i: int|
                        0 <= i < n - 1 && (#[trigger] paths[i]).len() > 0 && paths[i][0] == k;
                    assert(paths[i].len() > 0 && paths[i][0] == k);
                } else {
                    assert(p.len() > 0 && p[0] == k);
                }
            }
        }
        assert forall|a: int, b: int| 0 <= a < b < keys.len() implies #[trigger] keys[a]
            != #[trigger] keys[b] by {
            if b == front.len() {
                assert(front[a] == keys[a]);
                if keys[a] == keys[b] {
                    assert(front.contains(p[0]));
                }
            } else {
                assert(front[a] == keys[a] && front[b] == keys[b]);
            }
        }
    } else {
        assert forall|k: Seq<char>| !(#[trigger] keys.contains(k)) by {}
    }
}

/// What is left of paths after `key` is what is left of those that start with it.
pub proof fn lemma_tails(paths: Seq<Seq<Seq<char>>>, key: Seq<char>, n: int)
    requires
        0 <= n <= paths.len(),
    ensures
        forall|t: Seq<Seq<char>>|
            #[trigger] tails(paths, key, n).contains(t) <==> is_tail(paths, n, key, t),
    decreases n,
{
    let ts = tails(paths, key, n);
    if n > 0 {
        lemma_tails(paths, key, n - 1);
        let front = tails(paths, key, n - 1);
        let p = paths[n - 1];
        assert forall|t: Seq<Seq<char>>| #[trigger] ts.contains(t) <==> is_tail(
            paths,
            n,
            key,
            t,
        ) by {
            if is_tail(paths, n, key, t) {
                let i = choose|i: int|
                    0 <= i < n && (#[trigger] paths[i]).len() > 0 && paths[i][0] == key
                        && paths[i].drop_first() == t;
                if i < n - 1 {
                    assert(is_tail(paths, n - 1, key, t));
                    assert(front.contains(t));
                    let w = choose|w: int| 0 <= w < front.len() && front[w] == t;
                    assert(ts[w] == t);
                } else {
                    assert(ts[front.len() as int] == t);
                }
            }
            if ts.contains(t) {
                let w = choose|w: int| 0 <= w < ts.len() && ts[w] == t;
                if w < front.len() {
                    assert(front[w] == t);
                    assert(front.contains(t));
                    assert(is_tail(paths, n - 1, key, t));
                    let i = choose|i: int|
                        0 <= i < n - 1 && (#[trigger] paths[i]).len() > 0 && paths[i][0] == key
                            && paths[i].drop_first() == t;
                    assert(paths[i].len() > 0 && paths[i][0] == key && paths[i].drop_first() == t);
                } else {
                    assert(p.len() > 0 && p[0] == key && p.drop_first() == t);
                }
            }
        }
    } else {
        assert forall|t: Seq<Seq<char>>| !(#[trigger] ts.contains(t)) by {}
    }
}

/// Whether `x` is the entry selected under one of the first `n` keys.
pub open spec fn selected(
    entries: Seq<(Seq<char>, Canon)>,
    paths: Seq<Seq<Seq<char>>>,
    keys: Seq<Seq<char>>,
    n: int,
    x: (Seq<char>, Canon),
) -> bool {
    exists|a: int| 0 <= a < n && project_key(entries, paths, #[trigger] keys[a]) == Some(x)
}

/// The entries selected under keys of which none occurs twice: there are some
/// exactly where under every key there is one; they are those entries, and
/// their keys ascend strictly.
pub proof fn lemma_project_keys(
    entries: Seq<(Seq<char>, Canon)>,
    paths: Seq<Seq<Seq<char>>>,
    keys: Seq<Seq<char>>,
    n: int,
)
    requires
        distinct(keys),
        0 <= n <= keys.len(),
    ensures
        project_keys(entries, paths, keys, n) is Some <==> forall|a: int|
            0 <= a < n ==> project_key(entries, paths, #[trigger] keys[a]) is Some,
        project_keys(entries, paths, keys, n) is Some ==> {
            let es = project_keys(entries, paths, keys, n)->Some_0;
            &&& strictly_ascending(es)
            &&& forall|x: (Seq<char>, Canon)|
                #[trigger] es.contains(x) <==> selected(entries, paths, keys, n, x)
            &&& forall|k: Seq<char>|
                #[trigger] has_key(es, k) ==> exists|a: int| 0 <= a < n && #[trigger] keys[a] == k
        },
    decreases n,
{
    if n > 0 {
        lemma_project_keys(entries, paths, keys, n - 1);
        let key = keys[n - 1];
        if project_keys(entries, paths, keys, n - 1) is None {
            let a = choose|a: int|
                0 <= a < n - 1 && !(project_key(entries, paths, #[trigger] keys[a]) is Some);
            assert(!(project_key(entries, paths, keys[a]) is Some));
        } else if project_key(entries, paths, key) is None {
            assert(project_keys(entries, paths, keys, n) is None);
        } else {
            let front = project_keys(entries, paths, keys, n - 1)->Some_0;
            let e = project_key(entries, paths, key)->Some_0;
            let es = project_keys(entries, paths, keys, n)->Some_0;
            assert(es == insert_sorted(front, e));
            assert(e.0 == key);
            if has_key(front, key) {
                let a = choose|a: int| 0 <= a < n - 1 && #[trigger] keys[a] == key;
                assert(keys[a] != keys[n - 1]);
            }
            lemma_insert_sorted_ascending(front, e);
            assert forall|x: (Seq<char>, Canon)| #[trigger] es.contains(x) <==> selected(
                entries,
                paths,
                keys,
                n,
                x,
            ) by {
                lemma_insert_sorted_contains(front, e, x);
                if selected(entries, paths, keys, n, x) {
                    let a = choose|a: int|
                        0 <= a < n && project_key(entries, paths, #[trigger] keys[a]) == Some(x);
                    if a < n - 1 {
                        assert(selected(entries, paths, keys, n - 1, x));
                    }
                }
                if front.contains(x) {
                    assert(selected(entries, paths, keys, n - 1, x));
                    let a = choose|a: int|
                        0 <= a < n - 1 && project_key(entries, paths, #[trigger] keys[a]) == Some(
                            x,
                        );
                    assert(project_key(entries, paths, keys[a]) == Some(x));
                }
                if x == e {
                    assert(project_key(entries, paths, keys[n - 1]) == Some(x));
                }
            }
            assert forall|k: Seq<char>| #[trigger] has_key(es, k) implies exists|a: int|
                0 <= a < n && #[trigger] keys[a] == k by {
                let m = choose|m: int| 0 <= m < es.len() && (#[trigger] es[m]).0 == k;
                lemma_insert_sorted_contains(front, e, es[m]);
                assert(es.contains(es[m]));
                if es[m] == e {
                    assert(keys[n - 1] == k);
                } else {
                    let w = choose|w: int| 0 <= w < front.len() && front[w] == es[m];
                    assert(front[w].0 == k);
                    assert(has_key(front, k));
                    let a = choose|a: int| 0 <= a < n - 1 && #[trigger] keys[a] == k;
                    assert(keys[a] == k);
                }
            }
        }
    } else {
        let es = project_keys(entries, paths, keys, n)->Some_0;
        assert forall|x: (Seq<char>, Canon)| !(#[trigger] es.contains(x)) by {}
    }
}

/// What a projection builds is a MAP whose keys ascend strictly, so that the
/// encoder finds no fault of order in it. This holds at every level, as the
/// MAP under each key is built in the same way.
pub proof fn law_projection_in_order(entries: Seq<(Seq<char>, Canon)>, paths: Seq<Seq<Seq<char>>>)
    requires
        project(entries, paths) is Some,
    ensures
        project(entries, paths)->Some_0 is Mapping,
        strictly_ascending(project(entries, paths)->Some_0->Mapping_0),
        key_fault(
            project(entries, paths)->Some_0->Mapping_0,
            project(entries, paths)->Some_0->Mapping_0.len() as int,
        ) is None,
{
    let keys = group_keys(paths, paths.len() as int);
    lemma_group_keys(paths, paths.len() as int);
    lemma_project_keys(entries, paths, keys, keys.len() as int);
    let es = project_keys(entries, paths, keys, keys.len() as int)->Some_0;
    lemma_ascending_has_no_fault(es, es.len() as int);
}

/// Whether two sequences of paths hold the same paths.
pub open spec fn same_paths(a: Seq<Seq<Seq<char>>>, b: Seq<Seq<Seq<char>>>) -> bool {
    forall|x: Seq<Seq<char>>|
        #![trigger a.contains(x)]
        #![trigger b.contains(x)]
        a.contains(x) <==> b.contains(x)
}

/// Paths that are also among other paths start with keys with which those
/// start, and leave after a key what those leave.
proof fn lemma_same_paths_one_way(a: Seq<Seq<Seq<char>>>, b: Seq<Seq<Seq<char>>>)
    requires
        forall|x: Seq<Seq<char>>| #[trigger] a.contains(x) ==> b.contains(x),
    ensures
        forall|k: Seq<char>|
            #[trigger] starts_some(a, a.len() as int, k) ==> starts_some(b, b.len() as int, k),
        forall|k: Seq<char>, t: Seq<Seq<char>>|
            #[trigger] is_tail(a, a.len() as int, k, t) ==> is_tail(b, b.len() as int, k, t),
        forall|x: Seq<Seq<char>>| #[trigger] subsumed(a, x) ==> subsumed(b, x),
{
    assert forall|k: Seq<char>| #[trigger] starts_some(a, a.len() as int, k) implies starts_some(
        b,
        b.len() as int,
        k,
    ) by {
        let i = choose|i: int|
            0 <= i < a.len() && (#[trigger] a[i]).len() > 0 && a[i][0] == k;
        assert(a.contains(a[i]));
        let j = choose|j: int| 0 <= j < b.len() && b[j] == a[i];
        assert(b[j].len() > 0 && b[j][0] == k);
    }
    assert forall|k: Seq<char>, t: Seq<Seq<char>>| #[trigger]
        is_tail(a, a.len() as int, k, t) implies is_tail(b, b.len() as int, k, t) by {
        let i = choose|i: int|
            0 <= i < a.len() && (#[trigger] a[i]).len() > 0 && a[i][0] == k && a[i].drop_first()
                == t;
        assert(a.contains(a[i]));
        let j = choose|j: int| 0 <= j < b.len() && b[j] == a[i];
        assert(b[j].len() > 0 && b[j][0] == k && b[j].drop_first() == t);
    }
    assert forall|x: Seq<Seq<char>>| #[trigger] subsumed(a, x) implies subsumed(b, x) by {
        let i = choose|i: int| 0 <= i < a.len() && is_strict_prefix(#[trigger] a[i], x);
        assert(a.contains(a[i]));
        let j = choose|j: int| 0 <= j < b.len() && b[j] == a[i];
        assert(is_strict_prefix(b[j], x));
    }
}

/// Under a key, the same paths select the same entry, in whatever order they
/// are given.
proof fn lemma_project_key_same(
    entries: Seq<(Seq<char>, Canon)>,
    a: Seq<Seq<Seq<char>>>,
    b: Seq<Seq<Seq<char>>>,
    key: Seq<char>,
)
    requires
        same_paths(a, b),
    ensures
        project_key(entries, a, key) == project_key(entries, b, key),
    decreases entries, 0int,
{
    let i = key_index(entries, key);
    if 0 <= i < entries.len() {
        let ta = tails(a, key, a.len() as int);
        let tb = tails(b, key, b.len() as int);
        lemma_tails(a, key, a.len() as int);
        lemma_tails(b, key, b.len() as int);
        lemma_same_paths_one_way(a, b);
        lemma_same_paths_one_way(b, a);
        assert(same_paths(ta, tb)) by {
            assert forall|t: Seq<Seq<char>>|
                #![trigger ta.contains(t)]
                #![trigger tb.contains(t)]
                ta.contains(t) <==> tb.contains(t) by {
                assert(ta.contains(t) <==> is_tail(a, a.len() as int, key, t));
                assert(tb.contains(t) <==> is_tail(b, b.len() as int, key, t));
            }
        }
        assert(has_empty(ta) <==> has_empty(tb)) by {
            if has_empty(ta) {
                let w = choose|w: int| 0 <= w < ta.len() && (#[trigger] ta[w]).len() == 0;
                assert(ta.contains(ta[w]));
                let v = choose|v: int| 0 <= v < tb.len() && tb[v] == ta[w];
                assert(tb[v].len() == 0);
            }
            if has_empty(tb) {
                let w = choose|w: int| 0 <= w < tb.len() && (#[trigger] tb[w]).len() == 0;
                assert(tb.contains(tb[w]));
                let v = choose|v: int| 0 <= v < ta.len() && ta[v] == tb[w];
                assert(ta[v].len() == 0);
            }
        }
        if !has_empty(ta) {
            match entries[i].1 {
                Canon::Mapping(inner) => {
                    lemma_project_same(inner, ta, tb);
                },
                _ => {},
            }
        }
    }
}

/// The same paths select the same MAP, in whatever order they are given.
pub proof fn lemma_project_same(
    entries: Seq<(Seq<char>, Canon)>,
    a: Seq<Seq<Seq<char>>>,
    b: Seq<Seq<Seq<char>>>,
)
    requires
        same_paths(a, b),
    ensures
        project(entries, a) == project(entries, b),
    decreases entries, 1int,
{
    let ka = group_keys(a, a.len() as int);
    let kb = group_keys(b, b.len() as int);
    lemma_group_keys(a, a.len() as int);
    lemma_group_keys(b, b.len() as int);
    lemma_same_paths_one_way(a, b);
    lemma_same_paths_one_way(b, a);
    lemma_project_keys(entries, a, ka, ka.len() as int);
    lemma_project_keys(entries, b, kb, kb.len() as int);
    assert forall|k: Seq<char>|
        #![trigger ka.contains(k)]
        #![trigger kb.contains(k)]
        ka.contains(k) <==> kb.contains(k) by {
        assert(ka.contains(k) <==> starts_some(a, a.len() as int, k));
        assert(kb.contains(k) <==> starts_some(b, b.len() as int, k));
    }
    assert forall|k: Seq<char>| project_key(entries, a, k) == #[trigger] project_key(
        entries,
        b,
        k,
    ) by {
        lemma_project_key_same(entries, a, b, k);
    }
    let pa = project_keys(entries, a, ka, ka.len() as int);
    let pb = project_keys(entries, b, kb, kb.len() as int);
    if pa is Some {
        assert forall|j: int| 0 <= j < kb.len() implies project_key(
            entries,
            b,
            #[trigger] kb[j],
        ) is Some by {
            assert(kb.contains(kb[j]));
            let i = choose|i: int| 0 <= i < ka.len() && ka[i] == kb[j];
            assert(project_key(entries, a, ka[i]) is Some);
        }
    }
    if pb is Some {
        assert forall|i: int| 0 <= i < ka.len() implies project_key(
            entries,
            a,
            #[trigger] ka[i],
        ) is Some by {
            assert(ka.contains(ka[i]));
            let j = choose|j: int| 0 <= j < kb.len() && kb[j] == ka[i];
            assert(project_key(entries, b, kb[j]) is Some);
        }
    }
    if pa is Some {
        let ea = pa->Some_0;
        let eb = pb->Some_0;
        assert forall|x: (Seq<char>, Canon)| ea.contains(x) <==> eb.contains(x) by {
            assert(ea.contains(x) <==> selected(entries, a, ka, ka.len() as int, x));
            assert(eb.contains(x) <==> selected(entries, b, kb, kb.len() as int, x));
            if selected(entries, a, ka, ka.len() as int, x) {
                let i = choose|i: int|
                    0 <= i < ka.len() && project_key(entries, a, #[trigger] ka[i]) == Some(x);
                assert(ka.contains(ka[i]));
                let j = choose|j: int| 0 <= j < kb.len() && kb[j] == ka[i];
                assert(project_key(entries, b, kb[j]) == Some(x));
            }
            if selected(entries, b, kb, kb.len() as int, x) {
                let j = choose|j: int|
                    0 <= j < kb.len() && project_key(entries, b, #[trigger] kb[j]) == Some(x);
                assert(kb.contains(kb[j]));
                let i = choose|i: int| 0 <= i < ka.len() && ka[i] == kb[j];
                assert(project_key(entries, a, ka[i]) == Some(x));
            }
        }
        lemma_ascending_unique(ea, eb);
    }
}

/// Whether `x` is one of the first `n` paths and none of the paths subsumes it.
pub open spec fn is_effective(paths: Seq<Seq<Seq<char>>>, n: int, x: Seq<Seq<char>>) -> bool {
    !subsumed(paths, x) && exists|i: int| 0 <= i < n && #[trigger] paths[i] == x
}

/// The paths that are left when the subsumed ones are taken out.
pub proof fn lemma_effective(paths: Seq<Seq<Seq<char>>>, n: int)
    requires
        0 <= n <= paths.len(),
    ensures
        forall|x: Seq<Seq<char>>|
            #[trigger] effective(paths, n).contains(x) <==> is_effective(paths, n, x),
    decreases n,
{
    let e = effective(paths, n);
    if n > 0 {
        lemma_effective(paths, n - 1);
        let front = effective(paths, n - 1);
        assert forall|x: Seq<Seq<char>>| #[trigger] e.contains(x) <==> is_effective(
            paths,
            n,
            x,
        ) by {
            if is_effective(paths, n, x) {
                let i = choose|i: int| 0 <= i < n && #[trigger] paths[i] == x;
                if i < n - 1 {
                    assert(is_effective(paths, n - 1, x));
                    assert(front.contains(x));
                    let w = choose|w: int| 0 <= w < front.len() && front[w] == x;
                    assert(e[w] == x);
                } else {
                    assert(e[front.len() as int] == x);
                }
            }
            if e.contains(x) {
                let w = choose|w: int| 0 <= w < e.len() && e[w] == x;
                if w < front.len() {
                    assert(front[w] == x);
                    assert(front.contains(x));
                    assert(is_effective(paths, n - 1, x));
                    let i = choose|i: int| 0 <= i < n - 1 && #[trigger] paths[i] == x;
                    assert(paths[i] == x);
                } else {
                    assert(paths[n - 1] == x);
                }
            }
        }
    } else {
        assert forall|x: Seq<Seq<char>>| !(#[trigger] e.contains(x)) by {}
    }
}

/// The same paths leave the same paths when the subsumed ones are taken out.
pub proof fn lemma_effective_same(a: Seq<Seq<Seq<char>>>, b: Seq<Seq<Seq<char>>>)
    requires
        same_paths(a, b),
    ensures
        same_paths(effective(a, a.len() as int), effective(b, b.len() as int)),
{
    lemma_effective(a, a.len() as int);
    lemma_effective(b, b.len() as int);
    lemma_same_paths_one_way(a, b);
    lemma_same_paths_one_way(b, a);
    let ea = effective(a, a.len() as int);
    let eb = effective(b, b.len() as int);
    assert forall|x: Seq<Seq<char>>|
        #![trigger ea.contains(x)]
        #![trigger eb.contains(x)]
        ea.contains(x) <==> eb.contains(x) by {
        assert(ea.contains(x) <==> is_effective(a, a.len() as int, x));
        assert(eb.contains(x) <==> is_effective(b, b.len() as int, x));
        if is_effective(a, a.len() as int, x) {
            let i = choose|i: int| 0 <= i < a.len() && #[trigger] a[i] == x;
            assert(a.contains(x));
            let j = choose|j: int| 0 <= j < b.len() && b[j] == x;
            assert(b[j] == x);
        }
        if is_effective(b, b.len() as int, x) {
            let i = choose|i: int| 0 <= i < b.len() && #[trigger] b[i] == x;
            assert(b.contains(x));
            let j = choose|j: int| 0 <= j < a.len() && a[j] == x;
            assert(a[j] == x);
        }
    }
}

/// Whether no pointer occurs twice.
pub open spec fn distinct_pointers(ptrs: Seq<Seq<char>>) -> bool {
    forall|i: int, j: int| 0 <= i < j < ptrs.len() ==> #[trigger] ptrs[i] != #[trigger] ptrs[j]
}

/// Whether the pointer at place `i` of `p` is among the pointers `q`.
pub open spec fn found_in(p: Seq<Seq<char>>, i: int, q: Seq<Seq<char>>) -> bool {
    exists|j: int| 0 <= j < q.len() && #[trigger] q[j] == p[i]
}

/// What holds of one pointer among some pointers holds of one among any
/// pointers that they are among.
proof fn lemma_bind_one_way(desc: Canon, p: Seq<Seq<char>>, q: Seq<Seq<char>>)
    requires
        forall|x: Seq<char>| #[trigger] p.contains(x) ==> q.contains(x),
    ensures
        (exists|i: int| 0 <= i < p.len() && pointer_tokens(#[trigger] p[i]) is None) ==> (exists|
            j: int,
        |
            0 <= j < q.len() && pointer_tokens(#[trigger] q[j]) is None),
        (exists|i: int| 0 <= i < p.len() && walk(desc, #[trigger] pointer_paths(p)[i]) is ThroughList)
            ==> (exists|j: int|
            0 <= j < q.len() && walk(desc, #[trigger] pointer_paths(q)[j]) is ThroughList),
        (exists|i: int| 0 <= i < p.len() && walk(desc, #[trigger] pointer_paths(p)[i]) is Matched)
            ==> (exists|j: int|
            0 <= j < q.len() && walk(desc, #[trigger] pointer_paths(q)[j]) is Matched),
        (exists|i: int| 0 <= i < p.len() && walk(desc, #[trigger] pointer_paths(p)[i]) is Unmatched)
            ==> (exists|j: int|
            0 <= j < q.len() && walk(desc, #[trigger] pointer_paths(q)[j]) is Unmatched),
        (exists|i: int| 0 <= i < p.len() && (#[trigger] p[i]).len() == 0) ==> (exists|j: int|
            0 <= j < q.len() && (#[trigger] q[j]).len() == 0),
        forall|x: Seq<Seq<char>>|
            #[trigger] pointer_paths(p).contains(x) ==> pointer_paths(q).contains(x),
{
    let a = pointer_paths(p);
    let b = pointer_paths(q);
    assert forall|i: int| 0 <= i < p.len() implies #[trigger] found_in(p, i, q) by {
        assert(p.contains(p[i]));
        let j = choose|j: int| 0 <= j < q.len() && q[j] == p[i];
        assert(q[j] == p[i]);
    }
    if exists|i: int| 0 <= i < p.len() && pointer_tokens(#[trigger] p[i]) is None {
        let i = choose|i: int| 0 <= i < p.len() && pointer_tokens(#[trigger] p[i]) is None;
        assert(found_in(p, i, q));
        let j = choose|j: int| 0 <= j < q.len() && #[trigger] q[j] == p[i];
        assert(b[j] == a[i]);
        assert(pointer_tokens(q[j]) is None);
    }
    if exists|i: int| 0 <= i < p.len() && walk(desc, #[trigger] a[i]) is ThroughList {
        let i = choose|i: int| 0 <= i < p.len() && walk(desc, #[trigger] a[i]) is ThroughList;
        assert(found_in(p, i, q));
        let j = choose|j: int| 0 <= j < q.len() && #[trigger] q[j] == p[i];
        assert(b[j] == a[i]);
        assert(walk(desc, b[j]) is ThroughList);
    }
    if exists|i: int| 0 <= i < p.len() && walk(desc, #[trigger] a[i]) is Matched {
        let i = choose|i: int| 0 <= i < p.len() && walk(desc, #[trigger] a[i]) is Matched;
        assert(found_in(p, i, q));
        let j = choose|j: int| 0 <= j < q.len() && #[trigger] q[j] == p[i];
        assert(b[j] == a[i]);
        assert(walk(desc, b[j]) is Matched);
    }
    if exists|i: int| 0 <= i < p.len() && walk(desc, #[trigger] a[i]) is Unmatched {
        let i = choose|i: int| 0 <= i < p.len() && walk(desc, #[trigger] a[i]) is Unmatched;
        assert(found_in(p, i, q));
        let j = choose|j: int| 0 <= j < q.len() && #[trigger] q[j] == p[i];
        assert(b[j] == a[i]);
        assert(walk(desc, b[j]) is Unmatched);
    }
    if exists|i: int| 0 <= i < p.len() && (#[trigger] p[i]).len() == 0 {
        let i = choose|i: int| 0 <= i < p.len() && (#[trigger] p[i]).len() == 0;
        assert(found_in(p, i, q));
        let j = choose|j: int| 0 <= j < q.len() && #[trigger] q[j] == p[i];
        assert(b[j] == a[i]);
        assert(q[j].len() == 0);
    }
    assert forall|x: Seq<Seq<char>>| #[trigger] a.contains(x) implies b.contains(x) by {
        let i = choose|i: int| 0 <= i < a.len() && a[i] == x;
        assert(found_in(p, i, q));
        let j = choose|j: int| 0 <= j < q.len() && #[trigger] q[j] == p[i];
        assert(b[j] == a[i]);
        assert(b[j] == x);
    }
}

/// The BIND projection depends on the pointers as a set: the same pointers,
/// none of them twice, give the same result in whatever order they are given.
pub proof fn law_pointer_order_irrelevant(desc: Canon, first: Seq<Seq<char>>, second: Seq<Seq<char>>)
    requires
        distinct_pointers(first),
        distinct_pointers(second),
        forall|x: Seq<char>|
            #![trigger first.contains(x)]
            #![trigger second.contains(x)]
            first.contains(x) <==> second.contains(x),
    ensures
        bind(desc, first) == bind(desc, second),
{
    lemma_bind_one_way(desc, first, second);
    lemma_bind_one_way(desc, second, first);
    let a = pointer_paths(first);
    let b = pointer_paths(second);
    assert(same_paths(a, b));
    if desc is Mapping {
        lemma_effective_same(a, b);
        lemma_project_same(
            desc->Mapping_0,
            effective(a, a.len() as int),
            effective(b, b.len() as int),
        );
    }
}

/// What BIND builds from pointers that select something is a MAP whose keys
/// ascend strictly, unless it is the whole descriptor.
pub proof fn law_bind_in_order(desc: Canon, ptrs: Seq<Seq<char>>)
    requires
        bind(desc, ptrs) is Some,
    ensures
        bind(desc, ptrs)->Some_0 == desc || (bind(desc, ptrs)->Some_0 is Mapping
            && strictly_ascending(bind(desc, ptrs)->Some_0->Mapping_0)),
{
    let paths = pointer_paths(ptrs);
    let r = bind(desc, ptrs)->Some_0;
    if r != desc {
        if r == Canon::Mapping(Seq::empty()) {
        } else {
            law_projection_in_order(desc->Mapping_0, effective(paths, paths.len() as int));
        }
    }
}

} // verus!
