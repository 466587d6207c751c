//! Entries of a map in the order of their keys.

use vstd::prelude::*;
use vstd::utf8::encode_utf8;
use crate::encode::{key_lt, key_order, KeyOrder};
use crate::value::{entries_view, Canon, MapValue};

verus! {

/// Whether the key `a` comes strictly before the key `b`: by the octets of
/// their UTF-8 forms, each octet as an unsigned number.
pub open spec fn comes_before(a: Seq<char>, b: Seq<char>) -> bool {
    key_lt(encode_utf8(a), encode_utf8(b))
}

/// The entries `sorted` with `e` put in: behind every entry whose key does not
/// come after the key of `e`.
pub open spec fn insert_sorted(sorted: Seq<(Seq<char>, Canon)>, e: (Seq<char>, Canon)) -> Seq<
    (Seq<char>, Canon),
>
    decreases sorted.len(),
{
    if sorted.len() > 0 && comes_before(e.0, sorted.last().0) {
        insert_sorted(sorted.drop_last(), e).push(sorted.last())
    } else {
        sorted.push(e)
    }
}

/// The entries of `s` in the order of their keys; entries with the same key
/// stay in the order in which `s` has them.
pub open spec fn sort_entries(s: Seq<(Seq<char>, Canon)>) -> Seq<(Seq<char>, Canon)>
    decreases s.len(),
{
    if s.len() == 0 {
        s
    } else {
        insert_sorted(sort_entries(s.drop_last()), s.last())
    }
}

/// Whether the key `a` comes strictly before the key `b`.
pub fn key_before(a: &str, b: &str) -> (r: bool)
    ensures
        r == comes_before(a@, b@),
{
    match key_order(a.as_bytes(), b.as_bytes()) {
        KeyOrder::Less => true,
        _ => false,
    }
}

/// Puts an entry into entries that are in the order of their keys, behind every
/// entry whose key does not come after its key.
pub fn insert_entry(out: &mut Vec<(String, MapValue)>, key: String, val: MapValue)
    ensures
        entries_view(final(out)@) == insert_sorted(entries_view(old(out)@), (key@, val@)),
{
    let ghost ev = entries_view(out@);
    let ghost e = (key@, val@);
    let mut pos: usize = out.len();
    assert(ev.take(pos as int) == ev);
    assert(insert_sorted(ev, e) + ev.skip(pos as int) == insert_sorted(ev, e));
    while pos > 0 && key_before(key.as_str(), out[pos - 1].0.as_str())
        invariant
            pos <= out@.len(),
            out@ == old(out)@,
            ev == entries_view(out@),
            e == (key@, val@),
            insert_sorted(ev, e) == insert_sorted(ev.take(pos as int), e) + ev.skip(pos as int),
        decreases pos,
    {
        proof {
            let front = ev.take(pos as int);
            assert(front.last() == ev[pos - 1]);
            assert(ev[pos - 1].0 == out@[pos - 1].0@);
            assert(front.drop_last() == ev.take(pos - 1));
            assert(insert_sorted(front, e) == insert_sorted(ev.take(pos - 1), e).push(
                ev[pos - 1],
            ));
            assert(insert_sorted(ev.take(pos - 1), e).push(ev[pos - 1]) + ev.skip(pos as int)
                == insert_sorted(ev.take(pos - 1), e) + ev.skip(pos - 1));
        }
        pos -= 1;
    }
    proof {
        let front = ev.take(pos as int);
        if pos > 0 {
            assert(front.last() == ev[pos - 1]);
            assert(ev[pos - 1].0 == out@[pos - 1].0@);
        }
        assert(insert_sorted(front, e) == front.push(e));
    }
    out.insert(pos, (key, val));
    assert(entries_view(out@) =~= ev.take(pos as int).push(e) + ev.skip(pos as int));
}

/// Of two different keys, one comes before the other.
pub proof fn lemma_key_lt_total(a: Seq<u8>, b: Seq<u8>)
    ensures
        a == b || key_lt(a, b) || key_lt(b, a),
    decreases a.len(),
{
    if a.len() > 0 && b.len() > 0 {
        if a[0] == b[0] {
            lemma_key_lt_total(a.drop_first(), b.drop_first());
            if a.drop_first() == b.drop_first() {
                assert(a =~= seq![a[0]] + a.drop_first());
                assert(b =~= seq![b[0]] + b.drop_first());
            }
        }
    } else if a.len() == 0 && b.len() == 0 {
        assert(a =~= b);
    }
}

/// What comes before a key that comes before a third comes before the third.
pub proof fn lemma_key_lt_transitive(a: Seq<u8>, b: Seq<u8>, c: Seq<u8>)
    requires
        key_lt(a, b),
        key_lt(b, c),
    ensures
        key_lt(a, c),
    decreases a.len(),
{
    if a.len() > 0 && b.len() > 0 && c.len() > 0 {
        if a[0] == b[0] && b[0] == c[0] {
            lemma_key_lt_transitive(a.drop_first(), b.drop_first(), c.drop_first());
        }
    }
}

/// `comes_before` is a strict total order of keys.
pub proof fn lemma_comes_before_order(a: Seq<char>, b: Seq<char>, c: Seq<char>)
    ensures
        !comes_before(a, a),
        comes_before(a, b) ==> !comes_before(b, a),
        comes_before(a, b) && comes_before(b, c) ==> comes_before(a, c),
        a == b || comes_before(a, b) || comes_before(b, a),
{
    let x = encode_utf8(a);
    let y = encode_utf8(b);
    let z = encode_utf8(c);
    crate::encode::lemma_key_lt_asymmetric(x, y);
    lemma_key_lt_total(x, y);
    if x == y {
        crate::text::lemma_encode_utf8_injective(a, b);
    }
    if key_lt(x, y) && key_lt(y, z) {
        lemma_key_lt_transitive(x, y, z);
    }
}

/// Whether each entry's key comes strictly before the keys of all entries
/// after it.
pub open spec fn strictly_ascending(s: Seq<(Seq<char>, Canon)>) -> bool {
    forall|i: int, j: int|
        0 <= i < j < s.len() ==> comes_before((#[trigger] s[i]).0, (#[trigger] s[j]).0)
}

/// Whether an entry of `s` has the key `key`.
pub open spec fn has_key(s: Seq<(Seq<char>, Canon)>, key: Seq<char>) -> bool {
    exists|i: int| 0 <= i < s.len() && (#[trigger] s[i]).0 == key
}

/// The place at which `insert_sorted` puts an entry.
pub open spec fn insert_place(sorted: Seq<(Seq<char>, Canon)>, e: (Seq<char>, Canon)) -> int
    decreases sorted.len(),
{
    if sorted.len() > 0 && comes_before(e.0, sorted.last().0) {
        insert_place(sorted.drop_last(), e)
    } else {
        sorted.len() as int
    }
}

/// `insert_sorted` puts the entry at `insert_place` and moves nothing else:
/// the entries behind that place have keys that come after its key, and the
/// entry before that place has not.
pub proof fn lemma_insert_sorted_shape(sorted: Seq<(Seq<char>, Canon)>, e: (Seq<char>, Canon))
    ensures
        0 <= insert_place(sorted, e) <= sorted.len(),
        insert_sorted(sorted, e) == sorted.take(insert_place(sorted, e)).push(e) + sorted.skip(
            insert_place(sorted, e),
        ),
        forall|j: int|
            insert_place(sorted, e) <= j < sorted.len() ==> comes_before(
                e.0,
                (#[trigger] sorted[j]).0,
            ),
        insert_place(sorted, e) > 0 ==> !comes_before(e.0, sorted[insert_place(sorted, e) - 1].0),
    decreases sorted.len(),
{
    let p = insert_place(sorted, e);
    if sorted.len() > 0 && comes_before(e.0, sorted.last().0) {
        let front = sorted.drop_last();
        lemma_insert_sorted_shape(front, e);
        assert(front.take(p) == sorted.take(p));
        assert(front.skip(p).push(sorted.last()) == sorted.skip(p));
        assert(insert_sorted(sorted, e) == (front.take(p).push(e) + front.skip(p)).push(
            sorted.last(),
        ));
        assert((sorted.take(p).push(e) + front.skip(p)).push(sorted.last()) == sorted.take(
            p,
        ).push(e) + front.skip(p).push(sorted.last()));
        assert forall|j: int| p <= j < sorted.len() implies comes_before(
            e.0,
            (#[trigger] sorted[j]).0,
        ) by {
            if j < front.len() {
                assert(front[j] == sorted[j]);
            }
        }
        if p > 0 {
            assert(front[p - 1] == sorted[p - 1]);
        }
    } else {
        assert(sorted.take(p) == sorted);
        assert(sorted.push(e) + sorted.skip(p) == sorted.push(e));
    }
}

/// An entry is in what `insert_sorted` gives where it is the entry put in or
/// was there before.
pub proof fn lemma_insert_sorted_contains(
    sorted: Seq<(Seq<char>, Canon)>,
    e: (Seq<char>, Canon),
    x: (Seq<char>, Canon),
)
    ensures
        insert_sorted(sorted, e).contains(x) <==> (x == e || sorted.contains(x)),
        insert_sorted(sorted, e).len() == sorted.len() + 1,
{
    lemma_insert_sorted_shape(sorted, e);
    let p = insert_place(sorted, e);
    let r = insert_sorted(sorted, e);
    assert(r.len() == sorted.len() + 1);
    assert(r[p] == e);
    assert forall|i: int| 0 <= i < sorted.len() implies r.contains(#[trigger] sorted[i]) by {
        if i < p {
            assert(r[i] == sorted[i]);
        } else {
            assert(r[i + 1] == sorted[i]);
        }
    }
    if r.contains(x) {
        let i = choose|i: int| 0 <= i < r.len() && r[i] == x;
        if i < p {
            assert(sorted[i] == x);
        } else if i > p {
            assert(sorted[i - 1] == x);
        }
    }
    if sorted.contains(x) {
        let i = choose|i: int| 0 <= i < sorted.len() && sorted[i] == x;
        assert(r.contains(sorted[i]));
    }
}

/// Entries whose keys ascend strictly still do so after `insert_sorted` has
/// put in an entry with a key that none of them has.
pub proof fn lemma_insert_sorted_ascending(sorted: Seq<(Seq<char>, Canon)>, e: (Seq<char>, Canon))
    requires
        strictly_ascending(sorted),
        !has_key(sorted, e.0),
    ensures
        strictly_ascending(insert_sorted(sorted, e)),
{
    lemma_insert_sorted_shape(sorted, e);
    let p = insert_place(sorted, e);
    let r = insert_sorted(sorted, e);
    assert forall|i: int, j: int| 0 <= i < j < r.len() implies comes_before(
        (#[trigger] r[i]).0,
        (#[trigger] r[j]).0,
    ) by {
        if j < p {
            assert(r[i] == sorted[i] && r[j] == sorted[j]);
        } else if j == p {
            // r[i] is an entry before place p; r[j] is e
            assert(r[i] == sorted[i]);
            assert(sorted[i].0 != e.0);
            lemma_comes_before_order(e.0, sorted[p - 1].0, sorted[i].0);
            lemma_comes_before_order(sorted[i].0, sorted[p - 1].0, e.0);
            lemma_comes_before_order(sorted[p - 1].0, e.0, e.0);
            assert(sorted[p - 1].0 != e.0);
            if i < p - 1 {
                assert(comes_before(sorted[i].0, sorted[p - 1].0));
            }
        } else if i == p {
            assert(r[j] == sorted[j - 1]);
        } else if i > p {
            assert(r[i] == sorted[i - 1] && r[j] == sorted[j - 1]);
        } else {
            // i < p < j
            assert(r[i] == sorted[i] && r[j] == sorted[j - 1]);
        }
    }
}

/// Two sequences of entries whose keys ascend strictly, and which hold the
/// same entries, are the same sequence.
pub proof fn lemma_ascending_unique(a: Seq<(Seq<char>, Canon)>, b: Seq<(Seq<char>, Canon)>)
    requires
        strictly_ascending(a),
        strictly_ascending(b),
        forall|x: (Seq<char>, Canon)| a.contains(x) <==> b.contains(x),
    ensures
        a == b,
    decreases a.len(),
{
    if a.len() == 0 {
        if b.len() > 0 {
            assert(b.contains(b[0]));
        }
        assert(a =~= b);
    } else {
        let la = a.last();
        assert(a.contains(la));
        assert(b.contains(la));
        assert(b.len() > 0);
        let lb = b.last();
        assert(b.contains(lb));
        assert(a.contains(lb));
        let i = choose|i: int| 0 <= i < a.len() && a[i] == lb;
        let j = choose|j: int| 0 <= j < b.len() && b[j] == la;
        lemma_comes_before_order(la.0, lb.0, la.0);
        if i < a.len() - 1 {
            assert(comes_before(a[i].0, a[a.len() - 1].0));
        }
        if j < b.len() - 1 {
            assert(comes_before(b[j].0, b[b.len() - 1].0));
        }
        assert(i == a.len() - 1 && j == b.len() - 1);
        assert(la == lb);
        let fa = a.drop_last();
        let fb = b.drop_last();
        assert forall|x: (Seq<char>, Canon)| fa.contains(x) <==> fb.contains(x) by {
            if fa.contains(x) {
                let k = choose|k: int| 0 <= k < fa.len() && fa[k] == x;
                assert(a[k] == x);
                assert(a.contains(x));
                let m = choose|m: int| 0 <= m < b.len() && b[m] == x;
                assert(comes_before(a[k].0, a[a.len() - 1].0));
                lemma_comes_before_order(x.0, la.0, x.0);
                assert(m < b.len() - 1);
                assert(fb[m] == x);
            }
            if fb.contains(x) {
                let k = choose|k: int| 0 <= k < fb.len() && fb[k] == x;
                assert(b[k] == x);
                assert(b.contains(x));
                let m = choose|m: int| 0 <= m < a.len() && a[m] == x;
                assert(comes_before(b[k].0, b[b.len() - 1].0));
                lemma_comes_before_order(x.0, lb.0, x.0);
                assert(m < a.len() - 1);
                assert(fa[m] == x);
            }
        }
        assert forall|i: int, j: int| 0 <= i < j < fa.len() implies comes_before(
            (#[trigger] fa[i]).0,
            (#[trigger] fa[j]).0,
        ) by {
            assert(fa[i] == a[i] && fa[j] == a[j]);
        }
        assert forall|i: int, j: int| 0 <= i < j < fb.len() implies comes_before(
            (#[trigger] fb[i]).0,
            (#[trigger] fb[j]).0,
        ) by {
            assert(fb[i] == b[i] && fb[j] == b[j]);
        }
        lemma_ascending_unique(fa, fb);
        assert(a =~= fa.push(la));
        assert(b =~= fb.push(lb));
    }
}

} // verus!
