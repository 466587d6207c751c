//! A value can be read off its encoding: no two values have the same octets.

use vstd::prelude::*;
use vstd::utf8::encode_utf8;
use crate::encode::{
    encode_entries, encode_items, encode_string, encode_value, i64_be, twos_complement, u32_be,
};
use crate::laws::{lemma_encoding_starts_with_tag, tag_of};
use crate::mid::canonical_bytes;
use crate::roundtrip::lemma_u32_be_read;
use crate::text::lemma_encode_utf8_injective;
use crate::value::Canon;

verus! {

/// Two integers with the same eight octets are the same integer.
pub proof fn lemma_i64_be_injective(i: i64, j: i64)
    requires
        i64_be(i) == i64_be(j),
    ensures
        i == j,
{
    let u = twos_complement(i) as u64;
    let v = twos_complement(j) as u64;
    let a = i64_be(i);
    let b = i64_be(j);
    assert(a[0] == b[0] && a[1] == b[1] && a[2] == b[2] && a[3] == b[3] && a[4] == b[4] && a[5]
        == b[5] && a[6] == b[6] && a[7] == b[7]);
    assert(u == twos_complement(i));
    assert(v == twos_complement(j));
    assert((u / 0x100_0000_0000_0000) % 256 == (v / 0x100_0000_0000_0000) % 256);
    assert((u / 0x1_0000_0000_0000) % 256 == (v / 0x1_0000_0000_0000) % 256);
    assert((u / 0x100_0000_0000) % 256 == (v / 0x100_0000_0000) % 256);
    assert((u / 0x1_0000_0000) % 256 == (v / 0x1_0000_0000) % 256);
    assert((u / 0x100_0000) % 256 == (v / 0x100_0000) % 256);
    assert((u / 0x1_0000) % 256 == (v / 0x1_0000) % 256);
    assert((u / 0x100) % 256 == (v / 0x100) % 256);
    assert(u % 256 == v % 256);
    lemma_eight_octets(u, v);
}

/// Two numbers of 64 bits that agree in each of their eight octets are the
/// same number.
proof fn lemma_eight_octets(u: u64, v: u64)
    by (bit_vector)
    requires
        (u / 0x100_0000_0000_0000) % 256 == (v / 0x100_0000_0000_0000) % 256,
        (u / 0x1_0000_0000_0000) % 256 == (v / 0x1_0000_0000_0000) % 256,
        (u / 0x100_0000_0000) % 256 == (v / 0x100_0000_0000) % 256,
        (u / 0x1_0000_0000) % 256 == (v / 0x1_0000_0000) % 256,
        (u / 0x100_0000) % 256 == (v / 0x100_0000) % 256,
        (u / 0x1_0000) % 256 == (v / 0x1_0000) % 256,
        (u / 0x100) % 256 == (v / 0x100) % 256,
        u % 256 == v % 256,
    ensures
        u == v,
{
}

/// Where a length below 2^32 and octets after it stand at the start of two
/// equal sequences, the lengths are the same.
proof fn lemma_same_length(n1: int, r1: Seq<u8>, n2: int, r2: Seq<u8>)
    requires
        0 <= n1 <= u32::MAX,
        0 <= n2 <= u32::MAX,
        u32_be(n1) + r1 == u32_be(n2) + r2,
    ensures
        n1 == n2,
        r1 == r2,
{
    let whole = u32_be(n1) + r1;
    assert(whole.subrange(0, 4) =~= u32_be(n1));
    assert(whole.subrange(0, 4) =~= u32_be(n2));
    lemma_u32_be_read(whole, 0, n1);
    lemma_u32_be_read(whole, 0, n2);
    assert(r1 =~= whole.subrange(4, whole.len() as int));
    assert(r2 =~= whole.subrange(4, whole.len() as int));
}

/// Where two sequences are equal and start with the same octets, what follows
/// is equal too.
proof fn lemma_cancel(head: Seq<u8>, r1: Seq<u8>, r2: Seq<u8>)
    requires
        head + r1 == head + r2,
    ensures
        r1 == r2,
{
    assert(r1 =~= (head + r1).subrange(head.len() as int, (head + r1).len() as int));
    assert(r2 =~= (head + r2).subrange(head.len() as int, (head + r2).len() as int));
}

/// Where payloads of equal length stand at the start of two equal sequences,
/// the payloads are the same and so is what follows them.
proof fn lemma_split(left: Seq<u8>, r1: Seq<u8>, right: Seq<u8>, r2: Seq<u8>)
    requires
        left.len() == right.len(),
        left + r1 == right + r2,
    ensures
        left == right,
        r1 == r2,
{
    let whole = left + r1;
    assert(left =~= whole.subrange(0, left.len() as int));
    assert(right =~= whole.subrange(0, left.len() as int));
    lemma_cancel(left, r1, r2);
}

/// Two strings whose encodings as STRING start two equal sequences are the
/// same string, and what follows the encodings is the same.
pub proof fn lemma_string_unique(s1: Seq<char>, r1: Seq<u8>, s2: Seq<char>, r2: Seq<u8>)
    requires
        encode_string(s1) is Ok,
        encode_string(s2) is Ok,
        encode_string(s1)->Ok_0 + r1 == encode_string(s2)->Ok_0 + r2,
    ensures
        s1 == s2,
        r1 == r2,
{
    let left = encode_utf8(s1);
    let right = encode_utf8(s2);
    let tag = seq![crate::constants::TAG_STRING];
    assert(encode_string(s1)->Ok_0 + r1 =~= tag + (u32_be(left.len() as int) + (left + r1)));
    assert(encode_string(s2)->Ok_0 + r2 =~= tag + (u32_be(right.len() as int) + (right + r2)));
    lemma_cancel(tag, u32_be(left.len() as int) + (left + r1), u32_be(right.len() as int) + (right + r2));
    lemma_same_length(left.len() as int, left + r1, right.len() as int, right + r2);
    lemma_split(left, r1, right, r2);
    lemma_encode_utf8_injective(s1, s2);
}

/// Two BOOLEAN or INTEGER values whose encodings start two equal sequences are
/// the same value, and what follows the encodings is the same.
proof fn lemma_fixed_unique(a: Canon, da: nat, ra: Seq<u8>, b: Canon, db: nat, rb: Seq<u8>)
    requires
        a is Boolean && b is Boolean || a is Integer && b is Integer,
        encode_value(a, da)->Ok_0 + ra == encode_value(b, db)->Ok_0 + rb,
    ensures
        a == b,
        ra == rb,
{
    let x = encode_value(a, da)->Ok_0;
    let y = encode_value(b, db)->Ok_0;
    if a is Boolean {
        assert((x + ra)[1] == x[1]);
        assert((y + rb)[1] == y[1]);
        assert(x =~= y);
        lemma_cancel(x, ra, rb);
    } else {
        let i = a->Integer_0;
        let j = b->Integer_0;
        let tag = seq![crate::constants::TAG_INTEGER];
        assert(x + ra =~= tag + (i64_be(i) + ra));
        assert(y + rb =~= tag + (i64_be(j) + rb));
        lemma_cancel(tag, i64_be(i) + ra, i64_be(j) + rb);
        lemma_split(i64_be(i), ra, i64_be(j), rb);
        lemma_i64_be_injective(i, j);
    }
}

/// Two BYTES values whose encodings start two equal sequences are the same
/// value, and what follows the encodings is the same.
proof fn lemma_bytes_unique(left: Seq<u8>, ra: Seq<u8>, right: Seq<u8>, rb: Seq<u8>)
    requires
        left.len() <= u32::MAX,
        right.len() <= u32::MAX,
        seq![crate::constants::TAG_BYTES] + u32_be(left.len() as int) + left + ra == seq![
            crate::constants::TAG_BYTES,
        ] + u32_be(right.len() as int) + right + rb,
    ensures
        left == right,
        ra == rb,
{
    let tag = seq![crate::constants::TAG_BYTES];
    assert(tag + u32_be(left.len() as int) + left + ra =~= tag + (u32_be(left.len() as int) + (left
        + ra)));
    assert(tag + u32_be(right.len() as int) + right + rb =~= tag + (u32_be(right.len() as int) + (right
        + rb)));
    lemma_cancel(tag, u32_be(left.len() as int) + (left + ra), u32_be(right.len() as int) + (right + rb));
    lemma_same_length(left.len() as int, left + ra, right.len() as int, right + rb);
    lemma_split(left, ra, right, rb);
}

/// Where a tag, a count below 2^32 and octets after them make up two equal
/// sequences, the counts are the same and so are the octets after them.
proof fn lemma_same_count(tag: u8, n1: int, r1: Seq<u8>, n2: int, r2: Seq<u8>)
    requires
        0 <= n1 <= u32::MAX,
        0 <= n2 <= u32::MAX,
        seq![tag] + u32_be(n1) + r1 == seq![tag] + u32_be(n2) + r2,
    ensures
        n1 == n2,
        r1 == r2,
{
    let t = seq![tag];
    assert(t + u32_be(n1) + r1 =~= t + (u32_be(n1) + r1));
    assert(t + u32_be(n2) + r2 =~= t + (u32_be(n2) + r2));
    lemma_cancel(t, u32_be(n1) + r1, u32_be(n2) + r2);
    lemma_same_length(n1, r1, n2, r2);
}

/// Two values whose encodings start two equal sequences are the same value,
/// and what follows the encodings is the same. The depths at which the values
/// were encoded play no part.
pub proof fn lemma_value_unique(
    a: Canon,
    da: nat,
    ra: Seq<u8>,
    b: Canon,
    db: nat,
    rb: Seq<u8>,
)
    requires
        encode_value(a, da) is Ok,
        encode_value(b, db) is Ok,
        encode_value(a, da)->Ok_0 + ra == encode_value(b, db)->Ok_0 + rb,
    ensures
        a == b,
        ra == rb,
    decreases a, 0int,
{
    let x = encode_value(a, da)->Ok_0;
    let y = encode_value(b, db)->Ok_0;
    lemma_encoding_starts_with_tag(a, da);
    lemma_encoding_starts_with_tag(b, db);
    assert((x + ra)[0] == x[0]);
    assert((y + rb)[0] == y[0]);
    assert(tag_of(a) == tag_of(b));
    match a {
        Canon::Boolean(_) => {
            lemma_fixed_unique(a, da, ra, b, db, rb);
        },
        Canon::Integer(_) => {
            lemma_fixed_unique(a, da, ra, b, db, rb);
        },
        Canon::String(s) => {
            lemma_string_unique(s, ra, b->String_0, rb);
        },
        Canon::Bytes(left) => {
            lemma_bytes_unique(left, ra, b->Bytes_0, rb);
        },
        Canon::List(items1) => {
            let items2 = b->List_0;
            let n1 = items1.len() as int;
            let n2 = items2.len() as int;
            let e1 = encode_items(items1, n1, da + 1)->Ok_0;
            let e2 = encode_items(items2, n2, db + 1)->Ok_0;
            let tag = crate::constants::TAG_LIST;
            assert(x + ra =~= seq![tag] + u32_be(n1) + (e1 + ra));
            assert(y + rb =~= seq![tag] + u32_be(n2) + (e2 + rb));
            lemma_same_count(tag, n1, e1 + ra, n2, e2 + rb);
            lemma_items_unique(items1, da + 1, ra, items2, db + 1, rb, n1);
            assert(items1 =~= items2);
        },
        Canon::Mapping(entries1) => {
            let entries2 = b->Mapping_0;
            let n1 = entries1.len() as int;
            let n2 = entries2.len() as int;
            let e1 = encode_entries(entries1, n1, da + 1)->Ok_0;
            let e2 = encode_entries(entries2, n2, db + 1)->Ok_0;
            let tag = crate::constants::TAG_MAP;
            assert(x + ra =~= seq![tag] + u32_be(n1) + (e1 + ra));
            assert(y + rb =~= seq![tag] + u32_be(n2) + (e2 + rb));
            lemma_same_count(tag, n1, e1 + ra, n2, e2 + rb);
            lemma_entries_unique(entries1, da + 1, ra, entries2, db + 1, rb, n1);
            assert(entries1 =~= entries2);
        },
    }
}

/// Two lists whose first `n` values have encodings that start two equal
/// sequences have the same first `n` values, and what follows the encodings is
/// the same.
pub proof fn lemma_items_unique(
    a: Seq<Canon>,
    da: nat,
    ra: Seq<u8>,
    b: Seq<Canon>,
    db: nat,
    rb: Seq<u8>,
    n: int,
)
    requires
        0 <= n <= a.len(),
        n <= b.len(),
        encode_items(a, n, da) is Ok,
        encode_items(b, n, db) is Ok,
        encode_items(a, n, da)->Ok_0 + ra == encode_items(b, n, db)->Ok_0 + rb,
    ensures
        forall|i: int| 0 <= i < n ==> a[i] == b[i],
        ra == rb,
    decreases a, n,
{
    if n > 0 {
        let fa = encode_items(a, n - 1, da)->Ok_0;
        let fb = encode_items(b, n - 1, db)->Ok_0;
        let la = encode_value(a[n - 1], da)->Ok_0;
        let lb = encode_value(b[n - 1], db)->Ok_0;
        assert((fa + la) + ra =~= fa + (la + ra));
        assert((fb + lb) + rb =~= fb + (lb + rb));
        lemma_items_unique(a, da, la + ra, b, db, lb + rb, n - 1);
        lemma_value_unique(a[n - 1], da, ra, b[n - 1], db, rb);
    } else {
        assert(encode_items(a, n, da)->Ok_0 + ra =~= ra);
        assert(encode_items(b, n, db)->Ok_0 + rb =~= rb);
    }
}

/// Two maps whose first `n` entries have encodings that start two equal
/// sequences have the same first `n` entries, and what follows the encodings
/// is the same.
pub proof fn lemma_entries_unique(
    a: Seq<(Seq<char>, Canon)>,
    da: nat,
    ra: Seq<u8>,
    b: Seq<(Seq<char>, Canon)>,
    db: nat,
    rb: Seq<u8>,
    n: int,
)
    requires
        0 <= n <= a.len(),
        n <= b.len(),
        encode_entries(a, n, da) is Ok,
        encode_entries(b, n, db) is Ok,
        encode_entries(a, n, da)->Ok_0 + ra == encode_entries(b, n, db)->Ok_0 + rb,
    ensures
        forall|i: int| 0 <= i < n ==> a[i] == b[i],
        ra == rb,
    decreases a, n,
{
    if n > 0 {
        let fa = encode_entries(a, n - 1, da)->Ok_0;
        let fb = encode_entries(b, n - 1, db)->Ok_0;
        let ka = encode_string(a[n - 1].0)->Ok_0;
        let kb = encode_string(b[n - 1].0)->Ok_0;
        let va = encode_value(a[n - 1].1, da)->Ok_0;
        let vb = encode_value(b[n - 1].1, db)->Ok_0;
        assert((fa + ka + va) + ra =~= fa + (ka + (va + ra)));
        assert((fb + kb + vb) + rb =~= fb + (kb + (vb + rb)));
        lemma_entries_unique(a, da, ka + (va + ra), b, db, kb + (vb + rb), n - 1);
        lemma_string_unique(a[n - 1].0, va + ra, b[n - 1].0, vb + rb);
        lemma_value_unique(a[n - 1].1, da, ra, b[n - 1].1, db, rb);
    } else {
        assert(encode_entries(a, n, da)->Ok_0 + ra =~= ra);
        assert(encode_entries(b, n, db)->Ok_0 + rb =~= rb);
    }
}

/// Different values have different canonical bytes.
pub proof fn law_canonical_bytes_injective(a: Canon, b: Canon)
    requires
        canonical_bytes(a) is Ok,
        canonical_bytes(a) == canonical_bytes(b),
    ensures
        a == b,
{
    let x = encode_value(a, 0)->Ok_0;
    let y = encode_value(b, 0)->Ok_0;
    lemma_cancel(crate::constants::canon_hdr(), x, y);
    assert(x + Seq::<u8>::empty() =~= x);
    assert(y + Seq::<u8>::empty() =~= y);
    lemma_value_unique(a, 0, Seq::empty(), b, 0, Seq::empty());
}

} // verus!
