//! What the validating decoder accepts is the encoding of a value: the value
//! can be read off the octets, and encoding it gives the same octets.

use vstd::prelude::*;
use vstd::utf8::{decode_utf8, decode_utf8_encode_utf8, encode_utf8};
use crate::constants::{
    MAX_DEPTH, TAG_BOOLEAN, TAG_BYTES, TAG_INTEGER, TAG_LIST, TAG_MAP, TAG_STRING,
};
use crate::decode::{
    decode_entries, decode_entry, decode_items, decode_payload, decode_value, read_u32,
};
use crate::encode::{
    encode_entries, encode_items, encode_string, encode_value, i64_be, key_fault,
    twos_complement, u32_be,
};
use crate::value::Canon;

verus! {

/// The integer whose eight octets in two's complement stand at `off`.
pub open spec fn integer_at(buf: Seq<u8>, off: int) -> i64 {
    let u = buf[off] * 0x100_0000_0000_0000 + buf[off + 1] * 0x1_0000_0000_0000 + buf[off + 2]
        * 0x100_0000_0000 + buf[off + 3] * 0x1_0000_0000 + buf[off + 4] * 0x100_0000 + buf[off
        + 5] * 0x1_0000 + buf[off + 6] * 0x100 + buf[off + 7];
    if u >= 0x8000_0000_0000_0000 {
        (u - 0x1_0000_0000_0000_0000) as i64
    } else {
        u as i64
    }
}

/// The value whose encoding starts at `off`, where the decoder accepts one
/// there.
pub open spec fn decoded(buf: Seq<u8>, off: int, depth: nat) -> Canon
    decreases MAX_DEPTH + 1 - depth, 0int, 0int,
{
    if off < 0 || off >= buf.len() {
        Canon::Boolean(false)
    } else if buf[off] == TAG_STRING {
        Canon::String(
            decode_utf8(buf.subrange(off + 5, off + 5 + read_u32(buf, off + 1)->Some_0)),
        )
    } else if buf[off] == TAG_BYTES {
        Canon::Bytes(buf.subrange(off + 5, off + 5 + read_u32(buf, off + 1)->Some_0))
    } else if buf[off] == TAG_LIST {
        if depth + 1 > MAX_DEPTH {
            Canon::Boolean(false)
        } else {
            Canon::List(decoded_items(buf, off + 5, depth + 1, read_u32(buf, off + 1)->Some_0))
        }
    } else if buf[off] == TAG_MAP {
        if depth + 1 > MAX_DEPTH {
            Canon::Boolean(false)
        } else {
            Canon::Mapping(
                decoded_entries(buf, off + 5, depth + 1, read_u32(buf, off + 1)->Some_0),
            )
        }
    } else if buf[off] == TAG_BOOLEAN {
        Canon::Boolean(buf[off + 1] == 1)
    } else {
        Canon::Integer(integer_at(buf, off + 1))
    }
}

/// The `n` values whose encodings follow one another from `off`.
pub open spec fn decoded_items(buf: Seq<u8>, off: int, depth: nat, n: int) -> Seq<Canon>
    decreases MAX_DEPTH + 1 - depth, 2int, n,
{
    if n <= 0 {
        Seq::empty()
    } else {
        decoded_items(buf, off, depth, n - 1).push(
            decoded(buf, decode_items(buf, off, depth, n - 1)->Ok_0, depth),
        )
    }
}

/// The `n` entries whose encodings follow one another from `off`.
pub open spec fn decoded_entries(buf: Seq<u8>, off: int, depth: nat, n: int) -> Seq<
    (Seq<char>, Canon),
>
    decreases MAX_DEPTH + 1 - depth, 2int, n,
{
    if n <= 0 {
        Seq::empty()
    } else {
        let at = decode_entries(buf, off, depth, n - 1)->Ok_0.0;
        let key_end = decode_payload(buf, at + 1, true)->Ok_0;
        decoded_entries(buf, off, depth, n - 1).push(
            (decode_utf8(buf.subrange(at + 5, key_end)), decoded(buf, key_end, depth)),
        )
    }
}

/// The four octets from which a number is read are the four octets of that
/// number.
pub proof fn lemma_read_is_u32_be(buf: Seq<u8>, off: int)
    requires
        read_u32(buf, off) is Some,
    ensures
        0 <= read_u32(buf, off)->Some_0 <= u32::MAX,
        buf.subrange(off, off + 4) == u32_be(read_u32(buf, off)->Some_0),
{
    let n = read_u32(buf, off)->Some_0;
    let b0 = buf[off] as int;
    let b1 = buf[off + 1] as int;
    let b2 = buf[off + 2] as int;
    let b3 = buf[off + 3] as int;
    assert(n == b0 * 0x100_0000 + b1 * 0x1_0000 + b2 * 0x100 + b3);
    assert(n / 0x100_0000 == b0);
    assert((n / 0x1_0000) % 256 == b1);
    assert((n / 0x100) % 256 == b2);
    assert(n % 256 == b3);
    assert(buf.subrange(off, off + 4) =~= u32_be(n));
}

/// The octets of a number of 64 bits that is put together from eight octets
/// are those octets.
proof fn lemma_eight_octets_back(
    u: u64,
    b0: u8,
    b1: u8,
    b2: u8,
    b3: u8,
    b4: u8,
    b5: u8,
    b6: u8,
    b7: u8,
)
    by (bit_vector)
    requires
        u == (b0 as u64) * 0x100_0000_0000_0000 + (b1 as u64) * 0x1_0000_0000_0000 + (b2 as u64)
            * 0x100_0000_0000 + (b3 as u64) * 0x1_0000_0000 + (b4 as u64) * 0x100_0000 + (
        b5 as u64) * 0x1_0000 + (b6 as u64) * 0x100 + (b7 as u64),
    ensures
        (u / 0x100_0000_0000_0000) % 256 == b0 as u64,
        (u / 0x1_0000_0000_0000) % 256 == b1 as u64,
        (u / 0x100_0000_0000) % 256 == b2 as u64,
        (u / 0x1_0000_0000) % 256 == b3 as u64,
        (u / 0x100_0000) % 256 == b4 as u64,
        (u / 0x1_0000) % 256 == b5 as u64,
        (u / 0x100) % 256 == b6 as u64,
        u % 256 == b7 as u64,
{
}

/// The eight octets from which an integer is read are the eight octets of
/// that integer.
pub proof fn lemma_integer_at(buf: Seq<u8>, off: int)
    requires
        0 <= off,
        off + 8 <= buf.len(),
    ensures
        i64_be(integer_at(buf, off)) == buf.subrange(off, off + 8),
{
    let b0 = buf[off];
    let b1 = buf[off + 1];
    let b2 = buf[off + 2];
    let b3 = buf[off + 3];
    let b4 = buf[off + 4];
    let b5 = buf[off + 5];
    let b6 = buf[off + 6];
    let b7 = buf[off + 7];
    let sum: int = b0 * 0x100_0000_0000_0000 + b1 * 0x1_0000_0000_0000 + b2 * 0x100_0000_0000
        + b3 * 0x1_0000_0000 + b4 * 0x100_0000 + b5 * 0x1_0000 + b6 * 0x100 + b7;
    assert(0 <= sum < 0x1_0000_0000_0000_0000);
    let u = sum as u64;
    assert(sum == twos_complement(integer_at(buf, off)));
    lemma_eight_octets_back(u, b0, b1, b2, b3, b4, b5, b6, b7);
    let e = i64_be(integer_at(buf, off));
    assert(e[0] == b0);
    assert(e[1] == b1);
    assert(e[2] == b2);
    assert(e[3] == b3);
    assert(e[4] == b4);
    assert(e[5] == b5);
    assert(e[6] == b6);
    assert(e[7] == b7);
    assert(e =~= buf.subrange(off, off + 8));
}

/// The encoding of the first `n` values of a list depends on those values only.
pub proof fn lemma_encode_items_agree(a: Seq<Canon>, b: Seq<Canon>, n: int, depth: nat)
    requires
        0 <= n <= a.len(),
        n <= b.len(),
        forall|i: int| 0 <= i < n ==> a[i] == b[i],
    ensures
        encode_items(a, n, depth) == encode_items(b, n, depth),
    decreases n,
{
    if n > 0 {
        lemma_encode_items_agree(a, b, n - 1, depth);
    }
}

/// The encoding of the first `n` entries of a map, and the order of their
/// keys, depend on those entries only.
pub proof fn lemma_encode_entries_agree(
    a: Seq<(Seq<char>, Canon)>,
    b: Seq<(Seq<char>, Canon)>,
    n: int,
    depth: nat,
)
    requires
        0 <= n <= a.len(),
        n <= b.len(),
        forall|i: int| 0 <= i < n ==> a[i] == b[i],
    ensures
        encode_entries(a, n, depth) == encode_entries(b, n, depth),
        key_fault(a, n) == key_fault(b, n),
    decreases n,
{
    if n > 0 {
        lemma_encode_entries_agree(a, b, n - 1, depth);
    }
}

/// A STRING that the decoder accepts is the encoding of the text that its
/// payload holds.
pub proof fn lemma_decoded_string(buf: Seq<u8>, off: int)
    requires
        0 <= off < buf.len(),
        buf[off] == TAG_STRING,
        decode_payload(buf, off + 1, true) is Ok,
    ensures
        off + 5 <= decode_payload(buf, off + 1, true)->Ok_0 <= buf.len(),
        encode_utf8(decode_utf8(buf.subrange(off + 5, decode_payload(buf, off + 1, true)->Ok_0)))
            == buf.subrange(off + 5, decode_payload(buf, off + 1, true)->Ok_0),
        encode_string(
            decode_utf8(buf.subrange(off + 5, decode_payload(buf, off + 1, true)->Ok_0)),
        ) == Ok::<Seq<u8>, &'static str>(
            buf.subrange(off, decode_payload(buf, off + 1, true)->Ok_0),
        ),
{
    let end = decode_payload(buf, off + 1, true)->Ok_0;
    let raw = buf.subrange(off + 5, end);
    lemma_read_is_u32_be(buf, off + 1);
    decode_utf8_encode_utf8(raw);
    assert(buf.subrange(off, end) =~= seq![TAG_STRING] + buf.subrange(off + 1, off + 5) + raw);
}

/// What the decoder accepts at `off` is the encoding of the value read off
/// there, and ends within the buffer.
pub proof fn lemma_decoded_value(buf: Seq<u8>, off: int, depth: nat)
    requires
        decode_value(buf, off, depth) is Ok,
    ensures
        0 <= off < decode_value(buf, off, depth)->Ok_0 <= buf.len(),
        encode_value(decoded(buf, off, depth), depth) == Ok::<Seq<u8>, &'static str>(
            buf.subrange(off, decode_value(buf, off, depth)->Ok_0),
        ),
    decreases MAX_DEPTH + 1 - depth, 0int, 0int,
{
    let end = decode_value(buf, off, depth)->Ok_0;
    let tag = buf[off];
    if tag == TAG_STRING {
        lemma_decoded_string(buf, off);
    } else if tag == TAG_BYTES {
        let raw = buf.subrange(off + 5, end);
        lemma_read_is_u32_be(buf, off + 1);
        assert(buf.subrange(off, end) =~= seq![TAG_BYTES] + buf.subrange(off + 1, off + 5) + raw);
    } else if tag == TAG_LIST {
        let count = read_u32(buf, off + 1)->Some_0;
        lemma_read_is_u32_be(buf, off + 1);
        lemma_decoded_items(buf, off + 5, depth + 1, count);
        let body = buf.subrange(off + 5, end);
        assert(buf.subrange(off, end) =~= seq![TAG_LIST] + buf.subrange(off + 1, off + 5) + body);
    } else if tag == TAG_MAP {
        let count = read_u32(buf, off + 1)->Some_0;
        lemma_read_is_u32_be(buf, off + 1);
        lemma_decoded_entries(buf, off + 5, depth + 1, count);
        let body = buf.subrange(off + 5, end);
        assert(buf.subrange(off, end) =~= seq![TAG_MAP] + buf.subrange(off + 1, off + 5) + body);
    } else if tag == TAG_BOOLEAN {
        assert(buf.subrange(off, end) =~= seq![
            TAG_BOOLEAN,
            if buf[off + 1] == 1 {
                1u8
            } else {
                0u8
            },
        ]);
    } else {
        lemma_integer_at(buf, off + 1);
        assert(buf.subrange(off, end) =~= seq![TAG_INTEGER] + buf.subrange(off + 1, off + 9));
    }
}

/// What the decoder accepts as `n` values from `off` on is the encoding of the
/// values read off there.
pub proof fn lemma_decoded_items(buf: Seq<u8>, off: int, depth: nat, n: int)
    requires
        0 <= off <= buf.len(),
        0 <= n,
        decode_items(buf, off, depth, n) is Ok,
    ensures
        off <= decode_items(buf, off, depth, n)->Ok_0 <= buf.len(),
        decoded_items(buf, off, depth, n).len() == n,
        encode_items(decoded_items(buf, off, depth, n), n, depth) == Ok::<
            Seq<u8>,
            &'static str,
        >(buf.subrange(off, decode_items(buf, off, depth, n)->Ok_0)),
    decreases MAX_DEPTH + 1 - depth, 2int, n,
{
    let items = decoded_items(buf, off, depth, n);
    if n > 0 {
        lemma_decoded_items(buf, off, depth, n - 1);
        let front = decoded_items(buf, off, depth, n - 1);
        let next = decode_items(buf, off, depth, n - 1)->Ok_0;
        let end = decode_items(buf, off, depth, n)->Ok_0;
        lemma_decoded_value(buf, next, depth);
        lemma_encode_items_agree(items, front, n - 1, depth);
        assert(buf.subrange(off, next) + buf.subrange(next, end) =~= buf.subrange(off, end));
    } else {
        assert(buf.subrange(off, off) =~= Seq::<u8>::empty());
    }
}

/// What the decoder accepts as `n` entries from `off` on is the encoding of
/// the entries read off there, and their keys ascend strictly.
pub proof fn lemma_decoded_entries(buf: Seq<u8>, off: int, depth: nat, n: int)
    requires
        0 <= off <= buf.len(),
        0 <= n,
        decode_entries(buf, off, depth, n) is Ok,
    ensures
        off <= decode_entries(buf, off, depth, n)->Ok_0.0 <= buf.len(),
        decoded_entries(buf, off, depth, n).len() == n,
        n == 0 ==> decode_entries(buf, off, depth, n)->Ok_0.1 is None,
        n > 0 ==> decode_entries(buf, off, depth, n)->Ok_0.1 == Some(
            encode_utf8(decoded_entries(buf, off, depth, n)[n - 1].0),
        ),
        key_fault(decoded_entries(buf, off, depth, n), n) is None,
        encode_entries(decoded_entries(buf, off, depth, n), n, depth) == Ok::<
            Seq<u8>,
            &'static str,
        >(buf.subrange(off, decode_entries(buf, off, depth, n)->Ok_0.0)),
    decreases MAX_DEPTH + 1 - depth, 2int, n,
{
    let entries = decoded_entries(buf, off, depth, n);
    if n > 0 {
        lemma_decoded_entries(buf, off, depth, n - 1);
        let front = decoded_entries(buf, off, depth, n - 1);
        let at = decode_entries(buf, off, depth, n - 1)->Ok_0.0;
        let prev = decode_entries(buf, off, depth, n - 1)->Ok_0.1;
        let end = decode_entries(buf, off, depth, n)->Ok_0.0;
        assert(decode_entry(buf, at, depth, prev) is Ok);
        let key_end = decode_payload(buf, at + 1, true)->Ok_0;
        lemma_decoded_string(buf, at);
        lemma_decoded_value(buf, key_end, depth);
        lemma_encode_entries_agree(entries, front, n - 1, depth);
        let key = buf.subrange(at + 5, key_end);
        assert(encode_utf8(entries[n - 1].0) == key);
        if n > 1 {
            assert(entries[n - 2] == front[n - 2]);
            assert(prev == Some(encode_utf8(entries[n - 2].0)));
        }
        assert(buf.subrange(off, at) + buf.subrange(at, key_end) + buf.subrange(key_end, end)
            =~= buf.subrange(off, end));
    } else {
        assert(buf.subrange(off, off) =~= Seq::<u8>::empty());
    }
}

/// The decoder accepts nothing but encodings: octets that it accepts as
/// canonical bytes are the canonical bytes of the value that can be read off
/// them, and their identifier is the identifier of that value.
pub proof fn law_accepted_bytes_are_canonical(bytes: Seq<u8>)
    requires
        crate::mid::mid_of_canon(bytes) is Ok,
    ensures
        crate::mid::canonical_bytes(decoded(bytes, 5, 0)) == Ok::<Seq<u8>, &'static str>(bytes),
        crate::mid::mid_of_value(decoded(bytes, 5, 0)) == crate::mid::mid_of_canon(bytes),
{
    lemma_decoded_value(bytes, 5, 0);
    assert(bytes =~= crate::constants::canon_hdr() + bytes.subrange(5, bytes.len() as int));
}

} // verus!
