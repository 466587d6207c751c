//! What the encoder writes, the validating decoder accepts.

use vstd::prelude::*;
use vstd::utf8::{encode_utf8, encode_utf8_valid_utf8};
use crate::constants::{canon_hdr, TAG_STRING};
use crate::decode::{
    decode_entries, decode_entry, decode_items, decode_payload, decode_value, read_u32,
};
use crate::encode::{
    encode_entries, encode_items, encode_string, encode_value, key_fault, lemma_key_fault_stays,
    u32_be,
};
use crate::mid::{canonical_bytes, mid_of_canon, mid_of_value};
use crate::value::Canon;

verus! {

/// Whether `buf` holds the octets `bytes` from offset `off` on.
pub open spec fn holds_at(buf: Seq<u8>, off: int, bytes: Seq<u8>) -> bool {
    0 <= off && off + bytes.len() <= buf.len() && buf.subrange(off, off + bytes.len()) == bytes
}

/// A part of what `buf` holds at `off` is held at its own place.
pub proof fn lemma_holds_at_part(buf: Seq<u8>, off: int, bytes: Seq<u8>, from: int, to: int)
    requires
        holds_at(buf, off, bytes),
        0 <= from <= to <= bytes.len(),
    ensures
        holds_at(buf, off + from, bytes.subrange(from, to)),
{
    assert(buf.subrange(off + from, off + to) =~= bytes.subrange(from, to)) by {
        assert forall|i: int| 0 <= i < to - from implies buf.subrange(off + from, off + to)[i]
            == bytes.subrange(from, to)[i] by {
            assert(buf.subrange(off, off + bytes.len())[from + i] == bytes[from + i]);
        }
    }
}

/// The four octets of a number below 2^32 are read back as that number.
pub proof fn lemma_u32_be_read(buf: Seq<u8>, off: int, n: int)
    requires
        0 <= n <= u32::MAX,
        holds_at(buf, off, u32_be(n)),
    ensures
        read_u32(buf, off) == Some(n),
{
    let b = u32_be(n);
    assert(buf.subrange(off, off + 4)[0] == b[0]);
    assert(buf.subrange(off, off + 4)[1] == b[1]);
    assert(buf.subrange(off, off + 4)[2] == b[2]);
    assert(buf.subrange(off, off + 4)[3] == b[3]);
    assert(b[0] == (n / 0x100_0000) % 256);
    assert(b[1] == (n / 0x1_0000) % 256);
    assert(b[2] == (n / 0x100) % 256);
    assert(b[3] == n % 256);
}

/// A payload written with its length in front is accepted, and ends where it
/// was written to end.
pub proof fn lemma_payload_round_trip(buf: Seq<u8>, off: int, raw: Seq<u8>, text: bool)
    requires
        raw.len() <= u32::MAX,
        holds_at(buf, off, u32_be(raw.len() as int) + raw),
        text ==> vstd::utf8::valid_utf8(raw),
    ensures
        decode_payload(buf, off, text) == Ok::<int, &'static str>(off + 4 + raw.len()),
        buf.subrange(off + 4, off + 4 + raw.len()) == raw,
{
    let whole = u32_be(raw.len() as int) + raw;
    lemma_holds_at_part(buf, off, whole, 0, 4);
    assert(whole.subrange(0, 4) =~= u32_be(raw.len() as int));
    lemma_u32_be_read(buf, off, raw.len() as int);
    lemma_holds_at_part(buf, off, whole, 4, whole.len() as int);
    assert(whole.subrange(4, whole.len() as int) =~= raw);
}

/// A key written as a STRING is accepted as a key's payload.
pub proof fn lemma_string_round_trip(buf: Seq<u8>, off: int, s: Seq<char>)
    requires
        encode_string(s) is Ok,
        holds_at(buf, off, encode_string(s)->Ok_0),
    ensures
        buf[off] == TAG_STRING,
        decode_payload(buf, off + 1, true) == Ok::<int, &'static str>(
            off + encode_string(s)->Ok_0.len(),
        ),
        buf.subrange(off + 5, off + encode_string(s)->Ok_0.len()) == encode_utf8(s),
        encode_string(s)->Ok_0.len() == 5 + encode_utf8(s).len(),
{
    let raw = encode_utf8(s);
    let whole = encode_string(s)->Ok_0;
    encode_utf8_valid_utf8(s);
    assert(buf.subrange(off, off + whole.len())[0] == whole[0]);
    lemma_holds_at_part(buf, off, whole, 1, whole.len() as int);
    assert(whole.subrange(1, whole.len() as int) =~= u32_be(raw.len() as int) + raw);
    lemma_payload_round_trip(buf, off + 1, raw, true);
}

/// Where the first `m` keys are in order, so are the first `n` of them.
pub proof fn lemma_key_fault_prefix(entries: Seq<(Seq<char>, Canon)>, n: int, m: int)
    requires
        key_fault(entries, m) is None,
        n <= m,
    ensures
        key_fault(entries, n) is None,
{
    if key_fault(entries, n) is Some {
        lemma_key_fault_stays(entries, n, m);
    }
}

/// The encoding of a value, wherever it stands in a buffer, is accepted by the
/// decoder at the same depth, which ends at the end of the encoding.
pub proof fn lemma_decode_accepts_encoding(v: Canon, depth: nat, buf: Seq<u8>, off: int)
    requires
        encode_value(v, depth) is Ok,
        holds_at(buf, off, encode_value(v, depth)->Ok_0),
    ensures
        decode_value(buf, off, depth) == Ok::<int, &'static str>(
            off + encode_value(v, depth)->Ok_0.len(),
        ),
    decreases v, 0int,
{
    let bytes = encode_value(v, depth)->Ok_0;
    assert(buf.subrange(off, off + bytes.len())[0] == bytes[0]);
    match v {
        Canon::Boolean(b) => {
            assert(buf.subrange(off, off + bytes.len())[1] == bytes[1]);
        },
        Canon::Integer(i) => {
            assert(bytes.len() == 9);
        },
        Canon::String(s) => {
            lemma_string_round_trip(buf, off, s);
        },
        Canon::Bytes(b) => {
            lemma_holds_at_part(buf, off, bytes, 1, bytes.len() as int);
            assert(bytes.subrange(1, bytes.len() as int) =~= u32_be(b.len() as int) + b);
            lemma_payload_round_trip(buf, off + 1, b, false);
        },
        Canon::List(items) => {
            let body = encode_items(items, items.len() as int, depth + 1)->Ok_0;
            lemma_holds_at_part(buf, off, bytes, 1, 5);
            assert(bytes.subrange(1, 5) =~= u32_be(items.len() as int));
            lemma_u32_be_read(buf, off + 1, items.len() as int);
            lemma_holds_at_part(buf, off, bytes, 5, bytes.len() as int);
            assert(bytes.subrange(5, bytes.len() as int) =~= body);
            lemma_decode_accepts_items(items, items.len() as int, depth + 1, buf, off + 5);
        },
        Canon::Mapping(entries) => {
            let body = encode_entries(entries, entries.len() as int, depth + 1)->Ok_0;
            lemma_holds_at_part(buf, off, bytes, 1, 5);
            assert(bytes.subrange(1, 5) =~= u32_be(entries.len() as int));
            lemma_u32_be_read(buf, off + 1, entries.len() as int);
            lemma_holds_at_part(buf, off, bytes, 5, bytes.len() as int);
            assert(bytes.subrange(5, bytes.len() as int) =~= body);
            lemma_decode_accepts_entries(
                entries,
                entries.len() as int,
                entries.len() as int,
                depth + 1,
                buf,
                off + 5,
            );
        },
    }
}

/// The encodings of the first `n` values of a list, one after the other, are
/// accepted by the decoder as `n` values.
pub proof fn lemma_decode_accepts_items(
    items: Seq<Canon>,
    n: int,
    depth: nat,
    buf: Seq<u8>,
    start: int,
)
    requires
        0 <= n <= items.len(),
        encode_items(items, n, depth) is Ok,
        holds_at(buf, start, encode_items(items, n, depth)->Ok_0),
    ensures
        decode_items(buf, start, depth, n) == Ok::<int, &'static str>(
            start + encode_items(items, n, depth)->Ok_0.len(),
        ),
    decreases items, n,
{
    if n > 0 {
        let whole = encode_items(items, n, depth)->Ok_0;
        let front = encode_items(items, n - 1, depth)->Ok_0;
        let last = encode_value(items[n - 1], depth)->Ok_0;
        assert(whole == front + last);
        lemma_holds_at_part(buf, start, whole, 0, front.len() as int);
        assert(whole.subrange(0, front.len() as int) =~= front);
        lemma_decode_accepts_items(items, n - 1, depth, buf, start);
        lemma_holds_at_part(buf, start, whole, front.len() as int, whole.len() as int);
        assert(whole.subrange(front.len() as int, whole.len() as int) =~= last);
        lemma_decode_accepts_encoding(items[n - 1], depth, buf, start + front.len());
    }
}

/// The encodings of the first `n` entries of a map whose keys are in order are
/// accepted by the decoder as `n` entries.
pub proof fn lemma_decode_accepts_entries(
    entries: Seq<(Seq<char>, Canon)>,
    n: int,
    total: int,
    depth: nat,
    buf: Seq<u8>,
    start: int,
)
    requires
        0 <= n <= total <= entries.len(),
        key_fault(entries, total) is None,
        encode_entries(entries, n, depth) is Ok,
        holds_at(buf, start, encode_entries(entries, n, depth)->Ok_0),
    ensures
        decode_entries(buf, start, depth, n) == Ok::<(int, Option<Seq<u8>>), &'static str>(
            (
                start + encode_entries(entries, n, depth)->Ok_0.len(),
                if n == 0 {
                    None
                } else {
                    Some(encode_utf8(entries[n - 1].0))
                },
            ),
        ),
    decreases entries, n,
{
    if n > 0 {
        let whole = encode_entries(entries, n, depth)->Ok_0;
        let front = encode_entries(entries, n - 1, depth)->Ok_0;
        let key = encode_string(entries[n - 1].0)->Ok_0;
        let value = encode_value(entries[n - 1].1, depth)->Ok_0;
        assert(whole == front + key + value);
        lemma_holds_at_part(buf, start, whole, 0, front.len() as int);
        assert(whole.subrange(0, front.len() as int) =~= front);
        lemma_decode_accepts_entries(entries, n - 1, total, depth, buf, start);
        let at = start + front.len();
        lemma_holds_at_part(buf, start, whole, front.len() as int, (front.len() + key.len()) as int);
        assert(whole.subrange(front.len() as int, (front.len() + key.len()) as int) =~= key);
        lemma_string_round_trip(buf, at, entries[n - 1].0);
        lemma_holds_at_part(buf, start, whole, (front.len() + key.len()) as int, whole.len() as int);
        assert(whole.subrange((front.len() + key.len()) as int, whole.len() as int) =~= value);
        lemma_decode_accepts_encoding(entries[n - 1].1, depth, buf, at + key.len());
        lemma_key_fault_prefix(entries, n, total);
        let prev: Option<Seq<u8>> = if n == 1 {
            None
        } else {
            Some(encode_utf8(entries[n - 2].0))
        };
        assert(decode_entry(buf, at, depth, prev) == Ok::<(int, Option<Seq<u8>>), &'static str>(
            (start + whole.len(), Some(encode_utf8(entries[n - 1].0))),
        ));
    }
}

/// Canonical bytes made from a value are accepted when they are handed in as
/// canonical bytes, and give the identifier of that value.
pub proof fn law_round_trip(v: Canon)
    requires
        canonical_bytes(v) is Ok,
    ensures
        mid_of_canon(canonical_bytes(v)->Ok_0) == mid_of_value(v),
{
    let body = encode_value(v, 0)->Ok_0;
    let canon = canonical_bytes(v)->Ok_0;
    assert(canon == canon_hdr() + body);
    assert(canon.subrange(0, 5) =~= canon_hdr());
    assert(canon.subrange(5, 5 + body.len() as int) =~= body);
    lemma_decode_accepts_encoding(v, 0, canon, 5);
}

} // verus!
