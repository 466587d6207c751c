//! The encoder: from a canonical value to its octets.
//!
//! | kind    | octets                                                  |
//! |---------|---------------------------------------------------------|
//! | STRING  | 0x01, length as u32 big-endian, the UTF-8 octets        |
//! | BYTES   | 0x02, length as u32 big-endian, the octets              |
//! | LIST    | 0x03, count as u32 big-endian, each value in turn       |
//! | MAP     | 0x04, count as u32 big-endian, each key (as a STRING) and its value in turn |
//! | BOOLEAN | 0x05, then 0x01 for true or 0x00 for false              |
//! | INTEGER | 0x06, then eight octets, two's complement, big-endian   |

use vstd::prelude::*;
use vstd::string::StringSliceAdditionalSpecFns;
use vstd::utf8::{encode_utf8, valid_utf8};
use crate::constants::{
    MAX_DEPTH, MAX_LIST_ENTRIES, MAX_MAP_ENTRIES, TAG_BOOLEAN, TAG_BYTES, TAG_INTEGER,
    TAG_LIST, TAG_MAP, TAG_STRING,
};
use crate::errors::{
    MapError, ERR_CANON_MCF, ERR_DUP_KEY, ERR_KEY_ORDER, ERR_LIMIT_DEPTH, ERR_LIMIT_SIZE,
    ERR_UTF8,
};
use crate::text::push_bytes;
use crate::value::{entries_view, lemma_view_list, lemma_view_mapping, list_view, Canon, MapValue};

verus! {

/// The four octets of `n`, most significant first.
pub open spec fn u32_be(n: int) -> Seq<u8> {
    seq![
        ((n / 0x100_0000) % 256) as u8,
        ((n / 0x1_0000) % 256) as u8,
        ((n / 0x100) % 256) as u8,
        (n % 256) as u8,
    ]
}

/// The number between 0 and 2^64 that has the two's complement bits of `i`.
pub open spec fn twos_complement(i: i64) -> int {
    if i < 0 {
        i + 0x1_0000_0000_0000_0000
    } else {
        i as int
    }
}

/// The eight octets of `i` in two's complement, most significant first.
pub open spec fn i64_be(i: i64) -> Seq<u8> {
    let u = twos_complement(i);
    seq![
        ((u / 0x100_0000_0000_0000) % 256) as u8,
        ((u / 0x1_0000_0000_0000) % 256) as u8,
        ((u / 0x100_0000_0000) % 256) as u8,
        ((u / 0x1_0000_0000) % 256) as u8,
        ((u / 0x100_0000) % 256) as u8,
        ((u / 0x1_0000) % 256) as u8,
        ((u / 0x100) % 256) as u8,
        (u % 256) as u8,
    ]
}

/// Whether `a` comes before `b` when both are compared octet by octet, each
/// octet as an unsigned number, a proper prefix before what it is a prefix of.
pub open spec fn key_lt(a: Seq<u8>, b: Seq<u8>) -> bool
    decreases a.len(),
{
    if b.len() == 0 {
        false
    } else if a.len() == 0 {
        true
    } else if a[0] != b[0] {
        a[0] < b[0]
    } else {
        key_lt(a.drop_first(), b.drop_first())
    }
}

/// How one key stands to another in the order of `key_lt`.
#[derive(Debug, Clone, Copy)]
pub enum KeyOrder {
    Less,
    Equal,
    Greater,
}

/// Compares two keys octet by octet, each octet as an unsigned number.
pub fn key_order(a: &[u8], b: &[u8]) -> (r: KeyOrder)
    ensures
        r is Less <==> key_lt(a@, b@),
        r is Equal <==> a@ == b@,
        r is Greater <==> key_lt(b@, a@),
{
    let mut i: usize = 0;
    assert(a@.skip(0) == a@);
    assert(b@.skip(0) == b@);
    while i < a.len() && i < b.len()
        invariant
            i <= a@.len(),
            i <= b@.len(),
            a@.take(i as int) == b@.take(i as int),
            key_lt(a@, b@) == key_lt(a@.skip(i as int), b@.skip(i as int)),
            key_lt(b@, a@) == key_lt(b@.skip(i as int), a@.skip(i as int)),
        decreases a@.len() - i,
    {
        let x = a[i];
        let y = b[i];
        assert(a@.skip(i as int)[0] == x);
        assert(b@.skip(i as int)[0] == y);
        if x < y {
            assert(a@ != b@);
            return KeyOrder::Less;
        }
        if x > y {
            assert(a@ != b@);
            return KeyOrder::Greater;
        }
        assert(a@.skip(i as int).drop_first() == a@.skip(i + 1));
        assert(b@.skip(i as int).drop_first() == b@.skip(i + 1));
        assert(a@.take(i + 1) == a@.take(i as int).push(x));
        assert(b@.take(i + 1) == b@.take(i as int).push(y));
        i += 1;
    }
    if i < b.len() {
        assert(a@.skip(i as int).len() == 0);
        KeyOrder::Less
    } else if i < a.len() {
        assert(b@.skip(i as int).len() == 0);
        KeyOrder::Greater
    } else {
        assert(a@.take(i as int) == a@);
        assert(b@.take(i as int) == b@);
        assert(a@.skip(i as int).len() == 0);
        KeyOrder::Equal
    }
}

/// The fault in the order of the first `n` keys: none where each comes before
/// the next; else, at the first pair that does not, duplicate for two equal keys
/// and misorder for the rest.
pub open spec fn key_fault(entries: Seq<(Seq<char>, Canon)>, n: int) -> Option<&'static str>
    decreases n,
{
    if n <= 1 {
        None
    } else {
        match key_fault(entries, n - 1) {
            Some(code) => Some(code),
            None => {
                let a = encode_utf8(entries[n - 2].0);
                let b = encode_utf8(entries[n - 1].0);
                if a == b {
                    Some(ERR_DUP_KEY)
                } else if key_lt(a, b) {
                    None
                } else {
                    Some(ERR_KEY_ORDER)
                }
            },
        }
    }
}

/// The octets of a STRING: tag, length, UTF-8 form. The length has to fit in 32 bits.
pub open spec fn encode_string(s: Seq<char>) -> Result<Seq<u8>, &'static str> {
    let raw = encode_utf8(s);
    if raw.len() > u32::MAX {
        Err(ERR_CANON_MCF)
    } else {
        Ok(seq![TAG_STRING] + u32_be(raw.len() as int) + raw)
    }
}

/// The octets of a value that stands `depth` containers below the root, or the
/// code of the first violation met.
pub open spec fn encode_value(v: Canon, depth: nat) -> Result<Seq<u8>, &'static str>
    decreases v, 0int,
{
    match v {
        Canon::Boolean(b) => Ok(
            seq![
                TAG_BOOLEAN,
                if b {
                    1u8
                } else {
                    0u8
                },
            ],
        ),
        Canon::Integer(i) => Ok(seq![TAG_INTEGER] + i64_be(i)),
        Canon::String(s) => encode_string(s),
        Canon::Bytes(b) => if b.len() > u32::MAX {
            Err(ERR_CANON_MCF)
        } else {
            Ok(seq![TAG_BYTES] + u32_be(b.len() as int) + b)
        },
        Canon::List(items) => if depth + 1 > MAX_DEPTH {
            Err(ERR_LIMIT_DEPTH)
        } else if items.len() > MAX_LIST_ENTRIES {
            Err(ERR_LIMIT_SIZE)
        } else {
            match encode_items(items, items.len() as int, depth + 1) {
                Ok(body) => Ok(seq![TAG_LIST] + u32_be(items.len() as int) + body),
                Err(code) => Err(code),
            }
        },
        Canon::Mapping(entries) => if depth + 1 > MAX_DEPTH {
            Err(ERR_LIMIT_DEPTH)
        } else if entries.len() > MAX_MAP_ENTRIES {
            Err(ERR_LIMIT_SIZE)
        } else {
            match key_fault(entries, entries.len() as int) {
                Some(code) => Err(code),
                None => match encode_entries(entries, entries.len() as int, depth + 1) {
                    Ok(body) => Ok(seq![TAG_MAP] + u32_be(entries.len() as int) + body),
                    Err(code) => Err(code),
                },
            }
        },
    }
}

/// The octets of the first `n` values of a list, one after the other.
pub open spec fn encode_items(items: Seq<Canon>, n: int, depth: nat) -> Result<
    Seq<u8>,
    &'static str,
>
    decreases items, n,
{
    if n <= 0 || n > items.len() {
        Ok(Seq::empty())
    } else {
        match encode_items(items, n - 1, depth) {
            Err(code) => Err(code),
            Ok(front) => match encode_value(items[n - 1], depth) {
                Err(code) => Err(code),
                Ok(last) => Ok(front + last),
            },
        }
    }
}

/// The octets of the first `n` entries of a map: each key as a STRING, then its value.
pub open spec fn encode_entries(entries: Seq<(Seq<char>, Canon)>, n: int, depth: nat) -> Result<
    Seq<u8>,
    &'static str,
>
    decreases entries, n,
{
    if n <= 0 || n > entries.len() {
        Ok(Seq::empty())
    } else {
        match encode_entries(entries, n - 1, depth) {
            Err(code) => Err(code),
            Ok(front) => match encode_string(entries[n - 1].0) {
                Err(code) => Err(code),
                Ok(key) => match encode_value(entries[n - 1].1, depth) {
                    Err(code) => Err(code),
                    Ok(value) => Ok(front + key + value),
                },
            },
        }
    }
}

/// Checks that a string holds Unicode scalar values only. A Rust string cannot
/// hold a surrogate code point, so the check never fails.
pub fn validate_utf8_scalar(s: &str) -> (r: Result<(), MapError>)
    ensures
        r is Ok,
{
    for ch in it: s.chars() {
        proof {
            vstd::utf8::char_is_scalar(ch);
        }
        let cp: u32 = ch as u32;
        if 0xD800 <= cp && cp <= 0xDFFF {
            return Err(MapError::new(ERR_UTF8, "surrogate code point"));
        }
    }
    Ok(())
}

/// The string that a slice of octets holds, where the octets are well-formed
/// UTF-8. Made by `core::str::from_utf8`, which accepts exactly the well-formed
/// slices and hands back the same octets as a string.
#[verifier::external_body]
pub(crate) fn utf8_str(b: &[u8]) -> (r: Option<&str>)
    ensures
        r is Some <==> valid_utf8(b@),
        r matches Some(s) ==> s.spec_bytes() == b@,
{
    core::str::from_utf8(b).ok()
}

/// Checks that octets are well-formed UTF-8: the encoding of Unicode scalar
/// values, none of them a surrogate.
pub fn validate_utf8_scalar_bytes(b: &[u8]) -> (r: Result<(), MapError>)
    ensures
        r is Ok <==> valid_utf8(b@),
        r matches Err(e) ==> e.code == ERR_UTF8,
{
    match utf8_str(b) {
        None => Err(MapError::new(ERR_UTF8, "invalid UTF-8")),
        Some(s) => validate_utf8_scalar(s),
    }
}

/// Appends the four octets of `n`, most significant first.
pub(crate) fn push_u32_be(buf: &mut Vec<u8>, n: u32)
    ensures
        final(buf)@ == old(buf)@ + u32_be(n as int),
{
    buf.push((n / 0x100_0000) as u8);
    buf.push(((n / 0x1_0000) % 256) as u8);
    buf.push(((n / 0x100) % 256) as u8);
    buf.push((n % 256) as u8);
    assert(buf@ =~= old(buf)@ + u32_be(n as int));
}

/// Appends the eight octets of `i` in two's complement, most significant first.
pub(crate) fn push_i64_be(buf: &mut Vec<u8>, i: i64)
    ensures
        final(buf)@ == old(buf)@ + i64_be(i),
{
    let u: u64 = if i >= 0 {
        i as u64
    } else {
        ((i + 1) + i64::MAX) as u64 + 0x8000_0000_0000_0000
    };
    assert(u == twos_complement(i));
    buf.push((u / 0x100_0000_0000_0000) as u8);
    buf.push(((u / 0x1_0000_0000_0000) % 256) as u8);
    buf.push(((u / 0x100_0000_0000) % 256) as u8);
    buf.push(((u / 0x1_0000_0000) % 256) as u8);
    buf.push(((u / 0x100_0000) % 256) as u8);
    buf.push(((u / 0x1_0000) % 256) as u8);
    buf.push(((u / 0x100) % 256) as u8);
    buf.push((u % 256) as u8);
    assert(buf@ =~= old(buf)@ + i64_be(i));
}

/// Appends a string as a STRING: tag, length, UTF-8 octets.
pub(crate) fn push_string(buf: &mut Vec<u8>, s: &str) -> (r: Result<(), MapError>)
    ensures
        match r {
            Ok(()) => encode_string(s@) is Ok && final(buf)@ == old(buf)@ + encode_string(
                s@,
            )->Ok_0,
            Err(e) => encode_string(s@) == Err::<Seq<u8>, &'static str>(e.code),
        },
{
    let raw = s.as_bytes();
    let len = raw.len();
    if len > 0xFFFF_FFFF {
        return Err(MapError::new(ERR_CANON_MCF, "string length exceeds u32"));
    }
    buf.push(TAG_STRING);
    push_u32_be(buf, len as u32);
    push_bytes(buf, raw);
    assert(buf@ =~= old(buf)@ + (seq![TAG_STRING] + u32_be(len as int) + raw@));
    Ok(())
}

/// Checks that each key comes strictly before the next.
pub(crate) fn ensure_sorted_unique(entries: &[(String, MapValue)]) -> (r: Result<(), MapError>)
    ensures
        match r {
            Ok(()) => key_fault(entries_view(entries@), entries@.len() as int) is None,
            Err(e) => key_fault(entries_view(entries@), entries@.len() as int) == Some(e.code),
        },
{
    let ghost ev = entries_view(entries@);
    let mut i: usize = 1;
    while i < entries.len()
        invariant
            1 <= i,
            i <= entries@.len() || i == 1,
            ev == entries_view(entries@),
            key_fault(ev, i as int) is None,
        decreases entries@.len() - i,
    {
        let a = entries[i - 1].0.as_str().as_bytes();
        let b = entries[i].0.as_str().as_bytes();
        assert(a@ == encode_utf8(ev[i - 1].0));
        assert(b@ == encode_utf8(ev[i as int].0));
        match key_order(a, b) {
            KeyOrder::Equal => {
                proof {
                    lemma_key_fault_stays(ev, i as int + 1, entries@.len() as int);
                }
                return Err(MapError::new(ERR_DUP_KEY, "duplicate key"));
            },
            KeyOrder::Greater => {
                proof {
                    lemma_key_lt_asymmetric(b@, a@);
                    lemma_key_fault_stays(ev, i as int + 1, entries@.len() as int);
                }
                return Err(MapError::new(ERR_KEY_ORDER, "key order violation"));
            },
            KeyOrder::Less => {},
        }
        i += 1;
    }
    Ok(())
}

/// A fault among the first `n` keys is the fault among any more of them.
pub proof fn lemma_key_fault_stays(entries: Seq<(Seq<char>, Canon)>, n: int, m: int)
    requires
        key_fault(entries, n) is Some,
        n <= m,
    ensures
        key_fault(entries, m) == key_fault(entries, n),
    decreases m - n,
{
    if n < m {
        lemma_key_fault_stays(entries, n, m - 1);
    }
}

/// No key comes before itself, and of two keys at most one comes before the other.
pub proof fn lemma_key_lt_asymmetric(a: Seq<u8>, b: Seq<u8>)
    ensures
        !key_lt(a, a),
        key_lt(a, b) ==> !key_lt(b, a) && a != b,
    decreases a.len(),
{
    if a.len() > 0 {
        lemma_key_lt_asymmetric(a.drop_first(), a.drop_first());
        if b.len() > 0 && a[0] == b[0] {
            lemma_key_lt_asymmetric(a.drop_first(), b.drop_first());
        }
    }
}

/// Encodes a value that stands `depth` containers below the root (the root
/// itself at depth 0). Entering a LIST or a MAP takes one level of depth;
/// scalars take none.
pub fn mcf_encode_value(val: &MapValue, depth: u32) -> (r: Result<Vec<u8>, MapError>)
    ensures
        match r {
            Ok(buf) => encode_value(val@, depth as nat) == Ok::<Seq<u8>, &'static str>(buf@),
            Err(e) => encode_value(val@, depth as nat) == Err::<Seq<u8>, &'static str>(e.code),
        },
    decreases val,
{
    match val {
        MapValue::Boolean(b) => {
            let mut buf: Vec<u8> = Vec::new();
            buf.push(TAG_BOOLEAN);
            buf.push(
                if *b {
                    0x01
                } else {
                    0x00
                },
            );
            assert(buf@ =~= encode_value(val@, depth as nat)->Ok_0);
            Ok(buf)
        },
        MapValue::Integer(i) => {
            let mut buf: Vec<u8> = Vec::new();
            buf.push(TAG_INTEGER);
            push_i64_be(&mut buf, *i);
            assert(buf@ =~= seq![TAG_INTEGER] + i64_be(*i));
            Ok(buf)
        },
        MapValue::String(s) => {
            match validate_utf8_scalar(s.as_str()) {
                Err(e) => {
                    return Err(e);
                },
                Ok(()) => {},
            }
            let mut buf: Vec<u8> = Vec::new();
            match push_string(&mut buf, s.as_str()) {
                Err(e) => Err(e),
                Ok(()) => {
                    assert(buf@ =~= encode_string(s@)->Ok_0);
                    Ok(buf)
                },
            }
        },
        MapValue::Bytes(b) => {
            let len = b.len();
            if len > 0xFFFF_FFFF {
                return Err(MapError::new(ERR_CANON_MCF, "bytes length exceeds u32"));
            }
            let mut buf: Vec<u8> = Vec::new();
            buf.push(TAG_BYTES);
            push_u32_be(&mut buf, len as u32);
            push_bytes(&mut buf, b.as_slice());
            assert(buf@ =~= seq![TAG_BYTES] + u32_be(len as int) + b@);
            Ok(buf)
        },
        MapValue::List(items) => {
            proof {
                lemma_view_list(*items);
            }
            if depth >= MAX_DEPTH {
                return Err(MapError::new(ERR_LIMIT_DEPTH, "depth exceeds MAX_DEPTH"));
            }
            if items.len() > MAX_LIST_ENTRIES as usize {
                return Err(MapError::new(ERR_LIMIT_SIZE, "list entry count exceeds limit"));
            }
            let ghost iv = list_view(items@);
            let ghost head = seq![TAG_LIST] + u32_be(items@.len() as int);
            let ghost mut body: Seq<u8> = Seq::empty();
            let mut buf: Vec<u8> = Vec::new();
            buf.push(TAG_LIST);
            push_u32_be(&mut buf, items.len() as u32);
            assert(buf@ =~= head + body);
            let mut i: usize = 0;
            while i < items.len()
                invariant
                    i <= items@.len(),
                    iv == list_view(items@),
                    depth < MAX_DEPTH,
                    (*val)->List_0 == *items,
                    *val is List,
                    val@ == Canon::List(iv),
                    items@.len() <= MAX_LIST_ENTRIES,
                    buf@ == head + body,
                    encode_items(iv, i as int, (depth + 1) as nat) == Ok::<Seq<u8>, &'static str>(
                        body,
                    ),
                decreases items@.len() - i,
            {
                proof {
                    vstd::std_specs::vec::axiom_vec_index_decreases(*items, i as int);
                }
                match mcf_encode_value(&items[i], depth + 1) {
                    Err(e) => {
                        proof {
                            assert(iv[i as int] == items@[i as int]@);
                            assert(encode_items(iv, i as int + 1, (depth + 1) as nat) == Err::<
                                Seq<u8>,
                                &'static str,
                            >(e.code));
                            lemma_encode_items_fails(
                                iv,
                                i as int + 1,
                                items@.len() as int,
                                (depth + 1) as nat,
                            );
                        }
                        return Err(e);
                    },
                    Ok(child) => {
                        push_bytes(&mut buf, child.as_slice());
                        proof {
                            assert(iv[i as int] == items@[i as int]@);
                            body = body + child@;
                            assert(buf@ =~= head + body);
                        }
                    },
                }
                i += 1;
            }
            Ok(buf)
        },
        MapValue::Mapping(entries) => {
            proof {
                lemma_view_mapping(*entries);
            }
            if depth >= MAX_DEPTH {
                return Err(MapError::new(ERR_LIMIT_DEPTH, "depth exceeds MAX_DEPTH"));
            }
            if entries.len() > MAX_MAP_ENTRIES as usize {
                return Err(MapError::new(ERR_LIMIT_SIZE, "map entry count exceeds limit"));
            }
            let mut k: usize = 0;
            while k < entries.len()
                invariant
                    k <= entries@.len(),
                decreases entries@.len() - k,
            {
                match validate_utf8_scalar(entries[k].0.as_str()) {
                    Err(e) => {
                        return Err(e);
                    },
                    Ok(()) => {},
                }
                k += 1;
            }
            match ensure_sorted_unique(entries.as_slice()) {
                Err(e) => {
                    return Err(e);
                },
                Ok(()) => {},
            }
            let ghost ev = entries_view(entries@);
            let ghost head = seq![TAG_MAP] + u32_be(entries@.len() as int);
            let ghost mut body: Seq<u8> = Seq::empty();
            let mut buf: Vec<u8> = Vec::new();
            buf.push(TAG_MAP);
            push_u32_be(&mut buf, entries.len() as u32);
            assert(buf@ =~= head + body);
            let mut i: usize = 0;
            while i < entries.len()
                invariant
                    i <= entries@.len(),
                    ev == entries_view(entries@),
                    depth < MAX_DEPTH,
                    (*val)->Mapping_0 == *entries,
                    *val is Mapping,
                    val@ == Canon::Mapping(ev),
                    entries@.len() <= MAX_MAP_ENTRIES,
                    key_fault(ev, entries@.len() as int) is None,
                    buf@ == head + body,
                    encode_entries(ev, i as int, (depth + 1) as nat) == Ok::<
                        Seq<u8>,
                        &'static str,
                    >(body),
                decreases entries@.len() - i,
            {
                proof {
                    vstd::std_specs::vec::axiom_vec_index_decreases(*entries, i as int);
                }
                let ghost before = buf@;
                assert(ev[i as int].0 == entries@[i as int].0@);
                assert(ev[i as int].1 == entries@[i as int].1@);
                match push_string(&mut buf, entries[i].0.as_str()) {
                    Err(e) => {
                        proof {
                            assert(encode_entries(ev, i as int + 1, (depth + 1) as nat) == Err::<
                                Seq<u8>,
                                &'static str,
                            >(e.code));
                            lemma_encode_entries_fails(
                                ev,
                                i as int + 1,
                                entries@.len() as int,
                                (depth + 1) as nat,
                            );
                        }
                        return Err(e);
                    },
                    Ok(()) => {},
                }
                match mcf_encode_value(&entries[i].1, depth + 1) {
                    Err(e) => {
                        proof {
                            assert(encode_entries(ev, i as int + 1, (depth + 1) as nat) == Err::<
                                Seq<u8>,
                                &'static str,
                            >(e.code));
                            lemma_encode_entries_fails(
                                ev,
                                i as int + 1,
                                entries@.len() as int,
                                (depth + 1) as nat,
                            );
                        }
                        return Err(e);
                    },
                    Ok(child) => {
                        push_bytes(&mut buf, child.as_slice());
                        proof {
                            let key = encode_string(ev[i as int].0)->Ok_0;
                            assert(buf@ == before + key + child@);
                            assert(encode_entries(ev, i as int + 1, (depth + 1) as nat) == Ok::<
                                Seq<u8>,
                                &'static str,
                            >(body + key + child@));
                            body = body + key + child@;
                            assert(buf@ =~= head + body);
                        }
                    },
                }
                i += 1;
            }
            Ok(buf)
        },
    }
}

/// Where the first `n` values of a list fail to encode, so do any more of them,
/// with the same code.
pub proof fn lemma_encode_items_fails(items: Seq<Canon>, n: int, m: int, depth: nat)
    requires
        encode_items(items, n, depth) is Err,
        n <= m <= items.len(),
    ensures
        encode_items(items, m, depth) == encode_items(items, n, depth),
    decreases m - n,
{
    if n < m {
        lemma_encode_items_fails(items, n, m - 1, depth);
    }
}

/// Where the first `n` entries of a map fail to encode, so do any more of them,
/// with the same code.
pub proof fn lemma_encode_entries_fails(
    entries: Seq<(Seq<char>, Canon)>,
    n: int,
    m: int,
    depth: nat,
)
    requires
        encode_entries(entries, n, depth) is Err,
        n <= m <= entries.len(),
    ensures
        encode_entries(entries, m, depth) == encode_entries(entries, n, depth),
    decreases m - n,
{
    if n < m {
        lemma_encode_entries_fails(entries, n, m - 1, depth);
    }
}

} // verus!
