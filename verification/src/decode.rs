//! The validating decoder: checks that octets are the encoding of a canonical
//! value, without building the value.

use vstd::prelude::*;
use vstd::slice::slice_subrange;
use vstd::utf8::valid_utf8;
use crate::constants::{
    MAX_DEPTH, MAX_LIST_ENTRIES, MAX_MAP_ENTRIES, TAG_BOOLEAN, TAG_BYTES, TAG_INTEGER,
    TAG_LIST, TAG_MAP, TAG_STRING,
};
use crate::encode::{key_lt, key_order, lemma_key_lt_asymmetric, validate_utf8_scalar_bytes, KeyOrder};
use crate::errors::{
    MapError, ERR_CANON_MCF, ERR_DUP_KEY, ERR_KEY_ORDER, ERR_LIMIT_DEPTH, ERR_LIMIT_SIZE,
    ERR_SCHEMA, ERR_UTF8,
};

verus! {

/// The number that the four octets at `off` hold, most significant first, or
/// nothing where fewer than four octets are left.
pub open spec fn read_u32(buf: Seq<u8>, off: int) -> Option<int> {
    if 0 <= off && off + 4 <= buf.len() {
        Some(
            buf[off] * 0x100_0000 + buf[off + 1] * 0x1_0000 + buf[off + 2] * 0x100 + buf[off
                + 3],
        )
    } else {
        None
    }
}

/// The end of the payload whose length stands at `off`: the offset after its
/// last octet. Where `text` is set the payload has to be well-formed UTF-8.
pub open spec fn decode_payload(buf: Seq<u8>, off: int, text: bool) -> Result<int, &'static str> {
    match read_u32(buf, off) {
        None => Err(ERR_CANON_MCF),
        Some(n) => if off + 4 + n > buf.len() {
            Err(ERR_CANON_MCF)
        } else if text && !valid_utf8(buf.subrange(off + 4, off + 4 + n)) {
            Err(ERR_UTF8)
        } else {
            Ok(off + 4 + n)
        },
    }
}

/// The offset after the value that starts at `off`, `depth` containers below
/// the root, or the code of the first violation met.
pub open spec fn decode_value(buf: Seq<u8>, off: int, depth: nat) -> Result<int, &'static str>
    decreases MAX_DEPTH + 1 - depth, 0int, 0int,
{
    if off < 0 || off >= buf.len() {
        Err(ERR_CANON_MCF)
    } else if buf[off] == TAG_STRING {
        decode_payload(buf, off + 1, true)
    } else if buf[off] == TAG_BYTES {
        decode_payload(buf, off + 1, false)
    } else if buf[off] == TAG_LIST {
        if depth + 1 > MAX_DEPTH {
            Err(ERR_LIMIT_DEPTH)
        } else {
            match read_u32(buf, off + 1) {
                None => Err(ERR_CANON_MCF),
                Some(count) => if count > MAX_LIST_ENTRIES {
                    Err(ERR_LIMIT_SIZE)
                } else {
                    decode_items(buf, off + 5, depth + 1, count)
                },
            }
        }
    } else if buf[off] == TAG_MAP {
        if depth + 1 > MAX_DEPTH {
            Err(ERR_LIMIT_DEPTH)
        } else {
            match read_u32(buf, off + 1) {
                None => Err(ERR_CANON_MCF),
                Some(count) => if count > MAX_MAP_ENTRIES {
                    Err(ERR_LIMIT_SIZE)
                } else {
                    match decode_entries(buf, off + 5, depth + 1, count) {
                        Ok((end, _)) => Ok(end),
                        Err(code) => Err(code),
                    }
                },
            }
        }
    } else if buf[off] == TAG_BOOLEAN {
        if off + 1 >= buf.len() {
            Err(ERR_CANON_MCF)
        } else if buf[off + 1] != 0 && buf[off + 1] != 1 {
            Err(ERR_CANON_MCF)
        } else {
            Ok(off + 2)
        }
    } else if buf[off] == TAG_INTEGER {
        if off + 9 > buf.len() {
            Err(ERR_CANON_MCF)
        } else {
            Ok(off + 9)
        }
    } else {
        Err(ERR_CANON_MCF)
    }
}

/// The offset after `n` values that follow one another from `off`.
pub open spec fn decode_items(buf: Seq<u8>, off: int, depth: nat, n: int) -> Result<
    int,
    &'static str,
>
    decreases MAX_DEPTH + 1 - depth, 2int, n,
{
    if n <= 0 {
        Ok(off)
    } else {
        match decode_items(buf, off, depth, n - 1) {
            Err(code) => Err(code),
            Ok(next) => decode_value(buf, next, depth),
        }
    }
}

/// The offset after the entry of a map that starts at `off`, and the octets of
/// its key. The key has to be a STRING and, where a key came before it, has to
/// come strictly after that one.
pub open spec fn decode_entry(buf: Seq<u8>, off: int, depth: nat, prev: Option<Seq<u8>>) -> Result<
    (int, Option<Seq<u8>>),
    &'static str,
>
    decreases MAX_DEPTH + 1 - depth, 1int, 0int,
{
    if off < 0 || off >= buf.len() {
        Err(ERR_CANON_MCF)
    } else if buf[off] != TAG_STRING {
        Err(ERR_SCHEMA)
    } else {
        match decode_payload(buf, off + 1, true) {
            Err(code) => Err(code),
            Ok(key_end) => {
                let key = buf.subrange(off + 5, key_end);
                if prev is Some && prev->Some_0 == key {
                    Err(ERR_DUP_KEY)
                } else if prev is Some && !key_lt(prev->Some_0, key) {
                    Err(ERR_KEY_ORDER)
                } else {
                    match decode_value(buf, key_end, depth) {
                        Err(code) => Err(code),
                        Ok(end) => Ok((end, Some(key))),
                    }
                }
            },
        }
    }
}

/// The offset after `n` entries that follow one another from `off`, and the
/// octets of the last key among them.
pub open spec fn decode_entries(buf: Seq<u8>, off: int, depth: nat, n: int) -> Result<
    (int, Option<Seq<u8>>),
    &'static str,
>
    decreases MAX_DEPTH + 1 - depth, 2int, n,
{
    if n <= 0 {
        Ok((off, None))
    } else {
        match decode_entries(buf, off, depth, n - 1) {
            Err(code) => Err(code),
            Ok((next, prev)) => decode_entry(buf, next, depth, prev),
        }
    }
}

/// Where the first `n` values fail to decode, so do any more of them, with the
/// same code.
pub proof fn lemma_decode_items_fails(buf: Seq<u8>, off: int, depth: nat, n: int, m: int)
    requires
        decode_items(buf, off, depth, n) is Err,
        n <= m,
    ensures
        decode_items(buf, off, depth, m) == decode_items(buf, off, depth, n),
    decreases m - n,
{
    if n < m {
        lemma_decode_items_fails(buf, off, depth, n, m - 1);
    }
}

/// Where the first `n` entries fail to decode, so do any more of them, with the
/// same code.
pub proof fn lemma_decode_entries_fails(buf: Seq<u8>, off: int, depth: nat, n: int, m: int)
    requires
        decode_entries(buf, off, depth, n) is Err,
        n <= m,
    ensures
        decode_entries(buf, off, depth, m) == decode_entries(buf, off, depth, n),
    decreases m - n,
{
    if n < m {
        lemma_decode_entries_fails(buf, off, depth, n, m - 1);
    }
}

/// Reads the four octets at `off` as a number, most significant first.
pub(crate) fn read_u32be(buf: &[u8], off: usize) -> (r: Result<(u32, usize), MapError>)
    ensures
        match r {
            Ok((val, next)) => read_u32(buf@, off as int) == Some(val as int) && next == off + 4,
            Err(e) => read_u32(buf@, off as int) is None && e.code == ERR_CANON_MCF,
        },
{
    if buf.len() < 4 || off > buf.len() - 4 {
        return Err(MapError::new(ERR_CANON_MCF, "truncated u32"));
    }
    let b0: u32 = buf[off] as u32;
    let b1: u32 = buf[off + 1] as u32;
    let b2: u32 = buf[off + 2] as u32;
    let b3: u32 = buf[off + 3] as u32;
    let val: u32 = b0 * 0x100_0000 + b1 * 0x1_0000 + b2 * 0x100 + b3;
    Ok((val, off + 4))
}

/// Reads the length at `off` and checks the payload that follows it.
pub(crate) fn decode_payload_at(buf: &[u8], off: usize, text: bool) -> (r: Result<
    usize,
    MapError,
>)
    ensures
        match r {
            Ok(end) => decode_payload(buf@, off as int, text) == Ok::<int, &'static str>(
                end as int,
            ) && off + 4 <= end <= buf@.len(),
            Err(e) => decode_payload(buf@, off as int, text) == Err::<int, &'static str>(e.code),
        },
{
    let (n, start) = match read_u32be(buf, off) {
        Ok(pair) => pair,
        Err(e) => {
            return Err(e);
        },
    };
    let n = n as usize;
    if n > buf.len() - start {
        return Err(MapError::new(ERR_CANON_MCF, "truncated payload"));
    }
    if text {
        match validate_utf8_scalar_bytes(slice_subrange(buf, start, start + n)) {
            Err(e) => {
                return Err(e);
            },
            Ok(()) => {},
        }
    }
    Ok(start + n)
}

/// Validates the value that starts at `off` in `buf`, `depth` containers below
/// the root, and returns the offset after it.
pub fn mcf_decode_validate(buf: &[u8], off: usize, depth: u32) -> (r: Result<usize, MapError>)
    ensures
        match r {
            Ok(end) => decode_value(buf@, off as int, depth as nat) == Ok::<int, &'static str>(
                end as int,
            ) && off < end <= buf@.len(),
            Err(e) => decode_value(buf@, off as int, depth as nat) == Err::<int, &'static str>(
                e.code,
            ),
        },
    decreases MAX_DEPTH + 1 - depth, 0int,
{
    if off >= buf.len() {
        return Err(MapError::new(ERR_CANON_MCF, "truncated tag"));
    }
    let tag = buf[off];
    if tag == TAG_STRING {
        decode_payload_at(buf, off + 1, true)
    } else if tag == TAG_BYTES {
        decode_payload_at(buf, off + 1, false)
    } else if tag == TAG_LIST {
        if depth >= MAX_DEPTH {
            return Err(MapError::new(ERR_LIMIT_DEPTH, "depth exceeds MAX_DEPTH"));
        }
        let (count, start) = match read_u32be(buf, off + 1) {
            Ok(pair) => pair,
            Err(e) => {
                return Err(e);
            },
        };
        if count > MAX_LIST_ENTRIES {
            return Err(MapError::new(ERR_LIMIT_SIZE, "list entry count exceeds limit"));
        }
        let mut cur: usize = start;
        let mut i: u32 = 0;
        while i < count
            invariant
                i <= count,
                depth < MAX_DEPTH,
                start == off + 5,
                start <= cur <= buf@.len(),
                off < buf@.len(),
                buf@[off as int] == TAG_LIST,
                read_u32(buf@, off + 1) == Some(count as int),
                count <= MAX_LIST_ENTRIES,
                decode_items(buf@, start as int, (depth + 1) as nat, i as int) == Ok::<
                    int,
                    &'static str,
                >(cur as int),
            decreases count - i,
        {
            match mcf_decode_validate(buf, cur, depth + 1) {
                Err(e) => {
                    proof {
                        assert(decode_items(buf@, start as int, (depth + 1) as nat, i + 1)
                            == Err::<int, &'static str>(e.code));
                        lemma_decode_items_fails(
                            buf@,
                            start as int,
                            (depth + 1) as nat,
                            i + 1,
                            count as int,
                        );
                    }
                    return Err(e);
                },
                Ok(next) => {
                    cur = next;
                },
            }
            i += 1;
        }
        Ok(cur)
    } else if tag == TAG_MAP {
        if depth >= MAX_DEPTH {
            return Err(MapError::new(ERR_LIMIT_DEPTH, "depth exceeds MAX_DEPTH"));
        }
        let (count, start) = match read_u32be(buf, off + 1) {
            Ok(pair) => pair,
            Err(e) => {
                return Err(e);
            },
        };
        if count > MAX_MAP_ENTRIES {
            return Err(MapError::new(ERR_LIMIT_SIZE, "map entry count exceeds limit"));
        }
        let mut cur: usize = start;
        let mut prev_start: usize = 0;
        let mut prev_end: usize = 0;
        let mut has_prev: bool = false;
        let ghost mut prev: Option<Seq<u8>> = None;
        let mut i: u32 = 0;
        while i < count
            invariant
                i <= count,
                depth < MAX_DEPTH,
                start == off + 5,
                start <= cur <= buf@.len(),
                off < buf@.len(),
                buf@[off as int] == TAG_MAP,
                read_u32(buf@, off + 1) == Some(count as int),
                count <= MAX_MAP_ENTRIES,
                has_prev == (prev is Some),
                has_prev ==> prev_start <= prev_end <= buf@.len() && prev->Some_0
                    == buf@.subrange(prev_start as int, prev_end as int),
                decode_entries(buf@, start as int, (depth + 1) as nat, i as int) == Ok::<
                    (int, Option<Seq<u8>>),
                    &'static str,
                >((cur as int, prev)),
            decreases count - i,
        {
            match decode_entry_at(buf, cur, depth + 1, has_prev, prev_start, prev_end) {
                Err(e) => {
                    proof {
                        assert(decode_entries(buf@, start as int, (depth + 1) as nat, i + 1)
                            == Err::<(int, Option<Seq<u8>>), &'static str>(e.code));
                        lemma_decode_entries_fails(
                            buf@,
                            start as int,
                            (depth + 1) as nat,
                            i + 1,
                            count as int,
                        );
                    }
                    return Err(e);
                },
                Ok((next, key_end)) => {
                    proof {
                        prev = Some(buf@.subrange(cur + 5, key_end as int));
                    }
                    prev_start = cur + 5;
                    prev_end = key_end;
                    has_prev = true;
                    cur = next;
                },
            }
            i += 1;
        }
        Ok(cur)
    } else if tag == TAG_BOOLEAN {
        if off + 1 >= buf.len() {
            return Err(MapError::new(ERR_CANON_MCF, "truncated boolean payload"));
        }
        let payload = buf[off + 1];
        if payload != 0x00 && payload != 0x01 {
            return Err(MapError::new(ERR_CANON_MCF, "invalid boolean payload"));
        }
        Ok(off + 2)
    } else if tag == TAG_INTEGER {
        if buf.len() - off < 9 {
            return Err(MapError::new(ERR_CANON_MCF, "truncated integer payload"));
        }
        Ok(off + 9)
    } else {
        Err(MapError::new(ERR_CANON_MCF, "unknown MCF tag"))
    }
}

/// Validates the entry of a map that starts at `off`: a key, which has to be a
/// STRING that comes strictly after the key before it, and a value. Returns the
/// offset after the entry and the offset after the key.
fn decode_entry_at(
    buf: &[u8],
    off: usize,
    depth: u32,
    has_prev: bool,
    prev_start: usize,
    prev_end: usize,
) -> (r: Result<(usize, usize), MapError>)
    requires
        depth <= MAX_DEPTH,
        has_prev ==> prev_start <= prev_end <= buf@.len(),
    ensures
        ({
            let prev = if has_prev {
                Some(buf@.subrange(prev_start as int, prev_end as int))
            } else {
                None
            };
            match r {
                Ok((end, key_end)) => decode_entry(buf@, off as int, depth as nat, prev) == Ok::<
                    (int, Option<Seq<u8>>),
                    &'static str,
                >((end as int, Some(buf@.subrange(off + 5, key_end as int)))) && off + 5
                    <= key_end < end <= buf@.len(),
                Err(e) => decode_entry(buf@, off as int, depth as nat, prev) == Err::<
                    (int, Option<Seq<u8>>),
                    &'static str,
                >(e.code),
            }
        }),
    decreases MAX_DEPTH + 1 - depth, 1int,
{
    if off >= buf.len() {
        return Err(MapError::new(ERR_CANON_MCF, "truncated map key tag"));
    }
    if buf[off] != TAG_STRING {
        return Err(MapError::new(ERR_SCHEMA, "map key must be STRING"));
    }
    let key_end = match decode_payload_at(buf, off + 1, true) {
        Ok(end) => end,
        Err(e) => {
            return Err(e);
        },
    };
    if has_prev {
        let prev_key = slice_subrange(buf, prev_start, prev_end);
        let key = slice_subrange(buf, off + 5, key_end);
        match key_order(prev_key, key) {
            KeyOrder::Equal => {
                return Err(MapError::new(ERR_DUP_KEY, "duplicate key in MCF"));
            },
            KeyOrder::Greater => {
                proof {
                    lemma_key_lt_asymmetric(key@, prev_key@);
                }
                return Err(MapError::new(ERR_KEY_ORDER, "key order violation in MCF"));
            },
            KeyOrder::Less => {
                proof {
                    lemma_key_lt_asymmetric(prev_key@, key@);
                }
            },
        }
    }
    match mcf_decode_validate(buf, key_end, depth) {
        Err(e) => Err(e),
        Ok(end) => Ok((end, key_end)),
    }
}

} // verus!
