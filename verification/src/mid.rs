//! Canonical bytes and the identifier made from them.
//!
//! Canonical bytes are the canonical header followed by the encoding of the
//! root value. The identifier is `map1:` followed by the SHA-256 digest of the
//! canonical bytes in lowercase hexadecimal.

use vstd::prelude::*;
use vstd::string::StringExecFns;
use sha2::{Digest, Sha256};
use crate::constants::{canon_hdr, lemma_canon_hdr, CANON_HDR, MAX_CANON_BYTES};
use crate::decode::{decode_value, mcf_decode_validate};
use crate::encode::{encode_value, mcf_encode_value};
use crate::errors::{MapError, ERR_CANON_HDR, ERR_CANON_MCF, ERR_LIMIT_SIZE};
use crate::text::{hex_digit_str, hex_digits, push_bytes};
use crate::value::{Canon, MapValue};

verus! {

/// The SHA-256 digest of a sequence of octets.
pub uninterp spec fn sha256(data: Seq<u8>) -> Seq<u8>;

/// The SHA-256 digest of `data`, computed by the `sha2` crate: 32 octets that
/// depend on the octets of `data` alone.
#[verifier::external_body]
pub(crate) fn sha256_digest(data: &[u8]) -> (r: Vec<u8>)
    ensures
        r@ == sha256(data@),
        r@.len() == 32,
{
    let mut hasher = Sha256::new();
    hasher.update(data);
    hasher.finalize().to_vec()
}

/// Two lowercase hexadecimal digits for each octet, the high half first.
pub open spec fn hex_lower(bytes: Seq<u8>) -> Seq<char> {
    Seq::new(
        2 * bytes.len(),
        |i: int|
            if i % 2 == 0 {
                hex_digits()[bytes[i / 2] as int / 16]
            } else {
                hex_digits()[bytes[i / 2] as int % 16]
            },
    )
}

/// The identifier of canonical bytes: `map1:` and 64 hexadecimal digits.
pub open spec fn mid_string(canon: Seq<u8>) -> Seq<char> {
    "map1:"@ + hex_lower(sha256(canon))
}

/// Whether a string has the form of an identifier: `map1:` and 64 lowercase
/// hexadecimal digits.
pub open spec fn is_mid(s: Seq<char>) -> bool {
    &&& s.len() == 69
    &&& s.subrange(0, 5) == "map1:"@
    &&& forall|i: int| 5 <= i < 69 ==> hex_digits().contains(#[trigger] s[i])
}

/// The canonical bytes of a value: header and encoding, at most 1 MiB in all.
pub open spec fn canonical_bytes(v: Canon) -> Result<Seq<u8>, &'static str> {
    match encode_value(v, 0) {
        Err(code) => Err(code),
        Ok(body) => if canon_hdr().len() + body.len() > MAX_CANON_BYTES {
            Err(ERR_LIMIT_SIZE)
        } else {
            Ok(canon_hdr() + body)
        },
    }
}

/// The identifier of a value, or the code with which its encoding fails.
pub open spec fn mid_of_value(v: Canon) -> Result<Seq<char>, &'static str> {
    match canonical_bytes(v) {
        Err(code) => Err(code),
        Ok(canon) => Ok(mid_string(canon)),
    }
}

/// Whether octets start with the canonical header.
pub open spec fn has_canon_hdr(bytes: Seq<u8>) -> bool {
    bytes.len() >= 5 && bytes.subrange(0, 5) == canon_hdr()
}

/// The identifier of octets that are handed in as canonical bytes: they have to
/// be at most 1 MiB, start with the header, and hold after it one valid value
/// and nothing more.
pub open spec fn mid_of_canon(bytes: Seq<u8>) -> Result<Seq<char>, &'static str> {
    if bytes.len() > MAX_CANON_BYTES {
        Err(ERR_LIMIT_SIZE)
    } else if !has_canon_hdr(bytes) {
        Err(ERR_CANON_HDR)
    } else {
        match decode_value(bytes, 5, 0) {
            Err(code) => Err(code),
            Ok(end) => if end != bytes.len() {
                Err(ERR_CANON_MCF)
            } else {
                Ok(mid_string(bytes))
            },
        }
    }
}

/// Appends to `out` the lowercase hexadecimal form of `bytes`.
pub fn push_hex_lower(out: &mut String, bytes: &[u8])
    ensures
        final(out)@ == old(out)@ + hex_lower(bytes@),
{
    let mut i: usize = 0;
    while i < bytes.len()
        invariant
            i <= bytes@.len(),
            out@ == old(out)@ + hex_lower(bytes@.take(i as int)),
        decreases bytes@.len() - i,
    {
        let b = bytes[i];
        let ghost before = out@;
        out.append(hex_digit_str(b / 16));
        out.append(hex_digit_str(b % 16));
        proof {
            let t0 = bytes@.take(i as int);
            let t1 = bytes@.take(i + 1);
            assert(out@ == before + seq![hex_digits()[b as int / 16]] + seq![
                hex_digits()[b as int % 16],
            ]);
            assert(hex_lower(t1) =~= hex_lower(t0) + seq![hex_digits()[b as int / 16]] + seq![
                hex_digits()[b as int % 16],
            ]);
            assert(out@ =~= old(out)@ + hex_lower(t1));
        }
        i += 1;
    }
    assert(bytes@.take(i as int) == bytes@);
}

/// The identifier that belongs to a digest: `map1:` and the digest in
/// lowercase hexadecimal.
pub fn mid_from_digest(digest: &[u8]) -> (mid: String)
    ensures
        mid@ == "map1:"@ + hex_lower(digest@),
{
    let mut mid = String::from_str("map1:");
    push_hex_lower(&mut mid, digest);
    mid
}

/// The identifier of canonical bytes.
pub(crate) fn mid_from_digest_of(canon: &[u8]) -> (mid: String)
    ensures
        mid@ == mid_string(canon@),
        is_mid(mid@),
{
    let digest = sha256_digest(canon);
    proof {
        lemma_mid_string_shape(canon@);
    }
    mid_from_digest(digest.as_slice())
}

/// An identifier is `map1:` and 64 lowercase hexadecimal digits: 69 characters.
pub proof fn lemma_mid_string_shape(canon: Seq<u8>)
    requires
        sha256(canon).len() == 32,
    ensures
        is_mid(mid_string(canon)),
{
    reveal_strlit("map1:");
    let m = mid_string(canon);
    let h = hex_lower(sha256(canon));
    assert(m.subrange(0, 5) =~= "map1:"@);
    assert forall|i: int| 5 <= i < 69 implies hex_digits().contains(#[trigger] m[i]) by {
        let j = i - 5;
        let b = sha256(canon)[j / 2] as int;
        assert(m[i] == h[j]);
        if j % 2 == 0 {
            assert(h[j] == hex_digits()[b / 16]);
        } else {
            assert(h[j] == hex_digits()[b % 16]);
        }
    }
}

/// The canonical bytes of a value: the canonical header and the encoding of the
/// value, rejected where they come to more than 1 MiB.
pub fn canon_bytes_from_value(val: &MapValue) -> (r: Result<Vec<u8>, MapError>)
    ensures
        match r {
            Ok(canon) => canonical_bytes(val@) == Ok::<Seq<u8>, &'static str>(canon@),
            Err(e) => canonical_bytes(val@) == Err::<Seq<u8>, &'static str>(e.code),
        },
{
    let body = match mcf_encode_value(val, 0) {
        Ok(body) => body,
        Err(e) => {
            return Err(e);
        },
    };
    proof {
        lemma_canon_hdr();
    }
    if body.len() > MAX_CANON_BYTES - 5 {
        return Err(MapError::new(ERR_LIMIT_SIZE, "canon bytes exceed MAX_CANON_BYTES"));
    }
    let mut canon: Vec<u8> = Vec::new();
    canon.push(CANON_HDR[0]);
    canon.push(CANON_HDR[1]);
    canon.push(CANON_HDR[2]);
    canon.push(CANON_HDR[3]);
    canon.push(CANON_HDR[4]);
    assert(canon@ =~= canon_hdr());
    push_bytes(&mut canon, body.as_slice());
    Ok(canon)
}

/// The identifier of a value.
pub fn mid_from_value(val: &MapValue) -> (r: Result<String, MapError>)
    ensures
        match r {
            Ok(mid) => mid_of_value(val@) == Ok::<Seq<char>, &'static str>(mid@),
            Err(e) => mid_of_value(val@) == Err::<Seq<char>, &'static str>(e.code),
        },
        r matches Ok(mid) ==> is_mid(mid@),
{
    match canon_bytes_from_value(val) {
        Err(e) => Err(e),
        Ok(canon) => Ok(mid_from_digest_of(canon.as_slice())),
    }
}

/// The identifier of octets handed in as canonical bytes. The octets are
/// validated in full and then hashed as they are, without encoding them anew.
pub fn mid_from_canon_bytes(canon: &[u8]) -> (r: Result<String, MapError>)
    ensures
        match r {
            Ok(mid) => mid_of_canon(canon@) == Ok::<Seq<char>, &'static str>(mid@),
            Err(e) => mid_of_canon(canon@) == Err::<Seq<char>, &'static str>(e.code),
        },
        canon@.len() > MAX_CANON_BYTES ==> r is Err && r->Err_0.code == ERR_LIMIT_SIZE,
        r matches Ok(mid) ==> is_mid(mid@),
{
    if canon.len() > MAX_CANON_BYTES {
        return Err(MapError::new(ERR_LIMIT_SIZE, "canon bytes exceed MAX_CANON_BYTES"));
    }
    proof {
        lemma_canon_hdr();
    }
    if canon.len() < 5 || canon[0] != CANON_HDR[0] || canon[1] != CANON_HDR[1] || canon[2]
        != CANON_HDR[2] || canon[3] != CANON_HDR[3] || canon[4] != CANON_HDR[4] {
        assert(!has_canon_hdr(canon@)) by {
            if canon@.len() >= 5 {
                let h = canon@.subrange(0, 5);
                assert(h[0] == canon@[0] && h[1] == canon@[1] && h[2] == canon@[2] && h[3]
                    == canon@[3] && h[4] == canon@[4]);
            }
        }
        return Err(MapError::new(ERR_CANON_HDR, "bad CANON_HDR"));
    }
    assert(canon@.subrange(0, 5) =~= canon_hdr());
    let end = match mcf_decode_validate(canon, 5, 0) {
        Ok(end) => end,
        Err(e) => {
            return Err(e);
        },
    };
    if end != canon.len() {
        return Err(MapError::new(ERR_CANON_MCF, "trailing bytes after MCF root"));
    }
    Ok(mid_from_digest_of(canon))
}

} // verus!
