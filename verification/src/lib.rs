//! Deterministic identifiers for structured descriptors.
//!
//! A descriptor is a tree of six kinds of value. Its canonical bytes are a
//! fixed header and a bit-exact binary encoding; its identifier, the MID, is
//! `map1:` followed by the SHA-256 digest of the canonical bytes in lowercase
//! hexadecimal. A descriptor can be handed in as a `MapValue`, as JSON octets
//! under the JSON-STRICT rules, or as canonical bytes that are validated and
//! hashed as they are.

use vstd::prelude::*;

pub mod bind_laws;
pub mod constants;
pub mod decode;
pub mod decoded;
pub mod encode;
pub mod errors;
pub mod json_adapter;
pub mod json_number;
pub mod json_object;
pub mod json_parse;
pub mod json_tree;
pub mod laws;
pub mod member_order;
pub mod mid;
pub mod pointer;
pub mod projection;
pub mod repeats;
pub mod roundtrip;
pub mod sorted;
pub mod text;
pub mod unique;
pub mod value;

pub use crate::constants::SPEC_VERSION;
pub use crate::errors::{
    MapError, ERR_CANON_HDR, ERR_CANON_MCF, ERR_DUP_KEY, ERR_KEY_ORDER, ERR_LIMIT_DEPTH,
    ERR_LIMIT_SIZE, ERR_SCHEMA, ERR_TYPE, ERR_UTF8,
};
pub use crate::json_tree::ParsedJson;
pub use crate::value::MapValue;

use crate::constants::MAX_CANON_BYTES;
use crate::json_adapter::{json_strict, parse_json_strict, report_with_dup, reported};
use crate::mid::{
    canon_bytes_from_value, canonical_bytes, is_mid, mid_from_digest_of, mid_from_value, mid_of_canon,
    mid_of_value, mid_string,
};
use crate::projection::{bind, bind_project, full_project, pointer_views};
use crate::value::Canon;

verus! {

/// The canonical bytes of the BIND projection of a descriptor.
pub open spec fn canonical_bytes_of_bind(desc: Canon, ptrs: Seq<Seq<char>>) -> Result<
    Seq<u8>,
    &'static str,
> {
    match bind(desc, ptrs) {
        None => Err(ERR_SCHEMA),
        Some(v) => canonical_bytes(v),
    }
}

/// The identifier of the BIND projection of a descriptor.
pub open spec fn mid_of_bind(desc: Canon, ptrs: Seq<Seq<char>>) -> Result<
    Seq<char>,
    &'static str,
> {
    match bind(desc, ptrs) {
        None => Err(ERR_SCHEMA),
        Some(v) => mid_of_value(v),
    }
}

/// The identifier of a value that came from JSON, where `dup` says whether the
/// text held equal keys: with equal keys there is no identifier, and the
/// duplicate is reported unless the encoding fails with a code that wins over
/// it.
pub open spec fn mid_of_parsed(v: Canon, dup: bool) -> Result<Seq<char>, &'static str> {
    match canonical_bytes(v) {
        Err(code) => Err(reported(code, dup)),
        Ok(canon) => if dup {
            Err(ERR_DUP_KEY)
        } else {
            Ok(mid_string(canon))
        },
    }
}

/// The identifier of a JSON-STRICT text.
pub open spec fn mid_of_json(raw: Seq<u8>) -> Result<Seq<char>, &'static str> {
    match json_strict(raw) {
        Err(code) => Err(code),
        Ok((v, dup)) => mid_of_parsed(v, dup),
    }
}

/// The identifier of the BIND projection of a JSON-STRICT text.
pub open spec fn mid_of_json_bind(raw: Seq<u8>, ptrs: Seq<Seq<char>>) -> Result<
    Seq<char>,
    &'static str,
> {
    match json_strict(raw) {
        Err(code) => Err(code),
        Ok((v, dup)) => match bind(v, ptrs) {
            None => Err(ERR_SCHEMA),
            Some(p) => mid_of_parsed(p, dup),
        },
    }
}

/// The identifier of the whole descriptor.
pub fn mid_full(descriptor: &MapValue) -> (r: Result<String, MapError>)
    ensures
        match r {
            Ok(mid) => mid_of_value(descriptor@) == Ok::<Seq<char>, &'static str>(mid@),
            Err(e) => mid_of_value(descriptor@) == Err::<Seq<char>, &'static str>(e.code),
        },
        r matches Ok(mid) ==> is_mid(mid@),
{
    let val = full_project(descriptor);
    mid_from_value(&val)
}

/// The identifier of what the pointers select in the descriptor.
pub fn mid_bind(descriptor: &MapValue, pointers: &[&str]) -> (r: Result<String, MapError>)
    ensures
        match r {
            Ok(mid) => mid_of_bind(descriptor@, pointer_views(pointers@)) == Ok::<
                Seq<char>,
                &'static str,
            >(mid@),
            Err(e) => mid_of_bind(descriptor@, pointer_views(pointers@)) == Err::<
                Seq<char>,
                &'static str,
            >(e.code),
        },
        r matches Ok(mid) ==> is_mid(mid@),
{
    let val = match bind_project(descriptor, pointers) {
        Ok(val) => val,
        Err(e) => {
            return Err(e);
        },
    };
    mid_from_value(&val)
}

/// The canonical bytes of the whole descriptor.
pub fn canonical_bytes_full(descriptor: &MapValue) -> (r: Result<Vec<u8>, MapError>)
    ensures
        match r {
            Ok(canon) => canonical_bytes(descriptor@) == Ok::<Seq<u8>, &'static str>(canon@),
            Err(e) => canonical_bytes(descriptor@) == Err::<Seq<u8>, &'static str>(e.code),
        },
{
    let val = full_project(descriptor);
    canon_bytes_from_value(&val)
}

/// The canonical bytes of what the pointers select in the descriptor.
pub fn canonical_bytes_bind(descriptor: &MapValue, pointers: &[&str]) -> (r: Result<
    Vec<u8>,
    MapError,
>)
    ensures
        match r {
            Ok(canon) => canonical_bytes_of_bind(descriptor@, pointer_views(pointers@)) == Ok::<
                Seq<u8>,
                &'static str,
            >(canon@),
            Err(e) => canonical_bytes_of_bind(descriptor@, pointer_views(pointers@)) == Err::<
                Seq<u8>,
                &'static str,
            >(e.code),
        },
{
    let val = match bind_project(descriptor, pointers) {
        Ok(val) => val,
        Err(e) => {
            return Err(e);
        },
    };
    canon_bytes_from_value(&val)
}

/// The identifier of a value that came from JSON. With equal keys on record
/// there is no identifier: the duplicate is reported, unless the encoding fails
/// with a code that wins over it.
pub fn mid_from_parsed(val: &MapValue, dup_found: bool) -> (r: Result<String, MapError>)
    ensures
        match r {
            Ok(mid) => mid_of_parsed(val@, dup_found) == Ok::<Seq<char>, &'static str>(mid@),
            Err(e) => mid_of_parsed(val@, dup_found) == Err::<Seq<char>, &'static str>(e.code),
        },
        r matches Ok(mid) ==> is_mid(mid@),
{
    let canon = match canon_bytes_from_value(val) {
        Ok(canon) => canon,
        Err(e) => {
            return Err(report_with_dup(e, dup_found));
        },
    };
    if dup_found {
        return Err(MapError::new(ERR_DUP_KEY, "duplicate key in JSON"));
    }
    Ok(mid_from_digest_of(canon.as_slice()))
}

/// The identifier of the descriptor that JSON octets hold, under the
/// JSON-STRICT rules.
pub fn mid_full_json(raw: &[u8]) -> (r: Result<String, MapError>)
    ensures
        match r {
            Ok(mid) => mid_of_json(raw@) == Ok::<Seq<char>, &'static str>(mid@),
            Err(e) => mid_of_json(raw@) == Err::<Seq<char>, &'static str>(e.code),
        },
        raw@.len() > MAX_CANON_BYTES ==> r is Err && r->Err_0.code == ERR_LIMIT_SIZE,
        r matches Ok(mid) ==> is_mid(mid@),
{
    let (val, dup_found) = match parse_json_strict(raw) {
        Ok(pair) => pair,
        Err(e) => {
            return Err(e);
        },
    };
    mid_from_parsed(&val, dup_found)
}

/// The identifier of what the pointers select in the descriptor that JSON
/// octets hold, under the JSON-STRICT rules.
pub fn mid_bind_json(raw: &[u8], pointers: &[&str]) -> (r: Result<String, MapError>)
    ensures
        match r {
            Ok(mid) => mid_of_json_bind(raw@, pointer_views(pointers@)) == Ok::<
                Seq<char>,
                &'static str,
            >(mid@),
            Err(e) => mid_of_json_bind(raw@, pointer_views(pointers@)) == Err::<
                Seq<char>,
                &'static str,
            >(e.code),
        },
        raw@.len() > MAX_CANON_BYTES ==> r is Err && r->Err_0.code == ERR_LIMIT_SIZE,
        r matches Ok(mid) ==> is_mid(mid@),
{
    let (val, dup_found) = match parse_json_strict(raw) {
        Ok(pair) => pair,
        Err(e) => {
            return Err(e);
        },
    };
    let projected = match bind_project(&val, pointers) {
        Ok(projected) => projected,
        Err(e) => {
            return Err(e);
        },
    };
    mid_from_parsed(&projected, dup_found)
}

/// The identifier of octets handed in as canonical bytes: they are validated
/// in full and hashed as they are.
pub fn mid_from_canon_bytes(canon: &[u8]) -> (r: Result<String, MapError>)
    ensures
        match r {
            Ok(mid) => mid_of_canon(canon@) == Ok::<Seq<char>, &'static str>(mid@),
            Err(e) => mid_of_canon(canon@) == Err::<Seq<char>, &'static str>(e.code),
        },
        canon@.len() > MAX_CANON_BYTES ==> r is Err && r->Err_0.code == ERR_LIMIT_SIZE,
        r matches Ok(mid) ==> is_mid(mid@),
{
    crate::mid::mid_from_canon_bytes(canon)
}

} // verus!
