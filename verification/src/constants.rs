//! Canonical header, type tags and normative limits of the MAP v1.1 format.

use vstd::prelude::*;

verus! {

/// Version of the format that this library implements.
pub const SPEC_VERSION: &'static str = "1.1";

/// The five octets that open every canonical byte string: ASCII "MAP1" and NUL.
/// The `1` is the major version of the framing and is frozen.
pub const CANON_HDR: [u8; 5] = [0x4D, 0x41, 0x50, 0x31, 0x00];

pub const TAG_STRING: u8 = 0x01;

pub const TAG_BYTES: u8 = 0x02;

pub const TAG_LIST: u8 = 0x03;

pub const TAG_MAP: u8 = 0x04;

/// Payload is one octet: 0x01 for true, 0x00 for false.
pub const TAG_BOOLEAN: u8 = 0x05;

/// Payload is eight octets: the integer in two's complement, big-endian.
pub const TAG_INTEGER: u8 = 0x06;

/// Largest length of canonical bytes, header included (1 MiB).
pub const MAX_CANON_BYTES: usize = 1_048_576;

/// Largest nesting depth of LIST and MAP containers.
pub const MAX_DEPTH: u32 = 32;

/// Largest number of entries of one MAP.
pub const MAX_MAP_ENTRIES: u32 = 65_535;

/// Largest number of entries of one LIST.
pub const MAX_LIST_ENTRIES: u32 = 65_535;

/// The canonical header as a sequence of octets.
pub open spec fn canon_hdr() -> Seq<u8> {
    seq![0x4Du8, 0x41u8, 0x50u8, 0x31u8, 0x00u8]
}

/// The canonical header holds exactly the octets of `canon_hdr`.
pub proof fn lemma_canon_hdr()
    ensures
        CANON_HDR@ == canon_hdr(),
        CANON_HDR@.len() == 5,
{
    assert(CANON_HDR@ =~= canon_hdr());
}

} // verus!
