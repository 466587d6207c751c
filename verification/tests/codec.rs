//! Tests of the encoder, the validating decoder, canonical bytes and identifiers.

use map1::decode::mcf_decode_validate;
use map1::encode::{
    key_order, mcf_encode_value, validate_utf8_scalar, validate_utf8_scalar_bytes, KeyOrder,
};
use map1::errors::{choose_reported_error, MapError};
use map1::mid::{canon_bytes_from_value, mid_from_digest, mid_from_value, push_hex_lower};
use map1::{
    canonical_bytes_full, mid_from_canon_bytes, mid_full, MapValue, ERR_CANON_HDR,
    ERR_CANON_MCF, ERR_DUP_KEY, ERR_KEY_ORDER, ERR_LIMIT_DEPTH, ERR_LIMIT_SIZE, ERR_SCHEMA,
    ERR_TYPE, ERR_UTF8,
};

fn text(s: &str) -> MapValue {
    MapValue::String(s.to_string())
}

fn nested_maps(levels: usize) -> MapValue {
    let mut v = MapValue::Mapping(vec![]);
    for _ in 1..levels {
        v = MapValue::Mapping(vec![("a".to_string(), v)]);
    }
    v
}

fn nested_lists(levels: usize) -> MapValue {
    let mut v = MapValue::List(vec![]);
    for _ in 1..levels {
        v = MapValue::List(vec![v]);
    }
    v
}

fn with_header(body: &[u8]) -> Vec<u8> {
    let mut v = vec![0x4D, 0x41, 0x50, 0x31, 0x00];
    v.extend_from_slice(body);
    v
}

#[test]
fn encodes_boolean() {
    assert_eq!(mcf_encode_value(&MapValue::Boolean(true), 0).unwrap(), vec![0x05, 0x01]);
    assert_eq!(mcf_encode_value(&MapValue::Boolean(false), 0).unwrap(), vec![0x05, 0x00]);
}

#[test]
fn encodes_integer_big_endian_twos_complement() {
    assert_eq!(
        mcf_encode_value(&MapValue::Integer(42), 0).unwrap(),
        vec![0x06, 0, 0, 0, 0, 0, 0, 0, 0x2A]
    );
    assert_eq!(
        mcf_encode_value(&MapValue::Integer(-1), 0).unwrap(),
        vec![0x06, 0xFF, 0xFF, 0xFF, 0xFF, 0xFF, 0xFF, 0xFF, 0xFF]
    );
    assert_eq!(
        mcf_encode_value(&MapValue::Integer(i64::MIN), 0).unwrap(),
        vec![0x06, 0x80, 0, 0, 0, 0, 0, 0, 0]
    );
    assert_eq!(
        mcf_encode_value(&MapValue::Integer(i64::MAX), 0).unwrap(),
        vec![0x06, 0x7F, 0xFF, 0xFF, 0xFF, 0xFF, 0xFF, 0xFF, 0xFF]
    );
    assert_eq!(
        mcf_encode_value(&MapValue::Integer(0x0102030405060708), 0).unwrap(),
        vec![0x06, 1, 2, 3, 4, 5, 6, 7, 8]
    );
}

#[test]
fn encodes_string_and_bytes_with_length() {
    assert_eq!(
        mcf_encode_value(&text("true"), 0).unwrap(),
        vec![0x01, 0, 0, 0, 4, 0x74, 0x72, 0x75, 0x65]
    );
    assert_eq!(mcf_encode_value(&text(""), 0).unwrap(), vec![0x01, 0, 0, 0, 0]);
    assert_eq!(
        mcf_encode_value(&text("\u{e9}"), 0).unwrap(),
        vec![0x01, 0, 0, 0, 2, 0xC3, 0xA9]
    );
    assert_eq!(
        mcf_encode_value(&MapValue::Bytes(vec![0x00, 0xFF]), 0).unwrap(),
        vec![0x02, 0, 0, 0, 2, 0x00, 0xFF]
    );
    let long = MapValue::Bytes(vec![7u8; 0x0102]);
    let enc = mcf_encode_value(&long, 0).unwrap();
    assert_eq!(&enc[..5], &[0x02, 0x00, 0x00, 0x01, 0x02]);
    assert_eq!(enc.len(), 5 + 0x0102);
}

#[test]
fn encodes_nested_containers() {
    let v = MapValue::Mapping(vec![
        ("b".to_string(), MapValue::Bytes(vec![0x00, 0xFF])),
        (
            "l".to_string(),
            MapValue::List(vec![MapValue::Boolean(false), MapValue::Integer(7), text("\u{e9}")]),
        ),
    ]);
    let expected: Vec<u8> = vec![
        0x4D, 0x41, 0x50, 0x31, 0x00, 0x04, 0x00, 0x00, 0x00, 0x02, 0x01, 0x00, 0x00, 0x00, 0x01,
        0x62, 0x02, 0x00, 0x00, 0x00, 0x02, 0x00, 0xFF, 0x01, 0x00, 0x00, 0x00, 0x01, 0x6C, 0x03,
        0x00, 0x00, 0x00, 0x03, 0x05, 0x00, 0x06, 0x00, 0x00, 0x00, 0x00, 0x00, 0x00, 0x00, 0x07,
        0x01, 0x00, 0x00, 0x00, 0x02, 0xC3, 0xA9,
    ];
    assert_eq!(canonical_bytes_full(&v).unwrap(), expected);
    assert_eq!(canon_bytes_from_value(&v).unwrap(), expected);
    assert_eq!(
        mid_full(&v).unwrap(),
        "map1:28b6d42ce29991aa5537e64131731fe222138cf4c50eaf6f9436e8f50440b625"
    );
}

#[test]
fn identifier_is_sha256_of_canonical_bytes() {
    assert_eq!(
        mid_full(&MapValue::Mapping(vec![])).unwrap(),
        "map1:c67223b733f8def290e67077621379eef3565ac3940462b8491c7f0834894816"
    );
    assert_eq!(
        mid_from_value(&MapValue::Boolean(true)).unwrap(),
        "map1:725480164f1866ff09e52192d3a6e4ed30814b7ad2eadf01e2c47225ffd5ca53"
    );
    assert_eq!(
        mid_from_canon_bytes(&[0x4D, 0x41, 0x50, 0x31, 0x00, 0x05, 0x01]).unwrap(),
        "map1:725480164f1866ff09e52192d3a6e4ed30814b7ad2eadf01e2c47225ffd5ca53"
    );
}

#[test]
fn identifier_has_lowercase_hex_form() {
    let mid = mid_full(&MapValue::Integer(-1)).unwrap();
    assert_eq!(mid, "map1:bf46f537360def53a8127092b48905ec70b68b1af5950f4c8b7ef37018d85321");
    assert_eq!(mid.len(), 69);
    assert!(mid[5..].chars().all(|c| c.is_ascii_digit() || ('a'..='f').contains(&c)));
}

#[test]
fn bool_and_string_have_different_canonical_bytes() {
    let b = MapValue::Mapping(vec![("v".to_string(), MapValue::Boolean(true))]);
    let s = MapValue::Mapping(vec![("v".to_string(), text("true"))]);
    assert_eq!(
        canonical_bytes_full(&b).unwrap(),
        vec![
            0x4D, 0x41, 0x50, 0x31, 0x00, 0x04, 0x00, 0x00, 0x00, 0x01, 0x01, 0x00, 0x00, 0x00,
            0x01, 0x76, 0x05, 0x01
        ]
    );
    assert_ne!(canonical_bytes_full(&b).unwrap(), canonical_bytes_full(&s).unwrap());
    let zero = MapValue::Mapping(vec![("v".to_string(), MapValue::Integer(0))]);
    let zero_text = MapValue::Mapping(vec![("v".to_string(), text("0"))]);
    assert_ne!(mid_full(&zero).unwrap(), mid_full(&zero_text).unwrap());
}

#[test]
fn key_order_is_by_unsigned_octets() {
    assert!(matches!(key_order(&[0x7F], &[0x80]), KeyOrder::Less));
    assert!(matches!(key_order(&[0x80], &[0x7F]), KeyOrder::Greater));
    assert!(matches!(key_order(&[0x61], &[0x61]), KeyOrder::Equal));
    assert!(matches!(key_order(&[0x61], &[0x61, 0x00]), KeyOrder::Less));
    assert!(matches!(key_order(&[], &[0x00]), KeyOrder::Less));
    assert!(matches!(key_order(&[0x7A], &[0xC3, 0xA9]), KeyOrder::Less));
}

#[test]
fn keys_7f_and_80_sort_by_their_utf8_octets() {
    let good = MapValue::Mapping(vec![
        ("\u{7f}".to_string(), MapValue::Integer(1)),
        ("\u{80}".to_string(), MapValue::Integer(2)),
    ]);
    assert!(mid_full(&good).is_ok());
    let bad = MapValue::Mapping(vec![
        ("\u{80}".to_string(), MapValue::Integer(2)),
        ("\u{7f}".to_string(), MapValue::Integer(1)),
    ]);
    assert_eq!(mid_full(&bad).unwrap_err().code, ERR_KEY_ORDER);
}

#[test]
fn astral_key_sorts_after_bmp_key() {
    // U+FFFF is EF BF BF, U+10000 is F0 90 80 80.
    let good = MapValue::Mapping(vec![
        ("\u{ffff}".to_string(), MapValue::Integer(1)),
        ("\u{10000}".to_string(), MapValue::Integer(2)),
    ]);
    assert!(mid_full(&good).is_ok());
    let z_then_accent = MapValue::Mapping(vec![
        ("z".to_string(), MapValue::Integer(1)),
        ("\u{e9}".to_string(), MapValue::Integer(2)),
    ]);
    assert!(mid_full(&z_then_accent).is_ok());
}

#[test]
fn duplicate_is_reported_before_later_misorder() {
    let v = MapValue::Mapping(vec![
        ("a".to_string(), MapValue::Integer(1)),
        ("a".to_string(), MapValue::Integer(2)),
        ("0".to_string(), MapValue::Integer(3)),
    ]);
    assert_eq!(mcf_encode_value(&v, 0).unwrap_err().code, ERR_DUP_KEY);
    let w = MapValue::Mapping(vec![
        ("b".to_string(), MapValue::Integer(1)),
        ("a".to_string(), MapValue::Integer(2)),
        ("a".to_string(), MapValue::Integer(3)),
    ]);
    assert_eq!(mcf_encode_value(&w, 0).unwrap_err().code, ERR_KEY_ORDER);
}

#[test]
fn depth_32_is_accepted_and_33_is_not() {
    assert!(mid_full(&nested_maps(32)).is_ok());
    assert_eq!(mid_full(&nested_maps(33)).unwrap_err().code, ERR_LIMIT_DEPTH);
    assert!(mid_full(&nested_lists(32)).is_ok());
    assert_eq!(mid_full(&nested_lists(33)).unwrap_err().code, ERR_LIMIT_DEPTH);
    assert!(mcf_encode_value(&MapValue::List(vec![]), 31).is_ok());
    assert_eq!(
        mcf_encode_value(&MapValue::List(vec![]), 32).unwrap_err().code,
        ERR_LIMIT_DEPTH
    );
    assert_eq!(
        mcf_encode_value(&MapValue::Mapping(vec![]), u32::MAX).unwrap_err().code,
        ERR_LIMIT_DEPTH
    );
    assert!(mcf_encode_value(&MapValue::Integer(1), u32::MAX).is_ok());
}

#[test]
fn entry_counts_are_limited() {
    let ok = MapValue::List(vec![MapValue::Boolean(true); 65_535]);
    assert!(mcf_encode_value(&ok, 0).is_ok());
    let too_many = MapValue::List(vec![MapValue::Boolean(true); 65_536]);
    assert_eq!(mcf_encode_value(&too_many, 0).unwrap_err().code, ERR_LIMIT_SIZE);
    assert_eq!(mid_full(&too_many).unwrap_err().code, ERR_LIMIT_SIZE);
}

#[test]
fn canonical_bytes_are_limited_to_one_mebibyte() {
    // Header 5, tag 1, length 4: the payload may have 1 048 566 octets.
    let fits = MapValue::Bytes(vec![0u8; 1_048_576 - 10]);
    assert_eq!(canonical_bytes_full(&fits).unwrap().len(), 1_048_576);
    let too_long = MapValue::Bytes(vec![0u8; 1_048_576 - 9]);
    assert_eq!(canonical_bytes_full(&too_long).unwrap_err().code, ERR_LIMIT_SIZE);
    assert_eq!(mid_full(&too_long).unwrap_err().code, ERR_LIMIT_SIZE);
    // The encoder alone has no such limit.
    assert!(mcf_encode_value(&too_long, 0).is_ok());
}

#[test]
fn round_trip_gives_the_same_identifier() {
    let values = vec![
        MapValue::Mapping(vec![]),
        MapValue::Integer(i64::MIN),
        text("\u{0}\u{10ffff}"),
        nested_maps(32),
        MapValue::Mapping(vec![
            ("cfg".to_string(), MapValue::Mapping(vec![("port".to_string(), MapValue::Integer(8080))])),
            ("name".to_string(), text("x")),
        ]),
        MapValue::List(vec![MapValue::Bytes(vec![1, 2, 3]), MapValue::Boolean(false)]),
    ];
    for v in &values {
        let canon = canonical_bytes_full(v).unwrap();
        assert_eq!(mid_from_canon_bytes(&canon).unwrap(), mid_full(v).unwrap());
    }
}

#[test]
fn clone_is_equal_to_the_value() {
    let v = MapValue::Mapping(vec![
        ("a".to_string(), MapValue::List(vec![MapValue::Bytes(vec![9]), text("s")])),
        ("b".to_string(), MapValue::Integer(-5)),
    ]);
    assert_eq!(v.clone(), v);
}

#[test]
fn trailing_octet_after_root_is_rejected() {
    let v = MapValue::Mapping(vec![("a".to_string(), MapValue::Integer(1))]);
    let mut canon = canonical_bytes_full(&v).unwrap();
    canon.push(0x00);
    assert_eq!(mid_from_canon_bytes(&canon).unwrap_err().code, ERR_CANON_MCF);
}

#[test]
fn bad_boolean_payload_is_a_format_error() {
    assert_eq!(
        mid_from_canon_bytes(&with_header(&[0x05, 0x02])).unwrap_err().code,
        ERR_CANON_MCF
    );
    assert_eq!(
        mid_from_canon_bytes(&with_header(&[0x05, 0xFF])).unwrap_err().code,
        ERR_CANON_MCF
    );
    assert!(mid_from_canon_bytes(&with_header(&[0x05, 0x00])).is_ok());
}

#[test]
fn header_is_checked_before_the_body() {
    assert_eq!(mid_from_canon_bytes(&[]).unwrap_err().code, ERR_CANON_HDR);
    assert_eq!(mid_from_canon_bytes(&[0x4D, 0x41, 0x50, 0x31]).unwrap_err().code, ERR_CANON_HDR);
    assert_eq!(
        mid_from_canon_bytes(&[0x4D, 0x41, 0x50, 0x32, 0x00, 0x05, 0x01]).unwrap_err().code,
        ERR_CANON_HDR
    );
    // A wrong header wins over a faulty body.
    assert_eq!(
        mid_from_canon_bytes(&[0x00, 0x41, 0x50, 0x31, 0x00, 0x99]).unwrap_err().code,
        ERR_CANON_HDR
    );
    assert_eq!(mid_from_canon_bytes(&with_header(&[])).unwrap_err().code, ERR_CANON_MCF);
}

#[test]
fn size_is_checked_before_the_header() {
    let big = vec![0u8; 1_048_577];
    assert_eq!(mid_from_canon_bytes(&big).unwrap_err().code, ERR_LIMIT_SIZE);
    let exact = vec![0u8; 1_048_576];
    assert_eq!(mid_from_canon_bytes(&exact).unwrap_err().code, ERR_CANON_HDR);
}

#[test]
fn decoder_reports_truncation_and_unknown_tags() {
    assert_eq!(mcf_decode_validate(&[], 0, 0).unwrap_err().code, ERR_CANON_MCF);
    assert_eq!(mcf_decode_validate(&[0x05, 0x01], 2, 0).unwrap_err().code, ERR_CANON_MCF);
    assert_eq!(mcf_decode_validate(&[0x05, 0x01], usize::MAX, 0).unwrap_err().code, ERR_CANON_MCF);
    assert_eq!(mcf_decode_validate(&[0x00], 0, 0).unwrap_err().code, ERR_CANON_MCF);
    assert_eq!(mcf_decode_validate(&[0x07], 0, 0).unwrap_err().code, ERR_CANON_MCF);
    assert_eq!(mcf_decode_validate(&[0x05], 0, 0).unwrap_err().code, ERR_CANON_MCF);
    assert_eq!(mcf_decode_validate(&[0x01, 0, 0], 0, 0).unwrap_err().code, ERR_CANON_MCF);
    assert_eq!(mcf_decode_validate(&[0x01, 0, 0, 0, 2, 0x61], 0, 0).unwrap_err().code, ERR_CANON_MCF);
    assert_eq!(mcf_decode_validate(&[0x02, 0xFF, 0xFF, 0xFF, 0xFF], 0, 0).unwrap_err().code, ERR_CANON_MCF);
    assert_eq!(mcf_decode_validate(&[0x06, 0, 0, 0, 0, 0, 0, 0], 0, 0).unwrap_err().code, ERR_CANON_MCF);
    assert_eq!(mcf_decode_validate(&[0x03, 0, 0, 0, 1], 0, 0).unwrap_err().code, ERR_CANON_MCF);
    assert_eq!(mcf_decode_validate(&[0x04, 0, 0, 0, 1], 0, 0).unwrap_err().code, ERR_CANON_MCF);
}

#[test]
fn decoder_returns_the_offset_after_the_value() {
    assert_eq!(mcf_decode_validate(&[0x05, 0x01, 0x99], 0, 0).unwrap(), 2);
    assert_eq!(mcf_decode_validate(&[0x99, 0x06, 1, 2, 3, 4, 5, 6, 7, 8], 1, 0).unwrap(), 10);
    assert_eq!(mcf_decode_validate(&[0x06, 0xFF, 0xFF, 0xFF, 0xFF, 0xFF, 0xFF, 0xFF, 0xFF], 0, 0).unwrap(), 9);
    assert_eq!(mcf_decode_validate(&[0x01, 0, 0, 0, 2, 0xC3, 0xA9], 0, 0).unwrap(), 7);
    assert_eq!(mcf_decode_validate(&[0x02, 0, 0, 0, 2, 0xFF, 0xFE], 0, 0).unwrap(), 7);
    assert_eq!(mcf_decode_validate(&[0x03, 0, 0, 0, 2, 0x05, 0x00, 0x05, 0x01], 0, 0).unwrap(), 9);
    let map = [0x04, 0, 0, 0, 2, 0x01, 0, 0, 0, 1, 0x61, 0x05, 0x00, 0x01, 0, 0, 0, 1, 0x62, 0x05, 0x01];
    assert_eq!(mcf_decode_validate(&map, 0, 0).unwrap(), 21);
}

#[test]
fn decoder_checks_strings_and_keys() {
    // A lone continuation octet is no UTF-8.
    assert_eq!(mcf_decode_validate(&[0x01, 0, 0, 0, 1, 0x80], 0, 0).unwrap_err().code, ERR_UTF8);
    // An encoded surrogate, ED A0 80, is no UTF-8.
    assert_eq!(
        mcf_decode_validate(&[0x01, 0, 0, 0, 3, 0xED, 0xA0, 0x80], 0, 0).unwrap_err().code,
        ERR_UTF8
    );
    // An overlong form of '/', C0 AF, is no UTF-8.
    assert_eq!(
        mcf_decode_validate(&[0x04, 0, 0, 0, 1, 0x01, 0, 0, 0, 2, 0xC0, 0xAF, 0x05, 0x01], 0, 0)
            .unwrap_err()
            .code,
        ERR_UTF8
    );
    // A key has to be a STRING.
    assert_eq!(
        mcf_decode_validate(&[0x04, 0, 0, 0, 1, 0x02, 0, 0, 0, 1, 0x61, 0x05, 0x01], 0, 0)
            .unwrap_err()
            .code,
        ERR_SCHEMA
    );
    let dup = [0x04, 0, 0, 0, 2, 0x01, 0, 0, 0, 1, 0x61, 0x05, 0x00, 0x01, 0, 0, 0, 1, 0x61, 0x05, 0x01];
    assert_eq!(mcf_decode_validate(&dup, 0, 0).unwrap_err().code, ERR_DUP_KEY);
    let misordered = [0x04, 0, 0, 0, 2, 0x01, 0, 0, 0, 1, 0x62, 0x05, 0x00, 0x01, 0, 0, 0, 1, 0x61, 0x05, 0x01];
    assert_eq!(mcf_decode_validate(&misordered, 0, 0).unwrap_err().code, ERR_KEY_ORDER);
}

#[test]
fn decoder_checks_depth_and_counts() {
    assert!(mcf_decode_validate(&[0x03, 0, 0, 0, 0], 0, 31).is_ok());
    assert_eq!(mcf_decode_validate(&[0x03, 0, 0, 0, 0], 0, 32).unwrap_err().code, ERR_LIMIT_DEPTH);
    assert_eq!(mcf_decode_validate(&[0x04, 0, 0, 0, 0], 0, u32::MAX).unwrap_err().code, ERR_LIMIT_DEPTH);
    // Depth is checked before the count is read.
    assert_eq!(mcf_decode_validate(&[0x03], 0, 32).unwrap_err().code, ERR_LIMIT_DEPTH);
    assert_eq!(mcf_decode_validate(&[0x03, 0, 1, 0, 0], 0, 0).unwrap_err().code, ERR_LIMIT_SIZE);
    assert_eq!(mcf_decode_validate(&[0x04, 0, 1, 0, 0], 0, 0).unwrap_err().code, ERR_LIMIT_SIZE);
    assert_eq!(mcf_decode_validate(&[0x03, 0, 0, 0xFF, 0xFF], 0, 0).unwrap_err().code, ERR_CANON_MCF);
    let mut deep: Vec<u8> = Vec::new();
    for _ in 0..33 {
        deep.extend_from_slice(&[0x03, 0, 0, 0, 1]);
    }
    deep.extend_from_slice(&[0x05, 0x01]);
    assert_eq!(
        mid_from_canon_bytes(&with_header(&deep)).unwrap_err().code,
        ERR_LIMIT_DEPTH
    );
}

#[test]
fn utf8_validation_of_octets() {
    assert!(validate_utf8_scalar_bytes("h\u{e9}llo \u{1F600}".as_bytes()).is_ok());
    assert!(validate_utf8_scalar_bytes(&[]).is_ok());
    assert!(validate_utf8_scalar_bytes(&[0x00]).is_ok());
    assert_eq!(validate_utf8_scalar_bytes(&[0xFF]).unwrap_err().code, ERR_UTF8);
    assert_eq!(validate_utf8_scalar_bytes(&[0xE2, 0x82]).unwrap_err().code, ERR_UTF8);
    assert_eq!(validate_utf8_scalar_bytes(&[0xED, 0xBF, 0xBF]).unwrap_err().code, ERR_UTF8);
    assert_eq!(validate_utf8_scalar_bytes(&[0xF4, 0x90, 0x80, 0x80]).unwrap_err().code, ERR_UTF8);
    assert!(validate_utf8_scalar("\u{d7ff}\u{e000}\u{0}").is_ok());
}

#[test]
fn reported_error_is_the_one_of_highest_precedence() {
    assert_eq!(choose_reported_error(&[ERR_DUP_KEY, ERR_TYPE]), ERR_TYPE);
    assert_eq!(choose_reported_error(&[ERR_LIMIT_SIZE]), ERR_LIMIT_SIZE);
    assert_eq!(
        choose_reported_error(&[ERR_LIMIT_SIZE, ERR_LIMIT_DEPTH, ERR_KEY_ORDER, ERR_DUP_KEY]),
        ERR_DUP_KEY
    );
    assert_eq!(
        choose_reported_error(&[
            ERR_LIMIT_SIZE, ERR_LIMIT_DEPTH, ERR_KEY_ORDER, ERR_DUP_KEY, ERR_UTF8, ERR_TYPE,
            ERR_SCHEMA, ERR_CANON_MCF, ERR_CANON_HDR
        ]),
        ERR_CANON_HDR
    );
    assert_eq!(choose_reported_error(&[ERR_SCHEMA, ERR_CANON_MCF, ERR_SCHEMA]), ERR_CANON_MCF);
    assert_eq!(choose_reported_error(&["other", ERR_UTF8, "unknown"]), ERR_UTF8);
    assert_eq!(choose_reported_error(&["other", "unknown"]), "other");
}

#[test]
fn error_carries_code_and_message() {
    let e = MapError::new(ERR_TYPE, "JSON null not allowed");
    assert_eq!(e.code, "ERR_TYPE");
    assert_eq!(e.message, "JSON null not allowed");
    assert_eq!(e.to_string(), "ERR_TYPE: JSON null not allowed");
    let owned = MapError::new(ERR_UTF8, String::from("bad"));
    assert_eq!(owned.to_string(), "ERR_UTF8: bad");
}

#[test]
fn identifier_from_a_given_digest() {
    assert_eq!(mid_from_digest(&[0x00, 0x0F, 0xA5, 0xFF]), "map1:000fa5ff");
    assert_eq!(mid_from_digest(&[]), "map1:");
    let digest: Vec<u8> = (0u8..32).collect();
    assert_eq!(
        mid_from_digest(&digest),
        "map1:000102030405060708090a0b0c0d0e0f101112131415161718191a1b1c1d1e1f"
    );
    let mut s = String::from("x");
    push_hex_lower(&mut s, &[0x9a, 0xbc, 0xde, 0xf0, 0x12, 0x34, 0x56, 0x78]);
    assert_eq!(s, "x9abcdef012345678");
}

#[test]
fn values_have_a_short_form() {
    assert_eq!(text("x").to_string(), "\"x\"");
    assert_eq!(text("").to_string(), "\"\"");
    assert_eq!(MapValue::Bytes(vec![1, 2, 3]).to_string(), "<3 bytes>");
    assert_eq!(MapValue::Bytes(vec![]).to_string(), "<0 bytes>");
    assert_eq!(MapValue::Bytes(vec![0; 1_048_576]).to_string(), "<1048576 bytes>");
    assert_eq!(MapValue::List(vec![MapValue::Integer(1); 12]).to_string(), "[12 items]");
    assert_eq!(MapValue::Mapping(vec![]).to_string(), "{0 entries}");
    assert_eq!(nested_maps(3).to_string(), "{1 entries}");
    assert_eq!(MapValue::Boolean(true).to_string(), "true");
    assert_eq!(MapValue::Boolean(false).to_string(), "false");
    assert_eq!(MapValue::Integer(0).to_string(), "0");
    assert_eq!(MapValue::Integer(42).to_string(), "42");
    assert_eq!(MapValue::Integer(-7).to_string(), "-7");
    assert_eq!(MapValue::Integer(1_000_000).to_string(), "1000000");
    assert_eq!(MapValue::Integer(i64::MAX).to_string(), "9223372036854775807");
    assert_eq!(MapValue::Integer(i64::MIN).to_string(), "-9223372036854775808");
}
