//! Tests of the JSON-STRICT adapter.

use map1::json_adapter::{
    check_duplicates, json_strict_parse_with_dups, json_to_canon_value, parse_json_strict,
    scan_for_surrogate_escapes,
};
use map1::json_number::parse_integer_token;
use map1::json_parse::{parse_document, parse_value_at, scalar_only, skip_whitespace, token_end};
use map1::mid::canon_bytes_from_value;
use map1::repeats::{repeat_marks, sorted_places};
use map1::{
    mid_bind_json, mid_from_parsed, mid_full, mid_full_json, MapValue, ParsedJson,
    ERR_CANON_MCF, ERR_DUP_KEY, ERR_LIMIT_DEPTH, ERR_LIMIT_SIZE, ERR_SCHEMA, ERR_TYPE, ERR_UTF8,
};

fn code_of(raw: &[u8]) -> &'static str {
    mid_full_json(raw).unwrap_err().code
}

fn value_of(raw: &[u8]) -> MapValue {
    let (v, dup) = parse_json_strict(raw).unwrap();
    assert!(!dup);
    v
}

fn nested_objects(levels: usize) -> Vec<u8> {
    let mut s = String::new();
    for _ in 1..levels {
        s.push_str("{\"a\":");
    }
    s.push_str("{}");
    for _ in 1..levels {
        s.push('}');
    }
    s.into_bytes()
}

fn nested_arrays(levels: usize) -> Vec<u8> {
    let mut s = String::new();
    for _ in 0..levels {
        s.push('[');
    }
    for _ in 0..levels {
        s.push(']');
    }
    s.into_bytes()
}

#[test]
fn boolean_and_string_give_different_identifiers() {
    let b = mid_full_json(br#"{"v":true}"#).unwrap();
    let s = mid_full_json(br#"{"v":"true"}"#).unwrap();
    assert_eq!(b, "map1:c3b7e4ced6e39cdad14e243c24f0db77469d904094b327988e97e2fddf3f6fea");
    assert_eq!(s, "map1:5f1144914b36a001ae0403eede86fa76fabdb8b11b5ae108dc6df1bf520e2d3a");
    assert_ne!(b, s);
    let canon = canon_bytes_from_value(&value_of(br#"{"v":true}"#)).unwrap();
    assert_eq!(
        canon,
        vec![
            0x4D, 0x41, 0x50, 0x31, 0x00, 0x04, 0x00, 0x00, 0x00, 0x01, 0x01, 0x00, 0x00, 0x00,
            0x01, 0x76, 0x05, 0x01
        ]
    );
}

#[test]
fn float_tokens_are_rejected() {
    assert_eq!(code_of(br#"{"v":1.0}"#), ERR_TYPE);
    assert_eq!(code_of(br#"{"v":0.0}"#), ERR_TYPE);
    assert_eq!(code_of(br#"{"v":1e5}"#), ERR_TYPE);
    assert_eq!(code_of(br#"{"v":1E5}"#), ERR_TYPE);
    assert_eq!(code_of(br#"{"v":-1e-5}"#), ERR_TYPE);
    assert_eq!(code_of(br#"[1.5]"#), ERR_TYPE);
}

#[test]
fn null_is_rejected() {
    assert_eq!(code_of(br#"{"v":null}"#), ERR_TYPE);
    assert_eq!(code_of(br#"[1,null]"#), ERR_TYPE);
    assert_eq!(code_of(b"null"), ERR_TYPE);
}

#[test]
fn byte_order_mark_is_rejected() {
    let raw = [0xEF, 0xBB, 0xBF, 0x7B, 0x22, 0x61, 0x22, 0x3A, 0x22, 0x62, 0x22, 0x7D];
    assert_eq!(code_of(&raw), ERR_SCHEMA);
    let after_space = [0x20, 0x09, 0x0A, 0x0D, 0xEF, 0xBB, 0xBF, 0x7B, 0x7D];
    assert_eq!(code_of(&after_space), ERR_SCHEMA);
    assert_eq!(code_of(&[0xEF, 0xBB, 0xBF]), ERR_SCHEMA);
    // Two octets of the mark are just bad UTF-8.
    assert_eq!(code_of(&[0xEF, 0xBB]), ERR_UTF8);
}

#[test]
fn surrogate_escapes_are_rejected() {
    assert_eq!(code_of(br#"{"v":"\uD800"}"#), ERR_UTF8);
    assert_eq!(code_of(br#"{"v":"\udfff"}"#), ERR_UTF8);
    assert_eq!(code_of(br#"{"v":"\uD83D\uDE00"}"#), ERR_UTF8);
    assert_eq!(code_of(br#"{"\uDC00":1}"#), ERR_UTF8);
    assert!(mid_full_json(br#"{"v":"\uD7FF\uD7FF"}"#).is_ok());
    // An escaped backslash before `u` is no escape of a code point.
    assert!(mid_full_json(br#"{"v":"\\uD800"}"#).is_ok());
    // An escaped quote does not end the string.
    assert_eq!(code_of(br#"{"v":"\"\uD800"}"#), ERR_UTF8);
}

#[test]
fn surrogate_scan_looks_inside_strings_only() {
    assert!(scan_for_surrogate_escapes(br#"\uD800"#).is_ok());
    assert_eq!(scan_for_surrogate_escapes(br#""\uD800""#).unwrap_err().code, ERR_UTF8);
    assert_eq!(scan_for_surrogate_escapes(br#""\uDbFf""#).unwrap_err().code, ERR_UTF8);
    assert!(scan_for_surrogate_escapes(br#""\uD7FF""#).is_ok());
    assert!(scan_for_surrogate_escapes(br#""\uD80""#).is_ok());
    assert!(scan_for_surrogate_escapes(br#""\uD8G0""#).is_ok());
    assert!(scan_for_surrogate_escapes(br#""\"#).is_ok());
    assert!(scan_for_surrogate_escapes(b"").is_ok());
    assert!(scan_for_surrogate_escapes(br#""a" \uD800 "b""#).is_ok());
}

#[test]
fn invalid_utf8_is_rejected() {
    assert_eq!(code_of(&[0x7B, 0x22, 0x61, 0x22, 0x3A, 0x22, 0xFF, 0x22, 0x7D]), ERR_UTF8);
    assert_eq!(code_of(&[0x22, 0xED, 0xA0, 0x80, 0x22]), ERR_UTF8);
}

#[test]
fn duplicate_keys_are_reported() {
    assert_eq!(code_of(br#"{"a":1,"\u0061":2}"#), ERR_DUP_KEY);
    assert_eq!(code_of(br#"{"a":1,"a":2}"#), ERR_DUP_KEY);
    assert_eq!(code_of(br#"{"x":[{"k":true,"k":true}]}"#), ERR_DUP_KEY);
    assert_eq!(code_of(br#"{"a":1,"b":2,"c":{"a":1,"b":{"z":1,"y":2,"z":3}}}"#), ERR_DUP_KEY);
    // The same key in different objects is no duplicate.
    assert!(mid_full_json(br#"{"a":{"a":1},"b":{"a":1}}"#).is_ok());
}

#[test]
fn higher_precedence_wins_over_duplicate() {
    assert_eq!(code_of(br#"{"a":null,"a":1.5}"#), ERR_TYPE);
    assert_eq!(code_of(br#"{"a":1,"a":2,"b":null}"#), ERR_TYPE);
    assert_eq!(code_of(br#"{"a":1,"a":2,"b":"\uD800"}"#), ERR_UTF8);
    assert_eq!(code_of(br#"{"a":1,"a":2"#), ERR_CANON_MCF);
    assert_eq!(mid_bind_json(br#"{"a":[1],"a":2}"#, &["/a/0"]).unwrap_err().code, ERR_SCHEMA);
}

#[test]
fn first_of_equal_keys_gives_the_entry() {
    let (v, dup) = parse_json_strict(br#"{"a":1,"a":2}"#).unwrap();
    assert!(dup);
    assert_eq!(v, MapValue::Mapping(vec![("a".to_string(), MapValue::Integer(1))]));
    let (w, dup) = parse_json_strict(br#"{"b":true,"a":[1],"b":{"x":0},"a":"s"}"#).unwrap();
    assert!(dup);
    assert_eq!(
        w,
        MapValue::Mapping(vec![
            ("a".to_string(), MapValue::List(vec![MapValue::Integer(1)])),
            ("b".to_string(), MapValue::Boolean(true)),
        ])
    );
}

#[test]
fn violation_in_the_value_of_a_repeated_key_is_found() {
    assert_eq!(code_of(br#"{"a":1,"a":null}"#), ERR_TYPE);
    assert_eq!(code_of(br#"{"a":1,"a":1.5}"#), ERR_TYPE);
    assert_eq!(code_of(br#"{"a":1,"a":1e3}"#), ERR_TYPE);
    assert_eq!(code_of(br#"{"a":1,"a":9223372036854775808}"#), ERR_TYPE);
    assert_eq!(code_of(br#"{"a":1,"a":[true,{"x":null}]}"#), ERR_TYPE);
    assert_eq!(code_of(br#"{"o":{"k":"v","k":null}}"#), ERR_TYPE);
    assert_eq!(mid_bind_json(br#"{"a":1,"a":null}"#, &["/a"]).unwrap_err().code, ERR_TYPE);
    assert_eq!(parse_json_strict(br#"{"a":1,"a":null}"#).unwrap_err().code, ERR_TYPE);
    // Nesting beyond the limit inside it is found too, and yields to the duplicate.
    let deep = format!("{{\"a\":1,\"a\":{}}}", String::from_utf8(nested_arrays(33)).unwrap());
    assert_eq!(code_of(deep.as_bytes()), ERR_DUP_KEY);
    let tree = ParsedJson::Object(vec![
        ("a".to_string(), ParsedJson::Bool(true)),
        ("a".to_string(), ParsedJson::Array(vec![ParsedJson::Array(vec![])])),
    ]);
    assert_eq!(json_to_canon_value(&tree, 31).unwrap_err().code, ERR_LIMIT_DEPTH);
    assert!(json_to_canon_value(&tree, 30).is_ok());
}

#[test]
fn duplicate_wins_over_limits() {
    let mut deep = String::from("{\"a\":1,\"a\":2,\"d\":");
    deep.push_str(&String::from_utf8(nested_arrays(40)).unwrap());
    deep.push('}');
    assert_eq!(code_of(deep.as_bytes()), ERR_DUP_KEY);
    let mut list = String::from("[");
    for i in 0..65_536 {
        if i > 0 {
            list.push(',');
        }
        list.push('0');
    }
    list.push(']');
    assert_eq!(code_of(list.as_bytes()), ERR_LIMIT_SIZE);
    let wide = format!("{{\"a\":1,\"a\":2,\"l\":{}}}", list);
    assert_eq!(code_of(wide.as_bytes()), ERR_DUP_KEY);
}

#[test]
fn nesting_is_limited_to_32() {
    assert!(mid_full_json(&nested_objects(32)).is_ok());
    assert_eq!(code_of(&nested_objects(33)), ERR_LIMIT_DEPTH);
    assert!(mid_full_json(&nested_arrays(32)).is_ok());
    assert_eq!(code_of(&nested_arrays(33)), ERR_LIMIT_DEPTH);
    assert_eq!(
        mid_full_json(&nested_objects(32)).unwrap(),
        mid_full(&{
            let mut v = MapValue::Mapping(vec![]);
            for _ in 1..32 {
                v = MapValue::Mapping(vec![("a".to_string(), v)]);
            }
            v
        })
        .unwrap()
    );
}

#[test]
fn oversized_input_is_rejected_whatever_it_holds() {
    let mut big = vec![b' '; 1_048_577];
    assert_eq!(code_of(&big), ERR_LIMIT_SIZE);
    big[0] = 0xEF;
    big[1] = 0xBB;
    big[2] = 0xBF;
    big[3] = 0xFF;
    assert_eq!(code_of(&big), ERR_LIMIT_SIZE);
    assert_eq!(mid_bind_json(&big, &["bad pointer"]).unwrap_err().code, ERR_LIMIT_SIZE);
    assert_eq!(parse_json_strict(&big).unwrap_err().code, ERR_LIMIT_SIZE);
    let mut fits = vec![b' '; 1_048_576];
    fits[0] = b'1';
    assert!(mid_full_json(&fits).is_ok());
}

#[test]
fn key_order_of_the_source_does_not_matter() {
    let a = mid_full_json(br#"{"a":1,"b":2}"#).unwrap();
    let b = mid_full_json(br#"{"b":2,"a":1}"#).unwrap();
    let c = mid_full_json(b" { \"b\" : 2 ,\n\t\"a\" : 1 }\r\n").unwrap();
    assert_eq!(a, "map1:cbf1f58c94ce54d5ecee679379e515046ba1c3de6ed8e3f5934dde3e05cd0731");
    assert_eq!(a, b);
    assert_eq!(a, c);
    assert_ne!(a, mid_full_json(br#"{"a":2,"b":1}"#).unwrap());
    let nested1 = mid_full_json(br#"{"x":{"q":[{"k":1,"j":2}],"p":true},"a":"s"}"#).unwrap();
    let nested2 = mid_full_json(br#"{"a":"s","x":{"p":true,"q":[{"j":2,"k":1}]}}"#).unwrap();
    assert_eq!(nested1, nested2);
}

#[test]
fn keys_are_sorted_by_octets_not_by_code_units() {
    // U+FF5E is EF BD 9E, U+1F600 is F0 9F 98 80; in UTF-16 the order is the other way round.
    let v = value_of("{\"\u{1F600}\":1,\"\u{FF5E}\":2,\"z\":3,\"\u{e9}\":4,\"Z\":5}".as_bytes());
    assert_eq!(
        v,
        MapValue::Mapping(vec![
            ("Z".to_string(), MapValue::Integer(5)),
            ("z".to_string(), MapValue::Integer(3)),
            ("\u{e9}".to_string(), MapValue::Integer(4)),
            ("\u{FF5E}".to_string(), MapValue::Integer(2)),
            ("\u{1F600}".to_string(), MapValue::Integer(1)),
        ])
    );
}

#[test]
fn json_kinds_map_to_canonical_kinds() {
    let v = value_of(br#"{"s":"x","t":true,"f":false,"i":-7,"l":[1,"a",[]],"o":{}}"#);
    assert_eq!(
        v,
        MapValue::Mapping(vec![
            ("f".to_string(), MapValue::Boolean(false)),
            ("i".to_string(), MapValue::Integer(-7)),
            (
                "l".to_string(),
                MapValue::List(vec![
                    MapValue::Integer(1),
                    MapValue::String("a".to_string()),
                    MapValue::List(vec![]),
                ])
            ),
            ("o".to_string(), MapValue::Mapping(vec![])),
            ("s".to_string(), MapValue::String("x".to_string())),
            ("t".to_string(), MapValue::Boolean(true)),
        ])
    );
    assert_eq!(value_of(b"42"), MapValue::Integer(42));
    assert_eq!(value_of(b"true"), MapValue::Boolean(true));
    assert_eq!(value_of(br#""text""#), MapValue::String("text".to_string()));
}

#[test]
fn string_escapes_are_resolved() {
    assert_eq!(
        value_of(br#""a\n\t\"\\\/\u0041\u00e9""#),
        MapValue::String("a\n\t\"\\/A\u{e9}".to_string())
    );
    assert_eq!(value_of(br#""\u0000""#), MapValue::String("\u{0}".to_string()));
    assert_eq!(
        value_of(br#"{"b":1,"a":2}"#),
        MapValue::Mapping(vec![
            ("a".to_string(), MapValue::Integer(2)),
            ("b".to_string(), MapValue::Integer(1)),
        ])
    );
    // Composed and decomposed forms stay different.
    assert_ne!(
        mid_full_json("{\"k\":\"\u{e9}\"}".as_bytes()).unwrap(),
        mid_full_json("{\"k\":\"e\u{301}\"}".as_bytes()).unwrap()
    );
}

#[test]
fn integers_cover_the_whole_range() {
    assert_eq!(value_of(b"9223372036854775807"), MapValue::Integer(i64::MAX));
    assert_eq!(value_of(b"-9223372036854775808"), MapValue::Integer(i64::MIN));
    assert_eq!(value_of(b"0"), MapValue::Integer(0));
    assert_eq!(value_of(b"-0"), MapValue::Integer(0));
    assert_eq!(code_of(b"9223372036854775808"), ERR_TYPE);
    assert_eq!(code_of(b"-9223372036854775809"), ERR_TYPE);
    assert_eq!(code_of(b"123456789012345678901234567890123456789012345678901234567890"), ERR_TYPE);
    assert_eq!(
        mid_full_json(b"42").unwrap(),
        "map1:5e941bea34cb86e0c10493cd731b7856d5356d70a59a336d432e88f720a29396"
    );
    assert_eq!(
        mid_full_json(b"-9223372036854775808").unwrap(),
        "map1:2721181f782b4fd829624a6028fd35e8985cb7b079c90d0ff8fefe9cec810e69"
    );
}

#[test]
fn integer_tokens() {
    assert_eq!(parse_integer_token("42"), Some(42));
    assert_eq!(parse_integer_token("-42"), Some(-42));
    assert_eq!(parse_integer_token("+42"), Some(42));
    assert_eq!(parse_integer_token("007"), Some(7));
    assert_eq!(parse_integer_token("9223372036854775807"), Some(i64::MAX));
    assert_eq!(parse_integer_token("-9223372036854775808"), Some(i64::MIN));
    assert_eq!(parse_integer_token("9223372036854775808"), None);
    assert_eq!(parse_integer_token("-9223372036854775809"), None);
    assert_eq!(parse_integer_token("99999999999999999999999999999999999999999999"), None);
    assert_eq!(parse_integer_token(""), None);
    assert_eq!(parse_integer_token("-"), None);
    assert_eq!(parse_integer_token("+"), None);
    assert_eq!(parse_integer_token("1.0"), None);
    assert_eq!(parse_integer_token("1e1"), None);
    assert_eq!(parse_integer_token("1E1"), None);
    assert_eq!(parse_integer_token("12a"), None);
    assert_eq!(parse_integer_token(" 1"), None);
    assert_eq!(parse_integer_token("--1"), None);
    assert_eq!(parse_integer_token("\u{661}"), None);
}

#[test]
fn text_that_is_no_json_is_a_format_error() {
    assert_eq!(code_of(b""), ERR_CANON_MCF);
    assert_eq!(code_of(b"   "), ERR_CANON_MCF);
    assert_eq!(code_of(b"NaN"), ERR_CANON_MCF);
    assert_eq!(code_of(b"Infinity"), ERR_CANON_MCF);
    assert_eq!(code_of(b"-Infinity"), ERR_CANON_MCF);
    assert_eq!(code_of(br#"{"a":NaN}"#), ERR_CANON_MCF);
    assert_eq!(code_of(br#"{"a":1"#), ERR_CANON_MCF);
    assert_eq!(code_of(br#"{"a":1,}"#), ERR_CANON_MCF);
    assert_eq!(code_of(br#"[1,]"#), ERR_CANON_MCF);
    assert_eq!(code_of(br#"{} {}"#), ERR_CANON_MCF);
    assert_eq!(code_of(br#"{"a" 1}"#), ERR_CANON_MCF);
    assert_eq!(code_of(br#"{a:1}"#), ERR_CANON_MCF);
    assert_eq!(code_of(br#"{"a":"\x"}"#), ERR_CANON_MCF);
    assert_eq!(code_of(br#"{"a":01}"#), ERR_CANON_MCF);
    assert_eq!(code_of(br#"{"a":tru}"#), ERR_CANON_MCF);
    assert_eq!(code_of(br#"{"a":truefalse}"#), ERR_CANON_MCF);
    assert_eq!(code_of(br#"{"a":null"#), ERR_CANON_MCF);
    assert_eq!(code_of(b"[1 2]"), ERR_CANON_MCF);
    assert_eq!(code_of(b"\"a\nb\""), ERR_CANON_MCF);
}

#[test]
fn nesting_beyond_what_the_parser_takes_is_a_format_error() {
    assert_eq!(code_of(&nested_arrays(200)), ERR_CANON_MCF);
    assert_eq!(code_of(&nested_arrays(128)), ERR_CANON_MCF);
    assert_eq!(code_of(&nested_objects(128)), ERR_CANON_MCF);
    assert_eq!(code_of(&nested_arrays(127)), ERR_LIMIT_DEPTH);
    assert_eq!(code_of(&nested_objects(127)), ERR_LIMIT_DEPTH);
}

#[test]
fn every_object_is_a_map_whatever_its_keys() {
    let marker = br#"{"$serde_json::private::Number":"abc"}"#;
    assert_eq!(
        value_of(marker),
        MapValue::Mapping(vec![(
            "$serde_json::private::Number".to_string(),
            MapValue::String("abc".to_string())
        )])
    );
    assert!(mid_full_json(marker).is_ok());
    assert_eq!(
        value_of(br#"{"$serde_json::private::Number":"12"}"#),
        MapValue::Mapping(vec![(
            "$serde_json::private::Number".to_string(),
            MapValue::String("12".to_string())
        )])
    );
    assert_eq!(
        value_of(br#"[{"$serde_json::private::Number":7,"b":1}]"#),
        MapValue::List(vec![MapValue::Mapping(vec![
            ("$serde_json::private::Number".to_string(), MapValue::Integer(7)),
            ("b".to_string(), MapValue::Integer(1)),
        ])])
    );
}

#[test]
fn parse_keeps_all_pairs_and_raw_number_tokens() {
    let (tree, dup) = json_strict_parse_with_dups(br#" {"a" : 1.50 , "a":[true,null , "s"],"b":{} } "#).unwrap();
    assert!(dup);
    match tree {
        ParsedJson::Object(pairs) => {
            assert_eq!(pairs.len(), 3);
            assert_eq!(pairs[0].0, "a");
            assert!(matches!(&pairs[0].1, ParsedJson::Number(t) if t == "1.50"));
            assert_eq!(pairs[1].0, "a");
            match &pairs[1].1 {
                ParsedJson::Array(items) => {
                    assert_eq!(items.len(), 3);
                    assert!(matches!(items[0], ParsedJson::Bool(true)));
                    assert!(matches!(items[1], ParsedJson::Null));
                    assert!(matches!(&items[2], ParsedJson::String(s) if s == "s"));
                }
                _ => panic!("array expected"),
            }
            assert_eq!(pairs[2].0, "b");
            assert!(matches!(&pairs[2].1, ParsedJson::Object(inner) if inner.is_empty()));
        }
        _ => panic!("object expected"),
    }
    let (plain, no_dup) = json_strict_parse_with_dups(b"-12").unwrap();
    assert!(!no_dup);
    assert!(matches!(plain, ParsedJson::Number(t) if t == "-12"));
}

#[test]
fn walker_returns_offsets() {
    assert_eq!(skip_whitespace(b" \t\r\n x", 0), 5);
    assert_eq!(skip_whitespace(b"x ", 0), 0);
    assert_eq!(skip_whitespace(b"  ", 1), 2);
    let (v, end) = parse_value_at(b"  [1, 2] tail", 0, 1).unwrap();
    assert_eq!(end, 8);
    assert!(matches!(v, ParsedJson::Array(items) if items.len() == 2));
    let (s, end) = parse_value_at(br#"x"a\"b"y"#, 1, 0).unwrap();
    assert_eq!(end, 7);
    assert!(matches!(s, ParsedJson::String(t) if t == "a\"b"));
    let (n, end) = parse_value_at(b"[12,3]", 1, 0).unwrap();
    assert_eq!(end, 3);
    assert!(matches!(n, ParsedJson::Number(t) if t == "12"));
    assert!(parse_value_at(b"", 0, 8).is_none());
    assert!(parse_value_at(b"[", 0, 8).is_none());
    assert!(parse_value_at(b"{\"a\"}", 0, 8).is_none());
    assert!(parse_value_at(b"[[1]]", 0, 2).is_some());
    assert!(parse_value_at(b"[[1]]", 0, 1).is_none());
    assert!(parse_value_at(b"{\"a\":{}}", 0, 1).is_none());
    assert!(parse_value_at(b"[]", 0, 0).is_none());
    assert!(parse_document(&nested_arrays(127)).is_some());
    assert!(parse_document(&nested_arrays(128)).is_none());
    assert!(parse_document(&vec![b'['; 1_000_000]).is_none());
    assert!(parse_document(b"1 2").is_none());
    assert!(parse_document(b" {} ").is_some());
}

#[test]
fn conversion_of_hand_built_trees() {
    let tree = ParsedJson::Object(vec![
        ("b".to_string(), ParsedJson::Number("2".to_string())),
        ("a".to_string(), ParsedJson::Array(vec![ParsedJson::Bool(true)])),
        ("b".to_string(), ParsedJson::String("later".to_string())),
    ]);
    assert_eq!(
        json_to_canon_value(&tree, 1).unwrap(),
        MapValue::Mapping(vec![
            ("a".to_string(), MapValue::List(vec![MapValue::Boolean(true)])),
            ("b".to_string(), MapValue::Integer(2)),
        ])
    );
    let mut dup = false;
    check_duplicates(&tree, &mut dup).unwrap();
    assert!(dup);
    let with_null = ParsedJson::Object(vec![
        ("b".to_string(), ParsedJson::Number("2".to_string())),
        ("b".to_string(), ParsedJson::Null),
    ]);
    assert_eq!(json_to_canon_value(&with_null, 1).unwrap_err().code, ERR_TYPE);
    let mut stays = true;
    check_duplicates(&ParsedJson::Null, &mut stays).unwrap();
    assert!(stays);
    let mut none = false;
    check_duplicates(&ParsedJson::Array(vec![ParsedJson::Object(vec![])]), &mut none).unwrap();
    assert!(!none);
    assert_eq!(json_to_canon_value(&ParsedJson::Null, 1).unwrap_err().code, ERR_TYPE);
    assert_eq!(
        json_to_canon_value(&ParsedJson::Number("1.0".to_string()), 1).unwrap_err().code,
        ERR_TYPE
    );
    assert_eq!(
        json_to_canon_value(&ParsedJson::Number("abc".to_string()), 1).unwrap_err().code,
        ERR_TYPE
    );
    assert_eq!(
        json_to_canon_value(&ParsedJson::Bool(true), 33).unwrap_err().code,
        ERR_LIMIT_DEPTH
    );
    assert_eq!(
        json_to_canon_value(&ParsedJson::Bool(true), u32::MAX).unwrap_err().code,
        ERR_LIMIT_DEPTH
    );
    assert!(json_to_canon_value(&ParsedJson::Bool(true), 32).is_ok());
    assert!(json_to_canon_value(&ParsedJson::Array(vec![ParsedJson::Bool(true)]), 32).is_ok());
    assert_eq!(
        json_to_canon_value(&ParsedJson::Array(vec![ParsedJson::Array(vec![])]), 32)
            .unwrap_err()
            .code,
        ERR_LIMIT_DEPTH
    );
    // The first violation in the order of the source is the one reported.
    let two_faults = ParsedJson::Array(vec![
        ParsedJson::Array(vec![ParsedJson::Array(vec![])]),
        ParsedJson::Null,
    ]);
    assert_eq!(json_to_canon_value(&two_faults, 31).unwrap_err().code, ERR_LIMIT_DEPTH);
}

#[test]
fn precedence_with_duplicates_on_record() {
    let v = MapValue::Mapping(vec![("a".to_string(), MapValue::Integer(1))]);
    assert_eq!(mid_from_parsed(&v, true).unwrap_err().code, ERR_DUP_KEY);
    assert_eq!(
        mid_from_parsed(&v, false).unwrap(),
        "map1:0ffd95f4b93139f60e9026146c67db3b598475c52ebfc34c5958024924f99fd5"
    );
    let too_long = MapValue::Bytes(vec![0u8; 1_048_576]);
    assert_eq!(mid_from_parsed(&too_long, false).unwrap_err().code, ERR_LIMIT_SIZE);
    assert_eq!(mid_from_parsed(&too_long, true).unwrap_err().code, ERR_DUP_KEY);
}

#[test]
fn embedded_nul_and_noncharacters_are_plain_text() {
    assert!(mid_full_json(br#"{"v":"a\u0000b"}"#).is_ok());
    assert!(mid_full_json("{\"v\":\"\u{FFFF}\"}".as_bytes()).is_ok());
    assert_eq!(
        mid_full_json(br#"{"action":"deploy"}"#).unwrap(),
        "map1:8cd16e7ab2c7d64b6f56fbe5a386d9ac13be2d4e3e0a959d882f2af41b100232"
    );
}

#[test]
fn tokens_have_to_lie_within_the_text() {
    assert_eq!(token_end(10, 2, 3), Some(5));
    assert_eq!(token_end(10, 2, 8), Some(10));
    assert_eq!(token_end(10, 2, 9), None);
    assert_eq!(token_end(10, 2, 0), None);
    assert_eq!(token_end(10, 11, 1), None);
    assert_eq!(token_end(10, 10, 0), None);
    assert_eq!(token_end(usize::MAX, usize::MAX - 1, 1), Some(usize::MAX));
    assert_eq!(token_end(usize::MAX, usize::MAX, 1), None);
    assert_eq!(token_end(usize::MAX, 1, usize::MAX), None);
}

#[test]
fn only_scalars_are_taken_from_the_scalar_reader() {
    assert!(matches!(scalar_only(ParsedJson::Null), Some(ParsedJson::Null)));
    assert!(matches!(scalar_only(ParsedJson::Bool(false)), Some(ParsedJson::Bool(false))));
    assert!(matches!(
        scalar_only(ParsedJson::Number("1e5".to_string())),
        Some(ParsedJson::Number(t)) if t == "1e5"
    ));
    assert!(scalar_only(ParsedJson::String("s".to_string())).is_none());
    assert!(scalar_only(ParsedJson::Array(vec![])).is_none());
    assert!(scalar_only(ParsedJson::Object(vec![])).is_none());
}

fn object_text(keys: &[String]) -> Vec<u8> {
    let mut s = String::from("{");
    for (i, k) in keys.iter().enumerate() {
        if i > 0 {
            s.push(',');
        }
        s.push('"');
        s.push_str(k);
        s.push_str("\":true");
    }
    s.push('}');
    s.into_bytes()
}

#[test]
fn repeated_keys_are_marked() {
    let pair = |k: &str| (k.to_string(), ParsedJson::Null);
    let pairs = vec![pair("b"), pair("a"), pair("b"), pair("c"), pair("a"), pair("b"), pair("")];
    assert_eq!(repeat_marks(&pairs), vec![false, false, true, false, true, true, false]);
    assert_eq!(sorted_places(&pairs), vec![6, 1, 4, 0, 2, 5, 3]);
    assert_eq!(repeat_marks(&vec![]), Vec::<bool>::new());
    assert_eq!(sorted_places(&vec![pair("x")]), vec![0]);
    let accents = vec![pair("\u{e9}"), pair("z"), pair("e\u{301}"), pair("\u{e9}")];
    assert_eq!(sorted_places(&accents), vec![2, 1, 0, 3]);
    assert_eq!(repeat_marks(&accents), vec![false, false, false, true]);
}

#[test]
fn large_objects_are_handled_in_any_key_order() {
    let ascending: Vec<String> = (0..60_000).map(|i| format!("k{:05}", i)).collect();
    let descending: Vec<String> = ascending.iter().rev().cloned().collect();
    let a = mid_full_json(&object_text(&ascending)).unwrap();
    let d = mid_full_json(&object_text(&descending)).unwrap();
    assert_eq!(a, d);
    let mut with_repeat = descending.clone();
    with_repeat.push("k00000".to_string());
    assert_eq!(code_of(&object_text(&with_repeat)), ERR_DUP_KEY);
    let too_many: Vec<String> = (0..65_536).map(|i| format!("k{:05}", i)).rev().collect();
    assert_eq!(code_of(&object_text(&too_many)), ERR_LIMIT_SIZE);
}
