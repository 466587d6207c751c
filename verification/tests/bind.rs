//! Tests of pointers and of the BIND projection.

use map1::pointer::parse_pointer;
use map1::projection::{bind_project, full_project, walk_path, Walk};
use map1::{
    canonical_bytes_bind, canonical_bytes_full, mid_bind, mid_bind_json, mid_full, mid_full_json,
    MapValue, ERR_SCHEMA,
};

fn int_map(entries: &[(&str, i64)]) -> MapValue {
    MapValue::Mapping(entries.iter().map(|(k, v)| (k.to_string(), MapValue::Integer(*v))).collect())
}

fn tokens(ptr: &str) -> Vec<String> {
    parse_pointer(ptr).unwrap().into_iter().map(|t| t.into_iter().collect()).collect()
}

fn sample() -> MapValue {
    MapValue::Mapping(vec![
        ("a".to_string(), MapValue::Integer(1)),
        (
            "cfg".to_string(),
            MapValue::Mapping(vec![
                ("host".to_string(), MapValue::String("h".to_string())),
                (
                    "net".to_string(),
                    MapValue::Mapping(vec![
                        ("mtu".to_string(), MapValue::Integer(1500)),
                        ("v6".to_string(), MapValue::Boolean(true)),
                    ]),
                ),
                ("port".to_string(), MapValue::Integer(8080)),
            ]),
        ),
        ("list".to_string(), MapValue::List(vec![MapValue::Boolean(true)])),
        ("z".to_string(), MapValue::Bytes(vec![1])),
    ])
}

#[test]
fn pointer_grammar() {
    assert_eq!(tokens(""), Vec::<String>::new());
    assert_eq!(tokens("/"), vec![""]);
    assert_eq!(tokens("/a"), vec!["a"]);
    assert_eq!(tokens("/a/b"), vec!["a", "b"]);
    assert_eq!(tokens("/a//b/"), vec!["a", "", "b", ""]);
    assert_eq!(tokens("/a~1b"), vec!["a/b"]);
    assert_eq!(tokens("/a~0b"), vec!["a~b"]);
    assert_eq!(tokens("/~01"), vec!["~1"]);
    assert_eq!(tokens("/~10"), vec!["/0"]);
    assert_eq!(tokens("/~0~1~0"), vec!["~/~"]);
    assert_eq!(tokens("/\u{e9}/\u{1F600}~1"), vec!["\u{e9}", "\u{1F600}/"]);
    assert_eq!(tokens("/ /0"), vec![" ", "0"]);
}

#[test]
fn pointer_grammar_faults() {
    assert_eq!(parse_pointer("a").unwrap_err().code, ERR_SCHEMA);
    assert_eq!(parse_pointer("a/b").unwrap_err().code, ERR_SCHEMA);
    assert_eq!(parse_pointer("~0").unwrap_err().code, ERR_SCHEMA);
    assert_eq!(parse_pointer("/a~2b").unwrap_err().code, ERR_SCHEMA);
    assert_eq!(parse_pointer("/a~").unwrap_err().code, ERR_SCHEMA);
    assert_eq!(parse_pointer("/~").unwrap_err().code, ERR_SCHEMA);
    assert_eq!(parse_pointer("/a~/b").unwrap_err().code, ERR_SCHEMA);
    assert_eq!(parse_pointer("/ok/~x").unwrap_err().code, ERR_SCHEMA);
    assert_eq!(parse_pointer("/a~~0").unwrap_err().code, ERR_SCHEMA);
}

#[test]
fn mixed_match_fails_closed() {
    let d = int_map(&[("a", 1), ("b", 2)]);
    assert_eq!(mid_bind(&d, &["/a", "/nope"]).unwrap_err().code, ERR_SCHEMA);
    assert_eq!(mid_bind(&d, &["/nope", "/a"]).unwrap_err().code, ERR_SCHEMA);
    assert_eq!(bind_project(&d, &["/nope"]).unwrap(), MapValue::Mapping(vec![]));
    assert_eq!(bind_project(&d, &["/nope", "/x/y"]).unwrap(), MapValue::Mapping(vec![]));
    assert_eq!(mid_bind(&d, &["/a"]).unwrap(), mid_full(&int_map(&[("a", 1)])).unwrap());
    assert_eq!(
        mid_bind(&d, &["/a"]).unwrap(),
        "map1:0ffd95f4b93139f60e9026146c67db3b598475c52ebfc34c5958024924f99fd5"
    );
    assert_eq!(
        mid_bind_json(br#"{"a":1,"b":2}"#, &["/a"]).unwrap(),
        mid_full_json(br#"{"a":1}"#).unwrap()
    );
    assert_eq!(mid_bind_json(br#"{"a":1,"b":2}"#, &["/a", "/nope"]).unwrap_err().code, ERR_SCHEMA);
}

#[test]
fn no_pointers_select_nothing() {
    let d = int_map(&[("a", 1)]);
    assert_eq!(bind_project(&d, &[]).unwrap(), MapValue::Mapping(vec![]));
}

#[test]
fn traversal_through_list_is_forbidden() {
    let d = MapValue::Mapping(vec![("a".to_string(), MapValue::List(vec![MapValue::Boolean(true)]))]);
    assert_eq!(mid_bind(&d, &["/a/0"]).unwrap_err().code, ERR_SCHEMA);
    assert_eq!(mid_bind(&d, &["/a/7"]).unwrap_err().code, ERR_SCHEMA);
    assert_eq!(mid_bind(&d, &["/nope", "/a/0"]).unwrap_err().code, ERR_SCHEMA);
    assert_eq!(mid_bind_json(br#"{"a":[true]}"#, &["/a/0"]).unwrap_err().code, ERR_SCHEMA);
    // The list itself can be selected.
    assert_eq!(bind_project(&d, &["/a"]).unwrap(), d);
    // A list that the walk never reaches does no harm.
    assert_eq!(bind_project(&d, &["/x/a/0"]).unwrap(), MapValue::Mapping(vec![]));
}

#[test]
fn escapes_select_keys_with_slash_and_tilde() {
    let d = MapValue::Mapping(vec![
        ("a/b".to_string(), MapValue::Integer(1)),
        ("a~b".to_string(), MapValue::Integer(2)),
    ]);
    assert_eq!(bind_project(&d, &["/a~1b"]).unwrap(), int_map(&[("a/b", 1)]));
    assert_eq!(bind_project(&d, &["/a~0b"]).unwrap(), int_map(&[("a~b", 2)]));
    assert_eq!(
        mid_bind(&d, &["/a~1b"]).unwrap(),
        "map1:799e919248299ff9d8f56c7484d55d5d07e29efd5a0fefb898c4ee0972e75f4b"
    );
    assert_eq!(
        mid_bind(&d, &["/a~0b"]).unwrap(),
        "map1:fa5d3f31937e588a481957859d7a602757f4686c269e845279ff21c22d5bbfe4"
    );
    assert_eq!(mid_bind(&d, &["/a~2b"]).unwrap_err().code, ERR_SCHEMA);
    assert_eq!(mid_bind(&d, &["/a~0b", "/a~"]).unwrap_err().code, ERR_SCHEMA);
    assert_eq!(mid_bind(&d, &["/a/b"]).unwrap(), mid_full(&MapValue::Mapping(vec![])).unwrap());
}

#[test]
fn root_has_to_be_a_map() {
    assert_eq!(mid_bind(&MapValue::List(vec![]), &[""]).unwrap_err().code, ERR_SCHEMA);
    assert_eq!(mid_bind(&MapValue::Integer(1), &[]).unwrap_err().code, ERR_SCHEMA);
    assert_eq!(mid_bind(&MapValue::String("s".to_string()), &["bad"]).unwrap_err().code, ERR_SCHEMA);
    assert_eq!(canonical_bytes_bind(&MapValue::Boolean(true), &["/a"]).unwrap_err().code, ERR_SCHEMA);
    assert_eq!(mid_bind_json(b"[1]", &["/0"]).unwrap_err().code, ERR_SCHEMA);
}

#[test]
fn duplicate_pointers_are_rejected() {
    let d = int_map(&[("a", 1)]);
    assert_eq!(mid_bind(&d, &["/a", "/a"]).unwrap_err().code, ERR_SCHEMA);
    assert_eq!(mid_bind(&d, &["/x", "/a", "/x"]).unwrap_err().code, ERR_SCHEMA);
    assert_eq!(mid_bind(&d, &["", ""]).unwrap_err().code, ERR_SCHEMA);
    // Different strings for the same key are no duplicates.
    let t = int_map(&[("~", 1)]);
    assert!(mid_bind(&t, &["/~0"]).is_ok());
}

#[test]
fn empty_pointer_selects_the_whole_descriptor() {
    let d = sample();
    assert_eq!(bind_project(&d, &[""]).unwrap(), d);
    assert_eq!(bind_project(&d, &["/a", ""]).unwrap(), d);
    assert_eq!(mid_bind(&d, &[""]).unwrap(), mid_full(&d).unwrap());
    assert_eq!(canonical_bytes_bind(&d, &[""]).unwrap(), canonical_bytes_full(&d).unwrap());
    assert_eq!(mid_bind(&d, &["", "/nope"]).unwrap_err().code, ERR_SCHEMA);
}

#[test]
fn projection_keeps_the_smallest_enclosing_maps() {
    let d = sample();
    assert_eq!(
        bind_project(&d, &["/cfg/port"]).unwrap(),
        MapValue::Mapping(vec![(
            "cfg".to_string(),
            MapValue::Mapping(vec![("port".to_string(), MapValue::Integer(8080))])
        )])
    );
    assert_eq!(
        bind_project(&d, &["/z", "/cfg/port", "/cfg/net/v6", "/a", "/cfg/host"]).unwrap(),
        MapValue::Mapping(vec![
            ("a".to_string(), MapValue::Integer(1)),
            (
                "cfg".to_string(),
                MapValue::Mapping(vec![
                    ("host".to_string(), MapValue::String("h".to_string())),
                    (
                        "net".to_string(),
                        MapValue::Mapping(vec![("v6".to_string(), MapValue::Boolean(true))])
                    ),
                    ("port".to_string(), MapValue::Integer(8080)),
                ])
            ),
            ("z".to_string(), MapValue::Bytes(vec![1])),
        ])
    );
    assert_eq!(
        bind_project(&d, &["/list"]).unwrap(),
        MapValue::Mapping(vec![("list".to_string(), MapValue::List(vec![MapValue::Boolean(true)]))])
    );
}

#[test]
fn longer_pointer_is_subsumed_by_its_prefix() {
    let d = sample();
    let whole_cfg = bind_project(&d, &["/cfg"]).unwrap();
    assert_eq!(bind_project(&d, &["/cfg/net/mtu", "/cfg"]).unwrap(), whole_cfg);
    assert_eq!(bind_project(&d, &["/cfg", "/cfg/port", "/cfg/net"]).unwrap(), whole_cfg);
    assert_eq!(
        bind_project(&d, &["/cfg/net", "/cfg/net/mtu"]).unwrap(),
        bind_project(&d, &["/cfg/net"]).unwrap()
    );
    // A pointer that is subsumed still has to match.
    assert_eq!(mid_bind(&d, &["/cfg", "/cfg/nope"]).unwrap_err().code, ERR_SCHEMA);
}

#[test]
fn pointer_into_a_scalar_does_not_match() {
    let d = sample();
    assert_eq!(bind_project(&d, &["/a/b"]).unwrap(), MapValue::Mapping(vec![]));
    assert_eq!(mid_bind(&d, &["/a", "/a/b"]).unwrap_err().code, ERR_SCHEMA);
    assert_eq!(bind_project(&d, &["/"]).unwrap(), MapValue::Mapping(vec![]));
}

#[test]
fn first_of_equal_keys_is_the_one_looked_up() {
    let d = MapValue::Mapping(vec![
        ("a".to_string(), MapValue::Integer(1)),
        ("a".to_string(), MapValue::Integer(2)),
    ]);
    assert_eq!(bind_project(&d, &["/a"]).unwrap(), int_map(&[("a", 1)]));
}

#[test]
fn walk_classifies_paths() {
    let d = sample();
    let path = |p: &str| parse_pointer(p).unwrap();
    assert!(matches!(walk_path(&d, &path("")), Walk::Matched));
    assert!(matches!(walk_path(&d, &path("/cfg/net/mtu")), Walk::Matched));
    assert!(matches!(walk_path(&d, &path("/cfg/net/nope")), Walk::Unmatched));
    assert!(matches!(walk_path(&d, &path("/a/x")), Walk::Unmatched));
    assert!(matches!(walk_path(&d, &path("/list")), Walk::Matched));
    assert!(matches!(walk_path(&d, &path("/list/0")), Walk::ThroughList));
    assert!(matches!(walk_path(&MapValue::List(vec![]), &path("/0")), Walk::ThroughList));
    assert!(matches!(walk_path(&MapValue::List(vec![]), &path("")), Walk::Matched));
}

#[test]
fn full_projection_is_the_descriptor() {
    let d = sample();
    assert_eq!(full_project(&d), d);
    assert_eq!(full_project(&MapValue::Integer(3)), MapValue::Integer(3));
}

#[test]
fn projection_of_json_text() {
    assert_eq!(
        mid_bind_json(br#"{"flag":true,"n":42,"s":"x"}"#, &["/flag"]).unwrap(),
        mid_full_json(br#"{"flag":true}"#).unwrap()
    );
    assert_eq!(
        mid_bind_json(br#"{"flag":true,"n":42,"s":"x"}"#, &["/n"]).unwrap(),
        mid_full_json(br#"{"n":42}"#).unwrap()
    );
    assert_eq!(
        mid_bind_json(br#"{"a":1}"#, &["/nope"]).unwrap(),
        "map1:c67223b733f8def290e67077621379eef3565ac3940462b8491c7f0834894816"
    );
    assert_eq!(mid_bind_json(br#"{"a":1,"a":2}"#, &["/a"]).unwrap_err().code, "ERR_DUP_KEY");
}

#[test]
fn order_of_the_pointers_does_not_matter() {
    let d = sample();
    let a = bind_project(&d, &["/z", "/cfg/port", "/cfg/net/v6", "/a", "/cfg/host"]).unwrap();
    let b = bind_project(&d, &["/cfg/host", "/a", "/cfg/net/v6", "/cfg/port", "/z"]).unwrap();
    let c = bind_project(&d, &["/a", "/cfg/host", "/cfg/net/v6", "/cfg/port", "/z"]).unwrap();
    assert_eq!(a, b);
    assert_eq!(a, c);
    assert_eq!(
        mid_bind(&d, &["/cfg/net", "/a", "/cfg/net/mtu"]).unwrap(),
        mid_bind(&d, &["/cfg/net/mtu", "/cfg/net", "/a"]).unwrap()
    );
    assert_eq!(
        mid_bind(&d, &["/a", "/nope"]).unwrap_err().code,
        mid_bind(&d, &["/nope", "/a"]).unwrap_err().code
    );
}

#[test]
fn projection_is_in_key_order_at_every_level() {
    let d = sample();
    let v = bind_project(&d, &["/z", "/cfg/port", "/cfg/net/v6", "/cfg/net/mtu", "/cfg/host"])
        .unwrap();
    // The encoder accepts only maps whose keys ascend strictly.
    assert!(canonical_bytes_full(&v).is_ok());
    match v {
        MapValue::Mapping(top) => {
            let keys: Vec<&str> = top.iter().map(|(k, _)| k.as_str()).collect();
            assert_eq!(keys, vec!["cfg", "z"]);
            match &top[0].1 {
                MapValue::Mapping(cfg) => {
                    let keys: Vec<&str> = cfg.iter().map(|(k, _)| k.as_str()).collect();
                    assert_eq!(keys, vec!["host", "net", "port"]);
                }
                _ => panic!("map expected"),
            }
        }
        _ => panic!("map expected"),
    }
}
