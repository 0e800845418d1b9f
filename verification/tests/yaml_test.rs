use specimen::yaml::{Position, Yaml, YamlData, YamlLoader};

// The node under a string key, or a bad value where there is none.
fn key(data: &YamlData, name: &str) -> YamlData {
    match data.get(name) {
        Some(node) => node.data.clone(),
        None => YamlData::BadValue,
    }
}

// The node at an index, or a bad value where there is none.
fn at(data: &YamlData, index: usize) -> YamlData {
    match data.at(index) {
        Some(node) => node.data.clone(),
        None => YamlData::BadValue,
    }
}

// parse f64 as Core schema
fn parse_f64(v: &str) -> Option<f64> {
    match v {
        ".inf" | ".Inf" | ".INF" | "+.inf" | "+.Inf" | "+.INF" => Some(f64::INFINITY),
        "-.inf" | "-.Inf" | "-.INF" => Some(f64::NEG_INFINITY),
        ".nan" | "NaN" | ".NAN" => Some(f64::NAN),
        _ => v.parse::<f64>().ok(),
    }
}

fn as_f64(data: &YamlData) -> Option<f64> {
    match data {
        YamlData::Real(v) => parse_f64(v),
        _ => None,
    }
}

#[test]
fn test_coerce() {
    let s = "---
a: 1
b: 2.2
c: [1, 2]
";
    let out = YamlLoader::load_from_str(&s).unwrap();
    let doc = &out[0];
    assert_eq!(key(&doc.data, "a").as_i64().unwrap(), 1i64);
    assert_eq!(as_f64(&key(&doc.data, "b")).unwrap(), 2.2f64);
    assert_eq!(at(&key(&doc.data, "c"), 1).as_i64().unwrap(), 2i64);
    assert!(at(&key(&doc.data, "d"), 0).is_badvalue());
}

#[test]
fn test_empty_doc() {
    let s: String = "".to_owned();
    YamlLoader::load_from_str(&s).unwrap();
    let s: String = "---".to_owned();
    assert_eq!(
        YamlLoader::load_from_str(&s).unwrap()[0].data,
        YamlData::Null
    );
}

#[test]
fn test_parser() {
    let s: String = "
# comment
a0 bb: val
a1:
    b1: 4
    b2: d
a2: 4 # i'm comment
a3: [1, 2, 3]
a4:
    - - a1
      - a2
    - 2
a5: 'single_quoted'
a6: \"double_quoted\"
a7: 你好
"
    .to_owned();
    let out = YamlLoader::load_from_str(&s).unwrap();
    let doc = &out[0];
    assert_eq!(key(&doc.data, "a7").as_str().unwrap(), "你好");
}

#[test]
fn test_multi_doc() {
    let s = "
'a scalar'
---
'a scalar'
---
'a scalar'
";
    let out = YamlLoader::load_from_str(&s).unwrap();
    assert_eq!(out.len(), 3);
}

#[test]
fn test_anchor() {
    let s = "
a1: &DEFAULT
    b1: 4
    b2: d
a2: *DEFAULT
";
    let out = YamlLoader::load_from_str(&s).unwrap();
    let doc = &out[0];
    assert_eq!(key(&key(&doc.data, "a2"), "b1").as_i64().unwrap(), 4);
}

#[test]
fn test_bad_anchor() {
    let s = "
a1: &DEFAULT
    b1: 4
    b2: *DEFAULT
";
    let out = YamlLoader::load_from_str(&s).unwrap();
    let doc = &out[0];
    assert_eq!(key(&key(&doc.data, "a1"), "b2"), YamlData::BadValue);
}

#[test]
fn test_github_27() {
    // https://github.com/chyh1990/yaml-rust/issues/27
    let s = "&a";
    let out = YamlLoader::load_from_str(&s).unwrap();
    let doc = &out[0];
    assert_eq!(doc.data.as_str().unwrap(), "");
}

#[test]
fn test_plain_datatype() {
    let s = "
- 'string'
- \"string\"
- string
- 123
- -321
- 1.23
- -1e4
- ~
- null
- true
- false
- !!str 0
- !!int 100
- !!float 2
- !!null ~
- !!bool true
- !!bool false
- 0xFF
# bad values
- !!int string
- !!float string
- !!bool null
- !!null val
- 0o77
- [ 0xF, 0xF ]
- +12345
- [ true, false ]
";
    let out = YamlLoader::load_from_str(&s).unwrap();
    let doc = &out[0];

    assert_eq!(at(&doc.data, 0).as_str().unwrap(), "string");
    assert_eq!(at(&doc.data, 1).as_str().unwrap(), "string");
    assert_eq!(at(&doc.data, 2).as_str().unwrap(), "string");
    assert_eq!(at(&doc.data, 3).as_i64().unwrap(), 123);
    assert_eq!(at(&doc.data, 4).as_i64().unwrap(), -321);
    assert_eq!(as_f64(&at(&doc.data, 5)).unwrap(), 1.23);
    assert_eq!(as_f64(&at(&doc.data, 6)).unwrap(), -1e4);
    assert!(at(&doc.data, 7).is_null());
    assert!(at(&doc.data, 8).is_null());
    assert_eq!(at(&doc.data, 9).as_bool().unwrap(), true);
    assert_eq!(at(&doc.data, 10).as_bool().unwrap(), false);
    assert_eq!(at(&doc.data, 11).as_str().unwrap(), "0");
    assert_eq!(at(&doc.data, 12).as_i64().unwrap(), 100);
    assert_eq!(as_f64(&at(&doc.data, 13)).unwrap(), 2.0);
    assert!(at(&doc.data, 14).is_null());
    assert_eq!(at(&doc.data, 15).as_bool().unwrap(), true);
    assert_eq!(at(&doc.data, 16).as_bool().unwrap(), false);
    assert_eq!(at(&doc.data, 17).as_i64().unwrap(), 255);
    assert!(at(&doc.data, 18).is_badvalue());
    assert!(at(&doc.data, 19).is_badvalue());
    assert!(at(&doc.data, 20).is_badvalue());
    assert!(at(&doc.data, 21).is_badvalue());
    assert_eq!(at(&doc.data, 22).as_i64().unwrap(), 63);
    assert_eq!(at(&at(&doc.data, 23), 0).as_i64().unwrap(), 15);
    assert_eq!(at(&at(&doc.data, 23), 1).as_i64().unwrap(), 15);
    assert_eq!(at(&doc.data, 24).as_i64().unwrap(), 12345);
    assert!(at(&at(&doc.data, 25), 0).as_bool().unwrap());
    assert!(!at(&at(&doc.data, 25), 1).as_bool().unwrap());
}

#[test]
fn test_bad_hyphen() {
    // See: https://github.com/chyh1990/yaml-rust/issues/23
    let s = "{-";
    assert!(YamlLoader::load_from_str(&s).is_err());
}

#[test]
fn test_issue_65() {
    // See: https://github.com/chyh1990/yaml-rust/issues/65
    let b = "\n\"ll\\\"ll\\\r\n\"ll\\\"ll\\\r\r\r\rU\r\r\rU";
    assert!(YamlLoader::load_from_str(&b).is_err());
}

#[test]
fn test_bad_docstart() {
    assert!(YamlLoader::load_from_str("---This used to cause an infinite loop").is_ok());
    assert_eq!(
        YamlLoader::load_from_str("----"),
        Ok(vec![Yaml::new(
            YamlData::String(String::from("----")),
            Position { line: 1, column: 0 }
        )]),
        "----"
    );
    assert_eq!(
        YamlLoader::load_from_str("--- #here goes a comment"),
        Ok(vec![Yaml::new(
            YamlData::Null,
            Position { line: 2, column: 0 }
        )]),
        "--- #"
    );
    assert_eq!(
        YamlLoader::load_from_str("---- #here goes a comment"),
        Ok(vec![Yaml::new(
            YamlData::String(String::from("----")),
            Position { line: 1, column: 0 }
        )]),
        "---- #"
    );
}

#[test]
fn test_plain_datatype_with_into_methods() {
    let s = "
- 'string'
- \"string\"
- string
- 123
- -321
- 1.23
- -1e4
- true
- false
- !!str 0
- !!int 100
- !!float 2
- !!bool true
- !!bool false
- 0xFF
- 0o77
- +12345
- -.INF
- .NAN
- !!float .INF
";
    let mut out = YamlLoader::load_from_str(&s).unwrap().into_iter();
    let mut doc = out.next().unwrap().data.into_vec().unwrap().into_iter();

    assert_eq!(doc.next().unwrap().data.into_string().unwrap(), "string");
    assert_eq!(doc.next().unwrap().data.into_string().unwrap(), "string");
    assert_eq!(doc.next().unwrap().data.into_string().unwrap(), "string");
    assert_eq!(doc.next().unwrap().data.into_i64().unwrap(), 123);
    assert_eq!(doc.next().unwrap().data.into_i64().unwrap(), -321);
    assert_eq!(as_f64(&doc.next().unwrap().data).unwrap(), 1.23);
    assert_eq!(as_f64(&doc.next().unwrap().data).unwrap(), -1e4);
    assert_eq!(doc.next().unwrap().data.into_bool().unwrap(), true);
    assert_eq!(doc.next().unwrap().data.into_bool().unwrap(), false);
    assert_eq!(doc.next().unwrap().data.into_string().unwrap(), "0");
    assert_eq!(doc.next().unwrap().data.into_i64().unwrap(), 100);
    assert_eq!(as_f64(&doc.next().unwrap().data).unwrap(), 2.0);
    assert_eq!(doc.next().unwrap().data.into_bool().unwrap(), true);
    assert_eq!(doc.next().unwrap().data.into_bool().unwrap(), false);
    assert_eq!(doc.next().unwrap().data.into_i64().unwrap(), 255);
    assert_eq!(doc.next().unwrap().data.into_i64().unwrap(), 63);
    assert_eq!(doc.next().unwrap().data.into_i64().unwrap(), 12345);
    assert_eq!(
        as_f64(&doc.next().unwrap().data).unwrap(),
        f64::NEG_INFINITY
    );
    assert!(as_f64(&doc.next().unwrap().data).is_some());
    assert_eq!(as_f64(&doc.next().unwrap().data).unwrap(), f64::INFINITY);
}

#[test]
fn test_hash_order() {
    let s = "---
b: ~
a: ~
c: ~
";
    let out = YamlLoader::load_from_str(&s).unwrap();
    let first = out.into_iter().next().unwrap();
    let v = match first.data {
        YamlData::Mapping(v) => v,
        _ => panic!(),
    };
    let mut iter = v.into_iter().map(|(x, y)| (x.data, y.data));
    assert_eq!(
        Some((YamlData::String("b".to_owned()), YamlData::Null)),
        iter.next()
    );
    assert_eq!(
        Some((YamlData::String("a".to_owned()), YamlData::Null)),
        iter.next()
    );
    assert_eq!(
        Some((YamlData::String("c".to_owned()), YamlData::Null)),
        iter.next()
    );
    assert_eq!(None, iter.next());
}

#[test]
fn test_integer_key() {
    let s = "
0:
    important: true
1:
    important: false
";
    let out = YamlLoader::load_from_str(&s).unwrap();
    let first = out.iter().next().unwrap();
    assert_eq!(
        key(&at(&first.data, 0), "important").as_bool().unwrap(),
        true
    );
}

#[test]
fn test_two_space_indentations() {
    // https://github.com/kbknapp/clap-rs/issues/965

    let s = r#"
subcommands:
  - server:
    about: server related commands
subcommands2:
  - server:
      about: server related commands
subcommands3:
 - server:
    about: server related commands
            "#;

    let out = YamlLoader::load_from_str(&s).unwrap();
    let doc = &out.into_iter().next().unwrap();

    println!("{:#?}", doc);
    assert_eq!(
        key(&at(&key(&doc.data, "subcommands"), 0), "server"),
        YamlData::Null
    );
}

#[test]
fn test_recursion_depth_check_objects() {
    let s = "{a:".repeat(10_000) + &"}".repeat(10_000);
    assert!(YamlLoader::load_from_str(&s).is_err());
}

#[test]
fn test_recursion_depth_check_arrays() {
    let s = "[".repeat(10_000) + &"]".repeat(10_000);
    assert!(YamlLoader::load_from_str(&s).is_err());
}

// A parse error says where the parser gave up.
#[test]
fn test_parse_error_has_position() {
    let error = YamlLoader::load_from_str("a: [1, 2").unwrap_err();
    assert!(error.message.contains(" at line "));
    assert!(error.line >= 1);
}

// An alias stands for a copy of the anchored node, position included.
#[test]
fn test_alias_copies_node() {
    let out = YamlLoader::load_from_str("a: &x [p, q]\nb: *x\n").unwrap();
    let a = out[0].data.get("a").unwrap();
    let b = out[0].data.get("b").unwrap();
    assert_eq!(a, b);
    assert_eq!(b.data.as_vec().unwrap().len(), 2);
}

// The first of two pairs with the same key is the one that is found.
#[test]
fn test_first_key_is_found() {
    let out = YamlLoader::load_from_str("{k: first, k: second}").unwrap();
    assert_eq!(key(&out[0].data, "k").as_str().unwrap(), "first");
}

#[test]
fn test_from_str_kinds() {
    assert_eq!(YamlData::from_str("12"), YamlData::Integer(12));
    assert_eq!(YamlData::from_str("0x10"), YamlData::Integer(16));
    assert_eq!(YamlData::from_str("1.5"), YamlData::Real("1.5".to_owned()));
    assert_eq!(YamlData::from_str("~"), YamlData::Null);
    assert_eq!(YamlData::from_str("true"), YamlData::Boolean(true));
    assert_eq!(YamlData::from_str("word"), YamlData::String("word".to_owned()));
}
