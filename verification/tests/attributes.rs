use mdx_ext::syntax::{parse_inline_attrs, try_parse_inline_attrs};
use mdx_ext::AttributeMap;
use serde_json::Value;

#[test]
fn parses_mixed_attrs() {
    let v = parse_inline_attrs(r#"name="foo bar" count=3 flag true_value=true"#);
    assert_eq!(v.len(), 4);
    assert_eq!(v[0].0, "name");
    assert_eq!(v[0].1, Value::String("foo bar".into()));
    assert_eq!(v[1].0, "count");
    assert_eq!(v[1].1, Value::Number(3.into()));
    assert_eq!(v[2].1, Value::Bool(true));
    assert_eq!(v[3].1, Value::Bool(true));
}

#[test]
fn attrs_escapes_numbers_and_bare_words() {
    let v = parse_inline_attrs(r#"a="x\"y\n" b=-12 c=null d=false e=word f=1.5 g='s q'"#);
    let expected: Vec<(String, Value)> = vec![
        ("a".to_string(), Value::String("x\"y\n".to_string())),
        ("b".to_string(), Value::Number((-12).into())),
        ("c".to_string(), Value::Null),
        ("d".to_string(), Value::Bool(false)),
        ("e".to_string(), Value::String("word".to_string())),
        ("f".to_string(), Value::Number(serde_json::Number::from_f64(1.5).unwrap())),
        ("g".to_string(), Value::String("s q".to_string())),
    ];
    assert_eq!(v, expected);
}

#[test]
fn attrs_skip_garbage_and_close_early() {
    assert_eq!(parse_inline_attrs("!! k = v"), vec![("k".to_string(), Value::String("v".to_string()))]);
    assert_eq!(parse_inline_attrs("k="), vec![("k".to_string(), Value::Null)]);
    assert_eq!(parse_inline_attrs("   "), Vec::<(String, Value)>::new());
    assert_eq!(
        parse_inline_attrs(r#"k="unterminated"#),
        vec![("k".to_string(), Value::String("unterminated".to_string()))]
    );
    assert_eq!(
        parse_inline_attrs("k=v}rest"),
        vec![
            ("k".to_string(), Value::String("v".to_string())),
            ("rest".to_string(), Value::Bool(true)),
        ]
    );
}

#[test]
fn attrs_unknown_escape_is_kept() {
    assert_eq!(
        parse_inline_attrs(r#"k="a\qb" u="é""#),
        vec![
            ("k".to_string(), Value::String("a\\qb".to_string())),
            ("u".to_string(), Value::String("é".to_string())),
        ]
    );
}

#[test]
fn attrs_escape_before_non_ascii_keeps_backslash_and_character() {
    assert_eq!(
        parse_inline_attrs("k=\"\\é\" n=2"),
        vec![
            ("k".to_string(), Value::String("\\é".to_string())),
            ("n".to_string(), Value::Number(2.into())),
        ]
    );
    assert_eq!(
        try_parse_inline_attrs("k=\"\\é\""),
        Some(vec![("k".to_string(), Value::String("\\é".to_string()))])
    );
    assert_eq!(
        try_parse_inline_attrs("k=1"),
        Some(vec![("k".to_string(), Value::Number(1.into()))])
    );
}

#[test]
fn attribute_map_keeps_keys_sorted_and_unique() {
    let mut m = AttributeMap::new();
    assert!(m.is_empty());
    m.insert("zeta".to_string(), Value::Bool(true));
    m.insert("alpha".to_string(), Value::Number(1.into()));
    m.insert("mid".to_string(), Value::Null);
    m.insert("alpha".to_string(), Value::Number(2.into()));
    assert_eq!(m.len(), 3);
    let keys: Vec<&str> = m.iter().iter().map(|(k, _)| k.as_str()).collect();
    assert_eq!(keys, vec!["alpha", "mid", "zeta"]);
    assert_eq!(m.get("alpha"), Some(&Value::Number(2.into())));
    assert_eq!(m.get("missing"), None);
}

#[test]
fn attribute_map_from_pairs_last_write_wins() {
    let m = AttributeMap::from_pairs(vec![
        ("b".to_string(), Value::Number(1.into())),
        ("a".to_string(), Value::Number(2.into())),
        ("b".to_string(), Value::Number(3.into())),
    ]);
    assert_eq!(m.len(), 2);
    assert_eq!(m.iter()[0].0, "a");
    assert_eq!(m.get("b"), Some(&Value::Number(3.into())));
    let c = m.clone();
    assert_eq!(c.iter(), m.iter());
}
