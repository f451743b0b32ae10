use lib::json::{parse, Json};

/// The numeric value of a number field, read from its text.
fn as_f64(v: &Json) -> Option<f64> {
    v.as_number().and_then(|t| t.parse::<f64>().ok())
}

#[test]
fn reads_the_shape_claude_code_sends() {
    let v = parse(
        r#"{"session_id":"abc","workspace":{"current_dir":"E:\\dev\\x"},
            "model":{"display_name":"Opus 5"},"context_window":{"used_percentage":42},
            "rate_limits":{"five_hour":{"used_percentage":80.5}}}"#,
    )
    .unwrap();
    assert_eq!(v.get("session_id").as_str(), Some("abc"));
    assert_eq!(v.get("workspace").get("current_dir").as_str(), Some("E:\\dev\\x"));
    assert_eq!(v.get("model").get("display_name").as_str(), Some("Opus 5"));
    assert_eq!(as_f64(v.get("context_window").get("used_percentage")), Some(42.0));
    assert_eq!(
        as_f64(v.get("rate_limits").get("five_hour").get("used_percentage")),
        Some(80.5)
    );
}

#[test]
fn missing_fields_chain_to_null_instead_of_panicking() {
    let v = parse("{}").unwrap();
    assert_eq!(v.get("model").get("display_name").as_str(), None);
    assert_eq!(as_f64(v.get("context_window").get("used_percentage")), None);
}

#[test]
fn strips_the_powershell_bom() {
    let v = parse("\u{feff}{\"session_id\":\"x\"}").unwrap();
    assert_eq!(v.get("session_id").as_str(), Some("x"));
}

#[test]
fn handles_escapes_and_non_ascii() {
    let v = parse(r#"{"a":"q\"uote\\ \u00e9 \ud83d\ude00 caf\u00e9 ✦"}"#).unwrap();
    assert_eq!(v.get("a").as_str(), Some("q\"uote\\ é 😀 café ✦"));
}

#[test]
fn rejects_garbage_without_panicking() {
    assert!(parse("not json").is_none());
    assert!(parse("{\"a\":").is_none());
    assert!(parse("").is_none());
}

#[test]
fn arrays_and_nesting() {
    let v = parse(r#"{"a":[1,{"b":true},null,"s"]}"#).unwrap();
    match v.get("a") {
        Json::Arr(items) => {
            assert_eq!(items.len(), 4);
            assert_eq!(items[1].get("b"), &Json::Bool(true));
        }
        other => panic!("expected array, got {other:?}"),
    }
}

#[test]
fn a_later_duplicate_key_wins_and_keys_come_out_sorted() {
    let v = parse(r#"{"b":1,"a":2,"b":3}"#).unwrap();
    assert_eq!(v.get("b").as_number(), Some("3"));
    match &v {
        Json::Obj(entries) => {
            let keys: Vec<&str> = entries.iter().map(|(k, _)| k.as_str()).collect();
            assert_eq!(keys, vec!["a", "b"]);
        }
        other => panic!("expected object, got {other:?}"),
    }
}

#[test]
fn text_after_the_value_is_ignored() {
    let v = parse("{\"a\":true} trailing junk").unwrap();
    assert_eq!(v.get("a"), &Json::Bool(true));
    assert_eq!(parse("  null"), Some(Json::Null));
}

#[test]
fn numbers_follow_float_syntax() {
    assert_eq!(parse("-1.5e3"), Some(Json::Num("-1.5e3".to_string())));
    assert_eq!(parse("+5"), Some(Json::Num("+5".to_string())));
    assert_eq!(parse(".5"), Some(Json::Num(".5".to_string())));
    assert_eq!(parse("5."), Some(Json::Num("5.".to_string())));
    assert!(parse("1.2.3").is_none());
    assert!(parse("--1").is_none());
    assert!(parse("1e").is_none());
    assert!(parse("-").is_none());
    assert!(parse("[1,]").is_none());
}

#[test]
fn escapes_edge_cases() {
    // A lone high surrogate becomes U+FFFD.
    assert_eq!(parse(r#""\ud800x""#).unwrap().as_str(), Some("\u{fffd}x"));
    // A high surrogate followed by a non-low escape: both read, one U+FFFD.
    assert_eq!(parse(r#""\ud800\u0041""#).unwrap().as_str(), Some("\u{fffd}"));
    // A lone low surrogate is replaced too.
    assert_eq!(parse(r#""\udc00""#).unwrap().as_str(), Some("\u{fffd}"));
    // from_str_radix reads a leading plus sign.
    assert_eq!(parse(r#""\u+041""#).unwrap().as_str(), Some("A"));
    assert_eq!(parse(r#""\/\b\f\n\r\t""#).unwrap().as_str(), Some("/\u{8}\u{c}\n\r\t"));
    assert!(parse(r#""\x""#).is_none());
    assert!(parse(r#""\u12""#).is_none());
    assert!(parse("\"unterminated").is_none());
}

#[test]
fn get_on_non_objects_is_null() {
    let v = parse("[1]").unwrap();
    assert_eq!(v.get("a"), &Json::Null);
    assert_eq!(Json::Null.as_str(), None);
    assert_eq!(parse("7").unwrap().as_number(), Some("7"));
}

#[test]
fn a_bom_in_front_reads_like_no_bom() {
    let plain = r#" {"a":[1,"x"]}"#;
    assert_eq!(parse(&format!("\u{feff}{plain}")), parse(plain));
    assert!(parse("\u{feff}\u{feff}{}").is_none());
}

#[test]
fn nested_objects_keep_each_key_once_in_order() {
    let v = parse(r#"{"o":{"b":1,"a":2,"b":3},"l":[{"z":0,"y":1}]}"#).unwrap();
    match v.get("o") {
        Json::Obj(e) => {
            let keys: Vec<&str> = e.iter().map(|(k, _)| k.as_str()).collect();
            assert_eq!(keys, vec!["a", "b"]);
            assert_eq!(v.get("o").get("b").as_number(), Some("3"));
        }
        other => panic!("expected an object, got {other:?}"),
    }
    match v.get("l") {
        Json::Arr(items) => match &items[0] {
            Json::Obj(e) => assert_eq!(e[0].0, "y"),
            other => panic!("expected an object, got {other:?}"),
        },
        other => panic!("expected an array, got {other:?}"),
    }
}
