use chrome_extension_cleaner::clean::check_extension_ids;
use chrome_extension_cleaner::json::{parse_json, read_manifest, JsonValue};

#[test]
fn parse_json_keeps_values_and_integer_numbers() {
    let v = parse_json(r#"{"b": [1, -2, 3.5, 18446744073709551615], "a": "x", "n": null, "t": true}"#).unwrap();
    assert_eq!(v.get("a").and_then(|x| x.as_str()), Some("x"));
    assert!(matches!(v.get("n"), Some(JsonValue::Null)));
    assert_eq!(v.get("t").and_then(|x| x.as_bool()), Some(true));
    match v.get("b") {
        Some(JsonValue::Array(items)) => {
            let nums: Vec<Option<i64>> = items.iter().map(|i| i.as_i64()).collect();
            assert_eq!(nums, vec![Some(1), Some(-2), None, None]);
        }
        other => panic!("expected an array, got {other:?}"),
    }
    assert!(parse_json("{").is_none());
    assert!(parse_json("").is_none());
}

#[test]
fn manifests_fall_back_to_null() {
    assert!(matches!(read_manifest(&None), JsonValue::Null));
    assert!(matches!(read_manifest(&Some("not json".to_string())), JsonValue::Null));
    let m = read_manifest(&Some(r#"{"version":"1.0"}"#.to_string()));
    assert_eq!(m.get("version").and_then(|x| x.as_str()), Some("1.0"));
}

#[test]
fn illegal_names_are_refused_before_any_path_is_built() {
    let id = "abcdefghijklmnopqrstuvwxyzabcdef";
    assert!(check_extension_ids("Default", id).is_ok());
    for (p, e) in [("", id), ("../x", id), ("a/b", id), ("a\\b", id), ("Default", "short"), ("Default", "ABCDEFGHIJKLMNOPQRSTUVWXYZABCDEF")] {
        assert_eq!(check_extension_ids(p, e).unwrap_err(), "illegal profile or extension id");
    }
}
