use base64::Engine;
use chrome_extension_cleaner::icon::{icon_data_uri, icon_file_path, icon_relative_path, icon_uri, parse_u32, plain_dir_name};
use chrome_extension_cleaner::json::JsonValue;

const PNG_B64: &str = "iVBORw0KGgoAAAANSUhEUgAAAAEAAAABCAQAAAC1HAwCAAAAC0lEQVR42mNkYPhfDwAChwGA60e6kgAAAABJRU5ErkJggg==";

fn png_bytes() -> Vec<u8> {
    base64::engine::general_purpose::STANDARD.decode(PNG_B64).unwrap()
}

fn s(x: &str) -> JsonValue {
    JsonValue::Str(x.to_string())
}

fn obj(entries: Vec<(&str, JsonValue)>) -> JsonValue {
    JsonValue::Object(entries.into_iter().map(|(k, v)| (k.to_string(), v)).collect())
}

#[test]
fn picks_largest_icon_and_round_trips() {
    let manifest = obj(vec![
        ("name", s("t")),
        ("version", s("1.0")),
        ("icons", obj(vec![("16", s("i16.png")), ("48", s("i48.png")), ("128", s("i128.png"))])),
    ]);
    assert_eq!(icon_file_path(&manifest).as_deref(), Some("i128.png"));
    let uri = icon_data_uri(&png_bytes());
    assert!(uri.starts_with("data:image/png;base64,"), "got: {uri}");
    let decoded = base64::engine::general_purpose::STANDARD
        .decode(uri.trim_start_matches("data:image/png;base64,"))
        .unwrap();
    assert_eq!(decoded, png_bytes());
    assert_eq!(uri, format!("data:image/png;base64,{PNG_B64}"));
}

#[test]
fn falls_back_to_action_default_icon() {
    let manifest = obj(vec![
        ("name", s("t")),
        ("version", s("1.0")),
        ("action", obj(vec![("default_icon", s("action.png"))])),
    ]);
    assert_eq!(icon_file_path(&manifest).as_deref(), Some("action.png"));
}

#[test]
fn missing_icon_returns_empty() {
    let manifest = obj(vec![("name", s("t")), ("version", s("1.0"))]);
    assert_eq!(icon_file_path(&manifest), None);
    assert_eq!(icon_file_path(&JsonValue::Null), None);
}

#[test]
fn leading_slash_icon_path_is_extension_relative() {
    let manifest = obj(vec![
        ("name", s("t")),
        ("version", s("1.0")),
        ("icons", obj(vec![("128", s("/images/icon-128.png"))])),
    ]);
    assert_eq!(icon_relative_path(&manifest).as_deref(), Some("/images/icon-128.png"));
    assert_eq!(icon_file_path(&manifest).as_deref(), Some("images/icon-128.png"));
}

#[test]
fn browser_action_size_map_and_unparsable_sizes() {
    let manifest = obj(vec![(
        "browser_action",
        obj(vec![("default_icon", obj(vec![("19", s("a19.png")), ("38", s("a38.png")), ("big", s("x.png"))]))]),
    )]);
    assert_eq!(icon_file_path(&manifest).as_deref(), Some("a38.png"));
    // An unparsable size counts as 0 and only wins when nothing else does.
    let odd = obj(vec![("icons", obj(vec![("big", s("x.png")), ("huge", s("y.png"))]))]);
    assert_eq!(icon_file_path(&odd).as_deref(), Some("x.png"));
    // Equal sizes: the first one stays.
    let tie = obj(vec![("icons", obj(vec![("32", s("a.png")), ("+32", s("b.png"))]))]);
    assert_eq!(icon_file_path(&tie).as_deref(), Some("a.png"));
    // Non-string icon values are ignored.
    let mixed = obj(vec![("icons", obj(vec![("128", JsonValue::Number(Some(1))), ("16", s("i16.png"))]))]);
    assert_eq!(icon_file_path(&mixed).as_deref(), Some("i16.png"));
}

#[test]
fn u32_parsing_matches_str_parse() {
    assert_eq!(parse_u32("128"), Some(128));
    assert_eq!(parse_u32("+7"), Some(7));
    assert_eq!(parse_u32("007"), Some(7));
    assert_eq!(parse_u32("4294967295"), Some(u32::MAX));
    assert_eq!(parse_u32("4294967296"), None);
    assert_eq!(parse_u32(""), None);
    assert_eq!(parse_u32("+"), None);
    assert_eq!(parse_u32("-1"), None);
    assert_eq!(parse_u32("1x"), None);
}

#[test]
fn data_uri_encodes_exact_bytes() {
    assert_eq!(icon_data_uri(&vec![]), "data:image/png;base64,");
    assert_eq!(icon_data_uri(&vec![0, 1, 2]), "data:image/png;base64,AAEC");
    assert_eq!(icon_data_uri(&b"hi".to_vec()), "data:image/png;base64,aGk=");
    assert_eq!(icon_data_uri(&vec![255]), "data:image/png;base64,/w==");
}

#[test]
fn version_dir_names_from_frontend_must_be_plain() {
    assert!(plain_dir_name("1.0_0"));
    assert!(!plain_dir_name("../x"));
    assert!(!plain_dir_name("a..b"));
    assert!(!plain_dir_name("a/b"));
    assert!(!plain_dir_name("a\\b"));
    assert!(plain_dir_name(""));
}

#[test]
fn icon_uri_needs_a_declared_and_readable_file() {
    let declared = obj(vec![("icons", obj(vec![("128", s("/images/icon-128.png"))]))]);
    assert_eq!(icon_file_path(&declared).as_deref(), Some("images/icon-128.png"));
    assert_eq!(icon_uri(&declared, &Some(png_bytes())), format!("data:image/png;base64,{PNG_B64}"));
    assert_eq!(icon_uri(&declared, &None), "");
    let undeclared = obj(vec![("name", s("t"))]);
    assert_eq!(icon_uri(&undeclared, &Some(png_bytes())), "");
}
