use chrome_extension_cleaner::json::JsonValue;
use chrome_extension_cleaner::locale::{locale_chain, localize_string, resolve_display_name, substitute_placeholders};

fn s(x: &str) -> JsonValue {
    JsonValue::Str(x.to_string())
}

fn obj(entries: Vec<(&str, JsonValue)>) -> JsonValue {
    JsonValue::Object(entries.into_iter().map(|(k, v)| (k.to_string(), v)).collect())
}

fn catalog_text(key: &str, message: &str) -> String {
    format!(r#"{{"{key}": {{"message": "{message}"}}}}"#)
}

fn catalog(key: &str, message: &str) -> JsonValue {
    obj(vec![(key, obj(vec![("message", s(message))]))])
}

#[test]
fn non_zh_falls_back_to_en_not_default_zh() {
    let chain = locale_chain("ko", Some("zh_CN"));
    let en_pos = chain.iter().position(|l| l == "en").unwrap();
    let zh_pos = chain.iter().position(|l| l == "zh_CN").unwrap();
    assert!(en_pos < zh_pos, "en must precede default_locale zh_CN: {chain:?}");
}

#[test]
fn zh_user_still_prefers_chinese() {
    let chain = locale_chain("zh", Some("zh_CN"));
    assert_eq!(chain.first().unwrap(), "zh_CN");
}

#[test]
fn zh_tw_user_prefers_zh_tw() {
    let chain = locale_chain("zh_TW", Some("zh_CN"));
    assert_eq!(chain.first().unwrap(), "zh_TW");
    let tw = chain.iter().position(|l| l == "zh_TW").unwrap();
    let cn = chain.iter().position(|l| l == "zh_CN").unwrap();
    assert!(tw < cn, "zh_TW must precede zh_CN for a traditional UI: {chain:?}");
}

#[test]
fn ptbr_user_resolves_ptbr_dir() {
    let chain = locale_chain("pt-BR", Some("en"));
    assert_eq!(chain.first().unwrap(), "pt_BR");
    assert!(chain.iter().any(|l| l == "pt_BR"), "chain must include Chrome's pt_BR dir form: {chain:?}");
}

#[test]
fn en_is_universal_fallback_before_default() {
    let chain = locale_chain("ru", Some("ja"));
    let en_pos = chain.iter().position(|l| l == "en").unwrap();
    let ja_pos = chain.iter().position(|l| l == "ja").unwrap();
    assert!(en_pos < ja_pos, "en must precede default_locale: {chain:?}");
}

#[test]
fn placeholder_key_is_case_insensitive() {
    let messages = catalog("app_name", "Chrome Web Store Payments");
    let got = substitute_placeholders("__MSG_APP_NAME__", &messages);
    assert_eq!(got.as_deref(), Some("Chrome Web Store Payments"));
}

#[test]
fn placeholder_keeps_original_case_when_present() {
    let messages = catalog("APP_NAME", "ExactCase");
    let got = substitute_placeholders("__MSG_APP_NAME__", &messages);
    assert_eq!(got.as_deref(), Some("ExactCase"));
}

#[test]
fn chain_entries_are_unique_and_non_empty() {
    for (req, def) in [("en", Some("en")), ("zh-HK", Some("zh_TW")), ("de", None), ("", Some("fr"))] {
        let chain = locale_chain(req, def);
        for (i, a) in chain.iter().enumerate() {
            assert!(!a.is_empty(), "{chain:?}");
            for b in chain.iter().skip(i + 1) {
                assert_ne!(a, b, "{chain:?}");
            }
        }
        assert!(chain.iter().any(|l| l == "en"), "{chain:?}");
    }
}

#[test]
fn hong_kong_ui_prefers_traditional_chinese() {
    let chain = locale_chain("zh-HK", None);
    assert_eq!(chain.first().unwrap(), "zh_TW");
    assert_eq!(chain.get(1).map(String::as_str), Some("zh"));
}

#[test]
fn plain_text_needs_a_readable_catalog() {
    assert_eq!(substitute_placeholders("Plain", &obj(vec![])).as_deref(), Some("Plain"));
    let chain = vec!["en".to_string()];
    let readable = vec![("en".to_string(), Some("{}".to_string()))];
    assert_eq!(localize_string("Plain", &chain, &readable).as_deref(), Some("Plain"));
    let unreadable = vec![("en".to_string(), None)];
    assert_eq!(localize_string("Plain", &chain, &unreadable), None);
    let not_object = vec![("en".to_string(), Some("\"x\"".to_string()))];
    assert_eq!(localize_string("Plain", &chain, &not_object), None);
    let broken = vec![("en".to_string(), Some("{".to_string()))];
    assert_eq!(localize_string("Plain", &chain, &broken), None);
}

#[test]
fn unknown_placeholder_yields_none() {
    let messages = catalog("other", "x");
    assert_eq!(substitute_placeholders("__MSG_APP_NAME__", &messages), None);
}

#[test]
fn localize_walks_the_chain_in_order() {
    let chain = locale_chain("de", Some("en"));
    let catalogs = vec![
        ("de".to_string(), None),
        ("en".to_string(), Some(catalog_text("appName", "English Name"))),
    ];
    assert_eq!(
        localize_string("__MSG_appName__", &chain, &catalogs).as_deref(),
        Some("English Name")
    );
    let catalogs_de = vec![
        ("de".to_string(), Some(catalog_text("appName", "Deutscher Name"))),
        ("en".to_string(), Some(catalog_text("appName", "English Name"))),
    ];
    assert_eq!(
        localize_string("__MSG_appName__", &chain, &catalogs_de).as_deref(),
        Some("Deutscher Name")
    );
}

#[test]
fn display_name_falls_back_to_prefs_then_id() {
    let manifest = obj(vec![("name", s("__MSG_appName__")), ("default_locale", s("en"))]);
    let none: Vec<(String, Option<String>)> = vec![];
    assert_eq!(
        resolve_display_name("abcd", &manifest, Some("From Prefs"), "en", &none),
        "From Prefs"
    );
    assert_eq!(resolve_display_name("abcd", &manifest, None, "en", &none), "__MSG_appName__");
    assert_eq!(resolve_display_name("abcd", &obj(vec![]), None, "en", &none), "abcd");
    let plain = obj(vec![("name", s("Shown"))]);
    assert_eq!(resolve_display_name("abcd", &plain, Some("From Prefs"), "en", &none), "From Prefs");
    assert_eq!(resolve_display_name("abcd", &plain, Some("__MSG_x__"), "en", &none), "Shown");
    let en = vec![("en".to_string(), Some(catalog_text("appName", "Localized")))];
    assert_eq!(resolve_display_name("abcd", &manifest, Some("From Prefs"), "en", &en), "Localized");
}

#[test]
fn action_title_is_second_choice() {
    let manifest = obj(vec![
        ("name", s("__MSG_missing__")),
        ("action", obj(vec![("default_title", s("__MSG_title__"))])),
    ]);
    let en = vec![("en".to_string(), Some(catalog_text("title", "From Title")))];
    assert_eq!(resolve_display_name("abcd", &manifest, None, "en", &en), "From Title");
}

#[test]
fn placeholders_are_replaced_left_to_right() {
    let messages = obj(vec![
        ("name", obj(vec![("message", s("Bob"))])),
        ("x", obj(vec![("message", s("Y"))])),
    ]);
    let got = substitute_placeholders("Hi __MSG_Name__ and __MSG_x__!", &messages);
    assert_eq!(got.as_deref(), Some("Hi Bob and Y!"));
    assert_eq!(substitute_placeholders("Hi __MSG_Name__ and __MSG_gone__", &messages), None);
    assert_eq!(substitute_placeholders("Hi __MSG_Name", &messages), None);
}
