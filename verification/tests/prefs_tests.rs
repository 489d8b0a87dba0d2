use chrome_extension_cleaner::json::JsonValue;
use chrome_extension_cleaner::prefs::{load_secure_prefs, parse_entries, prefs_from_documents, InstallSource, PrefsEntry};

fn s(x: &str) -> JsonValue {
    JsonValue::Str(x.to_string())
}

fn n(x: i64) -> JsonValue {
    JsonValue::Number(Some(x))
}

fn obj(entries: Vec<(&str, JsonValue)>) -> JsonValue {
    JsonValue::Object(entries.into_iter().map(|(k, v)| (k.to_string(), v)).collect())
}

/// `{"extensions":{"settings":{<id>:{manifest, path, from_webstore, location}}}}`
fn settings_doc(id: &str, name: &str, version: &str, path: &str) -> JsonValue {
    obj(vec![(
        "extensions",
        obj(vec![(
            "settings",
            obj(vec![(
                id,
                obj(vec![
                    ("manifest", obj(vec![("name", s(name)), ("version", s(version))])),
                    ("path", s(path)),
                    ("from_webstore", JsonValue::Bool(true)),
                    ("location", n(1)),
                ]),
            )]),
        )]),
    )])
}

/// A profile dir with only `Secure Preferences` populated (macOS layout).
fn secure_body() -> JsonValue {
    let mut doc = settings_doc("aaaa", "From Secure", "1.0", "aaaa/1.0_0");
    if let JsonValue::Object(e) = &mut doc {
        e.insert(0, ("protection".to_string(), obj(vec![("super_mac", s("AA"))])));
    }
    doc
}

/// A profile dir with the settings inline (Linux layout).
fn plain_body() -> JsonValue {
    settings_doc("bbbb", "From Plain", "2.0", "bbbb/2.0_0")
}

/// What Linux Chrome actually writes to `Secure Preferences`: a bare stub.
fn stub_body() -> JsonValue {
    obj(vec![("protection", obj(vec![("super_mac", s("DEADBEEF"))]))])
}

fn get<'a>(map: &'a [(String, PrefsEntry)], id: &str) -> &'a PrefsEntry {
    &map.iter().find(|(k, _)| k == id).unwrap().1
}

const SECURE_BODY: &str = r#"{"protection":{"super_mac":"AA"},"extensions":{"settings":{
    "aaaa":{"manifest":{"name":"From Secure","version":"1.0"},
            "path":"aaaa/1.0_0","from_webstore":true,"location":1}}}}"#;
const PLAIN_BODY: &str = r#"{"extensions":{"settings":{
    "bbbb":{"manifest":{"name":"From Plain","version":"2.0"},
            "path":"bbbb/2.0_0","from_webstore":true,"location":1}}}}"#;
const STUB_BODY: &str = r#"{"protection":{"super_mac":"DEADBEEF"}}"#;

fn texts(secure: Option<&str>, plain: Option<&str>) -> Vec<Option<String>> {
    vec![secure.map(str::to_string), plain.map(str::to_string)]
}

#[test]
fn macos_layout_reads_secure_preferences() {
    let map = load_secure_prefs(&texts(Some(SECURE_BODY), Some(r#"{"extensions":{"settings":{}}}"#)));
    assert_eq!(map.len(), 1, "expected the secure entry: {map:?}");
    let e = get(&map, "aaaa");
    assert_eq!(e.name.as_deref(), Some("From Secure"));
    assert_eq!(e.version.as_deref(), Some("1.0"));
    assert_eq!(e.disk_path.as_deref(), Some("aaaa/1.0_0"));
    assert_eq!(e.install_source, InstallSource::WebStoreStandard);
}

#[test]
fn linux_layout_falls_back_to_plain_preferences() {
    let map = load_secure_prefs(&texts(Some(STUB_BODY), Some(PLAIN_BODY)));
    assert_eq!(map.len(), 1, "must fall back to Preferences: {map:?}");
    let e = get(&map, "bbbb");
    assert_eq!(e.name.as_deref(), Some("From Plain"));
    assert_eq!(e.version.as_deref(), Some("2.0"));
    assert_eq!(e.install_source, InstallSource::WebStoreStandard);
}

#[test]
fn neither_file_holds_settings_fails_closed() {
    assert!(
        load_secure_prefs(&texts(Some(STUB_BODY), Some("{}"))).is_empty(),
        "no settings anywhere must yield an empty map (fail closed)"
    );
}

#[test]
fn secure_preferences_wins_when_both_populated() {
    let map = load_secure_prefs(&texts(Some(SECURE_BODY), Some(PLAIN_BODY)));
    assert_eq!(map.len(), 1);
    assert!(
        map.iter().any(|(k, _)| k == "aaaa"),
        "the authoritative file must win: {map:?}"
    );
}

#[test]
fn unreadable_or_broken_files_are_skipped() {
    let map = load_secure_prefs(&texts(None, Some(PLAIN_BODY)));
    assert_eq!(map.len(), 1);
    assert_eq!(map[0].0, "bbbb");
    let map = load_secure_prefs(&texts(Some("{not json"), Some(PLAIN_BODY)));
    assert_eq!(map[0].0, "bbbb");
    assert!(load_secure_prefs(&texts(None, None)).is_empty());
}

#[test]
fn documents_are_read_in_order_of_authority() {
    let docs = vec![Some(secure_body()), Some(plain_body())];
    let map = prefs_from_documents(&docs);
    assert_eq!(map.len(), 1);
    assert_eq!(map[0].0, "aaaa");
    assert!(prefs_from_documents(&vec![Some(stub_body()), None]).is_empty());
}

#[test]
fn component_locations_are_flagged_hideable() {
    let at = |loc: Option<i64>| PrefsEntry {
        location: loc,
        ..Default::default()
    };
    assert!(at(Some(10)).is_component(), "kExternalComponent (10) must hide");
    assert!(at(Some(5)).is_component(), "kComponent (5) must hide");
    assert!(!at(Some(1)).is_component(), "kInternal (1) must stay visible");
    assert!(!at(Some(4)).is_component(), "kUnpacked (4) must stay visible");
    assert!(
        !at(None).is_component(),
        "missing location must stay visible (fail-safe)"
    );
}

#[test]
fn enabled_means_no_disable_reason() {
    let mut e = PrefsEntry::default();
    assert!(e.is_enabled());
    e.disable_reasons = vec![1];
    assert!(!e.is_enabled());
}

#[test]
fn entries_fail_closed_on_missing_fields() {
    let settings = vec![
        (
            "cccc".to_string(),
            obj(vec![
                ("manifest", obj(vec![("version", s("3.0"))])),
                ("from_webstore", JsonValue::Bool(true)),
                ("location", n(4)),
                (
                    "disable_reasons",
                    JsonValue::Array(vec![n(1), s("x"), JsonValue::Number(None), n(8192)]),
                ),
            ]),
        ),
        ("dddd".to_string(), obj(vec![("location", n(1))])),
    ];
    let out = parse_entries(&settings);
    assert_eq!(out.len(), 2);
    let c = get(&out, "cccc");
    assert_eq!(c.version.as_deref(), Some("3.0"));
    assert_eq!(c.name, None);
    assert_eq!(c.disable_reasons, vec![1, 8192]);
    assert_eq!(c.location, Some(4));
    assert_eq!(c.install_source, InstallSource::Other);
    let d = get(&out, "dddd");
    assert_eq!(d.install_source, InstallSource::Other);
    assert_eq!(d.version, None);
    assert_eq!(d.disk_path, None);
}
