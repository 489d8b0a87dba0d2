use chrome_extension_cleaner::env::ChromeStatus;
use chrome_extension_cleaner::inventory::{labels_from_document, list_profiles, profile_labels, scan_root, ExtensionDirInput, ProfileInput, ScanInput};
use chrome_extension_cleaner::json::JsonValue;
use chrome_extension_cleaner::prefs::{load_secure_prefs, prefs_from_documents, PrefsEntry};
use chrome_extension_cleaner::scan::ChildInput;
use chrome_extension_cleaner::state::AppState;

const EXT_ID: &str = "mcbpblocgmgfnpjjppndjkmgjaogfceg";
const ACTIVE: &str = "2.1.4.18";

fn s(x: &str) -> JsonValue {
    JsonValue::Str(x.to_string())
}

fn n(x: i64) -> JsonValue {
    JsonValue::Number(Some(x))
}

fn obj(entries: Vec<(&str, JsonValue)>) -> JsonValue {
    JsonValue::Object(entries.into_iter().map(|(k, v)| (k.to_string(), v)).collect())
}

fn record(name: &str, version: &str, id: &str, location: i64) -> JsonValue {
    obj(vec![
        ("manifest", obj(vec![("name", s(name)), ("version", s(version))])),
        ("path", s(&format!("{id}/{version}_0"))),
        ("from_webstore", JsonValue::Bool(true)),
        ("location", n(location)),
    ])
}

fn settings(entries: Vec<(&str, JsonValue)>) -> JsonValue {
    obj(vec![("extensions", obj(vec![("settings", obj(entries))]))])
}

fn stub() -> JsonValue {
    obj(vec![("protection", obj(vec![("super_mac", s("DEADBEEF"))]))])
}

fn version_dir(id: &str, version: &str) -> ChildInput {
    ChildInput {
        name: format!("{version}_0"),
        is_dir: true,
        size: 100,
        path: format!("/fx/Default/Extensions/{id}/{version}_0"),
        manifest: Some(format!(
            r#"{{"name":"FireShot","version":"{version}","manifest_version":3,"default_locale":"en"}}"#
        )),
        catalogs: vec![],
    }
}

fn input(prefs: Vec<(String, PrefsEntry)>, dirs: Vec<ExtensionDirInput>) -> ScanInput {
    ScanInput {
        profiles: vec![ProfileInput { name: "Default".to_string(), prefs, extensions: Some(dirs) }],
        labels: vec![],
        status: ChromeStatus::Unknown,
        platform: "linux".to_string(),
        os: "linux".to_string(),
        chrome_version: None,
        chrome_dir: "/fx".to_string(),
    }
}

#[test]
fn older_versions_are_deletable_on_linux_layout() {
    let prefs_body = format!(
        r#"{{"extensions":{{"settings":{{"{EXT_ID}":{{
            "manifest":{{"name":"FireShot","version":"{ACTIVE}"}},
            "path":"{EXT_ID}/{ACTIVE}_0",
            "from_webstore":true,"location":1}}}}}}}}"#
    );
    let prefs = load_secure_prefs(&vec![
        Some(r#"{"protection":{"super_mac":"DEADBEEF"}}"#.to_string()),
        Some(prefs_body),
    ]);
    let dirs = vec![ExtensionDirInput {
        id: EXT_ID.to_string(),
        is_dir: true,
        children: vec![version_dir(EXT_ID, ACTIVE), version_dir(EXT_ID, "2.1.4.17")],
    }];
    let mut state = AppState::default();
    let resp = scan_root(&mut state, input(prefs, dirs), "en").unwrap();
    let ext = resp
        .extensions
        .iter()
        .find(|e| e.id == EXT_ID)
        .unwrap_or_else(|| panic!("extension missing: {:?}", resp.extensions.len()));
    assert_eq!(ext.active_version.as_deref(), Some(ACTIVE));
    assert!(ext.verified, "prefs must resolve on the Linux layout");
    let old = ext.versions.iter().find(|v| v.version == "2.1.4.17").expect("older version dir");
    assert!(old.deletable, "older version must be cleanable: {old:?}");
    assert_eq!(old.reason, "candidate");
    let active = ext.versions.iter().find(|v| v.version == ACTIVE).expect("active version dir");
    assert!(!active.deletable && active.is_active);
    assert_eq!(ext.name, "FireShot");
}

#[test]
fn missing_prefs_keeps_everything_protected() {
    let dirs = vec![ExtensionDirInput {
        id: EXT_ID.to_string(),
        is_dir: true,
        children: vec![version_dir(EXT_ID, ACTIVE), version_dir(EXT_ID, "2.1.4.17")],
    }];
    let mut state = AppState::default();
    let resp = scan_root(&mut state, input(load_secure_prefs(&vec![None, None]), dirs), "en").unwrap();
    let ext = resp.extensions.iter().find(|e| e.id == EXT_ID).unwrap();
    assert!(!ext.verified);
    assert!(ext.versions.iter().all(|v| !v.deletable), "without prefs nothing may be deletable: {:?}", ext.versions);
    assert_eq!(ext.active_version, None);
}

#[test]
fn component_extensions_are_hidden() {
    let payments = "nmmhkkegccagdldgiimedpiccmgmieda";
    let prefs = prefs_from_documents(&vec![
        Some(stub()),
        Some(settings(vec![
            (EXT_ID, record("FireShot", ACTIVE, EXT_ID, 1)),
            (payments, record("Payments", "1.0.0.6", payments, 10)),
        ])),
    ]);
    let dirs = vec![
        ExtensionDirInput { id: EXT_ID.to_string(), is_dir: true, children: vec![version_dir(EXT_ID, ACTIVE)] },
        ExtensionDirInput { id: payments.to_string(), is_dir: true, children: vec![version_dir(payments, "1.0.0.6")] },
    ];
    let mut state = AppState::default();
    let resp = scan_root(&mut state, input(prefs, dirs), "en").unwrap();
    assert!(resp.extensions.iter().any(|e| e.id == EXT_ID), "normal store extension must be listed");
    assert!(!resp.extensions.iter().any(|e| e.id == payments), "component extension must be hidden, not shown as protected");
}

#[test]
fn hidden_and_plain_entries_are_not_scanned() {
    let dirs = vec![
        ExtensionDirInput { id: ".DS_Store".to_string(), is_dir: true, children: vec![version_dir("x", "1.0")] },
        ExtensionDirInput { id: "file".to_string(), is_dir: false, children: vec![] },
        ExtensionDirInput { id: "empty".to_string(), is_dir: true, children: vec![] },
        ExtensionDirInput { id: "zzzz".to_string(), is_dir: true, children: vec![version_dir("zzzz", "1.0")] },
        ExtensionDirInput { id: "bbbb".to_string(), is_dir: true, children: vec![version_dir("bbbb", "1.0")] },
    ];
    let mut state = AppState::default();
    let resp = scan_root(&mut state, input(vec![], dirs), "en").unwrap();
    let ids: Vec<&str> = resp.extensions.iter().map(|e| e.id.as_str()).collect();
    assert_eq!(ids, vec!["bbbb", "zzzz"], "ids in name order, no hidden or empty entries");
    assert_eq!(resp.extensions[0].versions[0].cid, "s1c1");
    assert_eq!(resp.extensions[1].versions[0].cid, "s1c2");
}

#[test]
fn profiles_list_default_first_then_by_name() {
    let entries = vec![
        ("Profile 2".to_string(), true),
        ("System Profile".to_string(), false),
        ("Default".to_string(), true),
        ("Guest Profile".to_string(), true),
        ("Profile 1".to_string(), true),
    ];
    assert_eq!(list_profiles(entries), vec!["Default", "Guest Profile", "Profile 1", "Profile 2"]);
    assert!(list_profiles(vec![]).is_empty());
}

#[test]
fn labels_use_display_names_never_emails() {
    let root = obj(vec![(
        "profile",
        obj(vec![(
            "info_cache",
            obj(vec![
                ("Default", obj(vec![("name", s("Tester")), ("user_name", s("t@example.com"))])),
                ("Profile 1", obj(vec![("name", s("")), ("user_name", s("u@example.com"))])),
                ("Profile 2", obj(vec![("user_name", s("v@example.com"))])),
            ]),
        )]),
    )]);
    let labels = labels_from_document(&root);
    assert_eq!(
        labels,
        vec![
            ("Default".to_string(), "Tester".to_string()),
            ("Profile 1".to_string(), "Profile 1".to_string()),
            ("Profile 2".to_string(), "Profile 2".to_string()),
        ]
    );
    assert!(labels.iter().all(|(d, n)| !d.contains('@') && !n.contains('@')));
    assert!(labels_from_document(&JsonValue::Null).is_empty());
}

#[test]
fn labels_come_from_local_state_text() {
    let text = r#"{"profile":{"info_cache":{"Default":{"name":"Tester","user_name":"t@example.com"}}}}"#;
    assert_eq!(
        profile_labels(&Some(text.to_string())),
        vec![("Default".to_string(), "Tester".to_string())]
    );
    assert!(profile_labels(&Some("not json".to_string())).is_empty());
    assert!(profile_labels(&None).is_empty());
}

#[test]
fn display_names_are_resolved_per_ui_language() {
    let mut child = version_dir(EXT_ID, ACTIVE);
    child.manifest = Some(format!(r#"{{"name":"__MSG_appName__","version":"{ACTIVE}","default_locale":"en"}}"#));
    child.catalogs = vec![
        ("en".to_string(), Some(r#"{"appName":{"message":"FireShot EN"}}"#.to_string())),
        ("de".to_string(), Some(r#"{"appName":{"message":"FireShot DE"}}"#.to_string())),
    ];
    let dirs = vec![ExtensionDirInput { id: EXT_ID.to_string(), is_dir: true, children: vec![child] }];
    let mut state = AppState::default();
    let resp = scan_root(&mut state, input(vec![], dirs), "de").unwrap();
    let ext = &resp.extensions[0];
    assert_eq!(ext.name, "FireShot DE");
    let tags: Vec<&str> = ext.names.iter().map(|(t, _)| t.as_str()).collect();
    assert_eq!(tags, vec!["en", "zh-CN", "zh-TW", "ko", "ja", "de", "fr", "es", "pt-BR", "ru"]);
    assert_eq!(ext.names[0].1, "FireShot EN");
    assert_eq!(ext.names[5].1, "FireShot DE");
    assert_eq!(ext.names[3].1, "FireShot EN", "ko falls back to English");
}

#[test]
fn counters_fit_unless_sizes_overflow() {
    let mut big = version_dir(EXT_ID, ACTIVE);
    big.size = u64::MAX;
    let small = version_dir(EXT_ID, "2.1.4.17");
    let fits = input(vec![], vec![ExtensionDirInput { id: EXT_ID.to_string(), is_dir: true, children: vec![version_dir(EXT_ID, ACTIVE)] }]);
    assert!(chrome_extension_cleaner::inventory::scan_fits_counters(&fits));
    let overflow = input(vec![], vec![ExtensionDirInput { id: EXT_ID.to_string(), is_dir: true, children: vec![big, small] }]);
    assert!(!chrome_extension_cleaner::inventory::scan_fits_counters(&overflow));
    let mut hidden_big = version_dir(EXT_ID, ACTIVE);
    hidden_big.size = u64::MAX;
    let hidden = input(
        vec![],
        vec![
            ExtensionDirInput { id: ".cache".to_string(), is_dir: true, children: vec![hidden_big] },
            ExtensionDirInput { id: EXT_ID.to_string(), is_dir: true, children: vec![version_dir(EXT_ID, ACTIVE)] },
        ],
    );
    assert!(chrome_extension_cleaner::inventory::scan_fits_counters(&hidden), "hidden entries are not scanned");
}

#[test]
fn rows_list_each_directory_once_with_consecutive_ids() {
    let plain = |name: &str, is_dir: bool| ChildInput {
        name: name.to_string(),
        is_dir,
        size: 7,
        path: format!("/fx/Default/Extensions/{EXT_ID}/{name}"),
        manifest: None,
        catalogs: vec![],
    };
    let dirs = vec![ExtensionDirInput {
        id: EXT_ID.to_string(),
        is_dir: true,
        children: vec![
            plain("Temp", true),
            version_dir(EXT_ID, "2.0"),
            plain(".git", true),
            plain("notes", false),
            version_dir(EXT_ID, "1.0"),
        ],
    }];
    let mut state = AppState::default();
    let resp = scan_root(&mut state, input(vec![], dirs), "en").unwrap();
    let ext = &resp.extensions[0];
    let listed: Vec<(&str, &str)> = ext.versions.iter().map(|v| (v.dir.as_str(), v.cid.as_str())).collect();
    assert_eq!(listed, vec![("2.0_0", "s1c2"), ("1.0_0", "s1c1"), ("Temp", "s1c3")]);
    assert_eq!(ext.n_versions, 3);
    assert_eq!(ext.total_bytes, 207);
}

#[test]
fn profiles_are_listed_once_in_order() {
    let entries = vec![
        ("b".to_string(), true),
        ("c".to_string(), false),
        ("Default".to_string(), true),
        ("a".to_string(), true),
    ];
    assert_eq!(list_profiles(entries), vec!["Default", "a", "b"]);
}
