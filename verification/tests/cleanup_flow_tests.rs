use chrome_extension_cleaner::clean::{
    contained_version_dir, delete_candidate, deletion_finished, prepare_cleanup, prepare_plan,
    verify_deletion, DirEntryFacts,
};
use chrome_extension_cleaner::env::ChromeStatus;
use chrome_extension_cleaner::inventory::{scan, scan_root, ExtensionDirInput, ProfileInput, ScanInput, ScanResponse};
use chrome_extension_cleaner::json::JsonValue;
use chrome_extension_cleaner::prefs::{InstallSource, PrefsEntry};
use chrome_extension_cleaner::scan::{file_name_of, ChildInput};
use chrome_extension_cleaner::state::{AppState, PlanItem};

const ROOT: &str = "/fx";
const DIR_BYTES: u64 = 4136;

fn s(x: &str) -> JsonValue {
    JsonValue::Str(x.to_string())
}

fn obj(entries: Vec<(&str, JsonValue)>) -> JsonValue {
    JsonValue::Object(entries.into_iter().map(|(k, v)| (k.to_string(), v)).collect())
}

fn manifest(version: &str) -> Option<String> {
    Some(format!(r#"{{"name": "t", "version": "{version}"}}"#))
}

fn child(id: &str, dir: &str, version: Option<&str>) -> ChildInput {
    ChildInput {
        name: dir.to_string(),
        is_dir: true,
        size: if version.is_some() { DIR_BYTES } else { 0 },
        path: format!("{ROOT}/Default/Extensions/{id}/{dir}"),
        manifest: version.and_then(manifest),
        catalogs: vec![],
    }
}

fn prefs_entry(version: &str, disabled: bool, standard: bool) -> PrefsEntry {
    PrefsEntry {
        name: Some("t".to_string()),
        version: Some(version.to_string()),
        disk_path: Some(format!("x/{version}_0")),
        disable_reasons: if disabled { vec![1] } else { vec![] },
        location: Some(1),
        install_source: if standard { InstallSource::WebStoreStandard } else { InstallSource::Other },
    }
}

/// Every classification branch, as the scan reads it from disk.
fn fixture_parts() -> (Vec<(String, PrefsEntry)>, Vec<ExtensionDirInput>) {
    let mut prefs = Vec::new();
    let mut dirs = Vec::new();
    let mut ext = |id: &str, vers: &[(&str, Option<&str>)], p: Option<PrefsEntry>| {
        dirs.push(ExtensionDirInput {
            id: id.to_string(),
            is_dir: true,
            children: vers.iter().map(|(d, v)| child(id, d, *v)).collect(),
        });
        if let Some(p) = p {
            prefs.push((id.to_string(), p));
        }
    };
    ext("aaaa", &[("1.0_0", Some("1.0")), ("2.0_0", Some("2.0"))], Some(prefs_entry("2.0", false, true)));
    ext("bbbb", &[("1.0_0", Some("1.0")), ("2.0_0", Some("2.0"))], Some(prefs_entry("1.0", false, true)));
    ext("cccc", &[("1.0_0", Some("9.9")), ("2.0_0", Some("2.0"))], Some(prefs_entry("2.0", false, true)));
    ext("dddd", &[("1.0_0", Some("1.0")), ("2.0_0", Some("2.0"))], None);
    ext("eeee", &[("1.0_0", Some("1.0")), ("3.0_0", Some("3.0"))], Some(prefs_entry("3.0", true, true)));
    ext("ffff", &[("1.0_0", Some("1.0")), ("2.0_0", Some("2.0"))], Some(prefs_entry("2.0", false, false)));
    ext("gggg", &[("Temp", None), ("1.0_0", Some("1.0"))], Some(prefs_entry("1.0", false, true)));
    ext("hhhh", &[("1.0_0", Some("1.0"))], Some(prefs_entry("1.0", false, true)));
    (prefs, dirs)
}

fn fixture() -> ScanInput {
    let (prefs, dirs) = fixture_parts();
    ScanInput {
        profiles: vec![ProfileInput { name: "Default".to_string(), prefs, extensions: Some(dirs) }],
        labels: vec![("Default".to_string(), "Tester".to_string())],
        status: ChromeStatus::Stopped,
        platform: "linux".to_string(),
        os: "linux 6.8.0".to_string(),
        chrome_version: Some("152.0.0.0".to_string()),
        chrome_dir: ROOT.to_string(),
    }
}

fn fixture_prefs() -> Vec<(String, PrefsEntry)> {
    fixture_parts().0
}

/// What the extension directory of `ext_id` holds at delete time.
fn entries_of(ext_id: &str) -> Vec<DirEntryFacts> {
    let (_, dirs) = fixture_parts();
    let d = dirs.into_iter().find(|d| d.id == ext_id).unwrap();
    d.children
        .into_iter()
        .map(|c| DirEntryFacts { name: c.name, is_dir: c.is_dir, manifest: c.manifest })
        .collect()
}

fn comps(path: &str) -> Vec<String> {
    path.split('/').filter(|c| !c.is_empty()).map(str::to_string).collect()
}

fn deletable_cids(resp: &ScanResponse) -> Vec<String> {
    resp.extensions
        .iter()
        .flat_map(|e| e.versions.iter())
        .filter(|v| v.deletable)
        .map(|v| v.cid.clone())
        .collect()
}

/// The whole delete-time sequence for one planned candidate, with the
/// filesystem answers given: containment, fresh prefs and listing.
fn run_delete(
    state: &mut AppState,
    plan_id: &str,
    cid: &str,
    prefs: &Vec<(String, PrefsEntry)>,
    target_override: Option<Vec<String>>,
) -> chrome_extension_cleaner::clean::DeleteResult {
    let status = ChromeStatus::Stopped;
    let item: PlanItem = match delete_candidate(state, &Ok(ROOT.to_string()), plan_id, cid, status) {
        Ok(item) => item,
        Err(refused) => return refused,
    };
    let target = target_override.unwrap_or_else(|| comps(&item.path));
    let base = comps(&format!("{ROOT}/{}/Extensions/{}", item.profile, item.ext_id));
    let contained = contained_version_dir(&Ok(target), &Ok(base));
    match verify_deletion(&item, contained, prefs, &entries_of(&item.ext_id)) {
        Ok(_) => deletion_finished(state, cid, status, item.size, Ok(())),
        Err(e) => chrome_extension_cleaner::clean::deletion_refused(state, cid, status, e),
    }
}

#[test]
fn classification_branches() {
    let mut state = AppState::default();
    let resp = scan_root(&mut state, fixture(), "en").unwrap();

    assert_eq!(
        resp.profile_labels.iter().find(|(d, _)| d == "Default").map(|(_, n)| n.as_str()),
        Some("Tester")
    );
    assert!(!format!("{resp:?}").contains('@'));

    let got = deletable_cids(&resp);
    assert_eq!(got.len(), 2);
    let deletable_of = |id: &str| -> Vec<String> {
        resp.extensions
            .iter()
            .find(|e| e.id == id)
            .unwrap()
            .versions
            .iter()
            .filter(|v| v.deletable)
            .map(|v| v.version.clone())
            .collect()
    };
    assert_eq!(deletable_of("aaaa"), vec!["1.0"]);
    assert_eq!(deletable_of("eeee"), vec!["1.0"]);
    assert!(deletable_of("bbbb").is_empty(), "staged 2.0 must be protected");
    assert!(deletable_of("cccc").is_empty(), "manifest mismatch must be protected");
    assert!(deletable_of("dddd").is_empty(), "unverified must be protected");
    assert!(deletable_of("ffff").is_empty(), "non-standard must be protected");
    assert!(deletable_of("gggg").is_empty());
    assert!(deletable_of("hhhh").is_empty());

    let reason = |id: &str, dir: &str| -> String {
        resp.extensions
            .iter()
            .find(|e| e.id == id)
            .unwrap()
            .versions
            .iter()
            .find(|v| v.dir == dir)
            .unwrap()
            .reason
            .clone()
    };
    assert_eq!(reason("bbbb", "2.0_0"), "protected:newer-than-active");
    assert_eq!(reason("cccc", "1.0_0"), "protected:manifest-mismatch");
    assert_eq!(reason("ffff", "1.0_0"), "protected:non-standard-install");
    assert_eq!(reason("gggg", "Temp"), "protected:unknown-layout");
    assert_eq!(reason("dddd", "1.0_0"), "protected:unverified");
    assert_eq!(reason("aaaa", "2.0_0"), "active");
    assert_eq!(reason("aaaa", "1.0_0"), "candidate");
}

#[test]
fn scan_orders_and_totals() {
    let mut state = AppState::default();
    let resp = scan_root(&mut state, fixture(), "en").unwrap();
    assert_eq!(resp.scan_id, 1);
    assert!(resp.chrome_detected);
    assert_eq!(resp.profiles, vec!["Default".to_string()]);
    let ids: Vec<&str> = resp.extensions.iter().map(|e| e.id.as_str()).collect();
    assert_eq!(ids, vec!["aaaa", "eeee", "bbbb", "cccc", "dddd", "ffff", "gggg", "hhhh"]);
    assert_eq!(resp.total_bytes, 14 * DIR_BYTES);
    assert_eq!(resp.waste_bytes, 2 * DIR_BYTES);
    assert_eq!((resp.baseline_total_bytes, resp.baseline_waste_bytes), (14 * DIR_BYTES, 2 * DIR_BYTES));
    assert_eq!((resp.session_freed_bytes, resp.session_cleaned_count), (0, 0));
    assert_eq!(resp.chrome_version.as_deref(), Some("152.0.0.0"));
    assert_eq!(resp.chrome_status, ChromeStatus::Stopped);

    let aaaa = &resp.extensions[0];
    assert_eq!(aaaa.active_version.as_deref(), Some("2.0"));
    assert!(aaaa.verified && aaaa.enabled);
    assert_eq!(aaaa.n_versions, 2);
    let dirs: Vec<&str> = aaaa.versions.iter().map(|v| v.dir.as_str()).collect();
    assert_eq!(dirs, vec!["2.0_0", "1.0_0"], "newest first");
    let cids: Vec<&str> = aaaa.versions.iter().map(|v| v.cid.as_str()).collect();
    assert_eq!(cids, vec!["s1c2", "s1c1"]);
    let eeee = resp.extensions.iter().find(|e| e.id == "eeee").unwrap();
    assert!(!eeee.enabled);
    assert_eq!(eeee.disable_reasons, vec![1]);
    let gggg = resp.extensions.iter().find(|e| e.id == "gggg").unwrap();
    let temp = gggg.versions.iter().find(|v| v.dir == "Temp").unwrap();
    assert!(temp.unknown && temp.is_active && !temp.deletable);
    assert_eq!(gggg.versions.last().unwrap().dir, "Temp", "rows without a version come last");
}

#[test]
fn candidate_ids_are_unique_and_pathless() {
    let mut state = AppState::default();
    let resp = scan_root(&mut state, fixture(), "en").unwrap();
    let all: Vec<&String> = resp.extensions.iter().flat_map(|e| e.versions.iter()).map(|v| &v.cid).collect();
    for (i, a) in all.iter().enumerate() {
        assert!(!a.contains('/') && !a.contains('\\'), "cid leaks a path: {a}");
        assert!(a.starts_with("s1c"));
        for b in all.iter().skip(i + 1) {
            assert_ne!(a, b);
        }
    }
}

#[test]
fn scan_invariants_hold_on_fixture() {
    let mut state = AppState::default();
    let resp = scan_root(&mut state, fixture(), "en").unwrap();
    for ext in &resp.extensions {
        let mut saw_active = false;
        for v in &ext.versions {
            if v.unknown {
                assert!(!v.deletable);
            }
            if v.is_active {
                assert!(!v.deletable);
            }
            if v.is_active && !v.unknown {
                saw_active = true;
            }
            if v.deletable {
                assert!(ext.verified);
            }
        }
        assert!(saw_active, "{} keeps its active version", ext.id);
        assert!(ext.waste_bytes <= ext.total_bytes);
    }
}

#[test]
fn prepare_guards_unknown_dup_and_empty() {
    let mut state = AppState::default();
    let resp = scan_root(&mut state, fixture(), "en").unwrap();
    let cids = deletable_cids(&resp);

    assert_eq!(prepare_cleanup(&mut state, vec![]).unwrap_err(), "no candidates selected");
    assert_eq!(
        prepare_cleanup(&mut state, vec!["nope".to_string()]).unwrap_err(),
        "unknown or expired candidate: nope"
    );
    assert_eq!(
        prepare_cleanup(&mut state, vec![cids[0].clone(), cids[0].clone()]).unwrap_err(),
        format!("duplicated candidate id: {}", cids[0])
    );
    assert_eq!(
        prepare_cleanup(&mut state, vec!["a".into(), "b".into(), "c".into(), "d".into()]).unwrap_err(),
        "candidate list larger than snapshot; refused"
    );

    let plan = prepare_cleanup(&mut state, cids.clone()).unwrap();
    assert_eq!(plan.items.len(), 2);
    assert_eq!(plan.total_bytes, 2 * DIR_BYTES);
    assert_eq!(plan.plan_id.len(), 32);
    assert!(plan.plan_id.chars().all(|c| c.is_ascii_hexdigit() && !c.is_ascii_uppercase()));
    let planned: Vec<&str> = plan.items.iter().map(|i| i.cid.as_str()).collect();
    assert_eq!(planned, cids.iter().map(String::as_str).collect::<Vec<_>>());
}

#[test]
fn prepare_without_scan_is_refused() {
    let mut state = AppState::default();
    assert_eq!(
        prepare_cleanup(&mut state, vec!["s1c1".to_string()]).unwrap_err(),
        "scan first; no active snapshot"
    );
}

#[test]
fn delete_happy_path_then_replay_refused() {
    let mut state = AppState::default();
    let resp = scan_root(&mut state, fixture(), "en").unwrap();
    let cids = deletable_cids(&resp);
    let plan = prepare_cleanup(&mut state, cids).unwrap();
    let prefs = fixture_prefs();

    let target = plan.items[0].clone();
    let out = run_delete(&mut state, &plan.plan_id, &target.cid, &prefs, None);
    assert!(out.ok, "unexpected: {:?}", out.error);
    assert!(out.freed_bytes > 0);
    assert_eq!(out.session_freed_bytes, out.freed_bytes);
    assert_eq!(out.session_cleaned_count, 1);
    assert_eq!(state.session_stats(), (DIR_BYTES, 1));

    let again = run_delete(&mut state, &plan.plan_id, &target.cid, &prefs, None);
    assert!(!again.ok);
    assert_eq!(again.error.as_deref(), Some("candidate already executed; replay refused"));
    assert_eq!(again.session_freed_bytes, DIR_BYTES);
}

#[test]
fn rescan_invalidates_old_plans() {
    let mut state = AppState::default();
    let resp = scan_root(&mut state, fixture(), "en").unwrap();
    let cids = deletable_cids(&resp);
    let plan = prepare_cleanup(&mut state, cids.clone()).unwrap();

    let _ = scan_root(&mut state, fixture(), "en").unwrap();
    let out = run_delete(&mut state, &plan.plan_id, &cids[0], &fixture_prefs(), None);
    assert!(!out.ok);
    assert_eq!(out.error.as_deref(), Some("unknown or expired plan; rescan and prepare again"));
}

#[test]
fn active_change_between_prepare_and_delete_refuses() {
    let mut state = AppState::default();
    let resp = scan_root(&mut state, fixture(), "en").unwrap();
    let cids = deletable_cids(&resp);
    let plan = prepare_cleanup(&mut state, cids).unwrap();

    let mut prefs = fixture_prefs();
    for (id, p) in prefs.iter_mut() {
        if id == "aaaa" {
            p.version = Some("9.9".to_string());
        }
    }
    let target_cid = plan.items.iter().find(|i| i.ext_id == "aaaa").unwrap().cid.clone();
    let out = run_delete(&mut state, &plan.plan_id, &target_cid, &prefs, None);
    assert!(!out.ok, "must refuse when active moved");
    assert_eq!(out.error.as_deref(), Some("active version changed since scan; rescan required"));
}

#[test]
fn symlink_escape_refused() {
    let mut state = AppState::default();
    let resp = scan_root(&mut state, fixture(), "en").unwrap();
    let cids = deletable_cids(&resp);
    let plan = prepare_cleanup(&mut state, cids).unwrap();
    let target = plan.items[0].clone();

    let outside = comps(&format!("{ROOT}/outside-secret"));
    let out = run_delete(&mut state, &plan.plan_id, &target.cid, &fixture_prefs(), Some(outside));
    assert!(!out.ok, "symlink escape must be refused");
    assert_eq!(out.error.as_deref(), Some("target escapes its extension directory"));
    assert_eq!(state.session_stats(), (0, 0));
}

#[test]
fn unknown_plan_and_foreign_paths_refused() {
    let mut state = AppState::default();
    let _ = scan_root(&mut state, fixture(), "en").unwrap();
    assert_eq!(
        state.take_plan_item("missing-plan", "s1c1").unwrap_err(),
        "unknown or expired plan; rescan and prepare again"
    );
}

#[test]
fn candidate_outside_plan_is_refused() {
    let mut state = AppState::default();
    let resp = scan_root(&mut state, fixture(), "en").unwrap();
    let cids = deletable_cids(&resp);
    let plan = prepare_cleanup(&mut state, vec![cids[0].clone()]).unwrap();
    assert_eq!(
        state.take_plan_item(&plan.plan_id, &cids[1]).unwrap_err(),
        "candidate not part of this plan"
    );
}

#[test]
fn missing_chrome_dir_reports_why() {
    let mut state = AppState::default();
    let dir: Result<String, String> = Err("Chrome user-data directory not found: /nowhere".to_string());
    match delete_candidate(&mut state, &dir, "p", "s1c1", ChromeStatus::Unknown) {
        Ok(_) => panic!("nothing may be taken without Chrome"),
        Err(r) => {
            assert!(!r.ok);
            assert_eq!(r.cid, "s1c1");
            assert_eq!(r.error.as_deref(), Some("Chrome user-data directory not found: /nowhere"));
            assert_eq!(r.chrome_status, ChromeStatus::Unknown);
        }
    }
}

#[test]
fn failed_removal_reports_delete_failed() {
    let mut state = AppState::default();
    let r = deletion_finished(&mut state, "s1c1", ChromeStatus::Running, 10, Err("permission denied".to_string()));
    assert!(!r.ok);
    assert_eq!(r.freed_bytes, 0);
    assert_eq!(r.error.as_deref(), Some("delete failed: permission denied"));
    assert_eq!(state.session_stats(), (0, 0));
}

#[test]
fn verify_refusals_name_their_reason() {
    let mut state = AppState::default();
    let resp = scan_root(&mut state, fixture(), "en").unwrap();
    let plan = prepare_cleanup(&mut state, deletable_cids(&resp)).unwrap();
    let item = plan.items.iter().find(|i| i.ext_id == "aaaa").unwrap();
    let prefs = fixture_prefs();
    let entries = entries_of("aaaa");
    let ok = verify_deletion(item, Ok("1.0_0".to_string()), &prefs, &entries);
    assert_eq!(ok.as_deref(), Ok("1.0_0"));

    let err = |r: Result<String, String>| r.unwrap_err();
    assert_eq!(err(verify_deletion(item, Err("x".into()), &prefs, &entries)), "x");
    assert_eq!(
        err(verify_deletion(item, Ok("1.0_0".into()), &vec![], &entries)),
        "extension vanished from Chrome prefs"
    );
    let mut bad = prefs.clone();
    bad[0].1.version = Some("two".into());
    assert_eq!(err(verify_deletion(item, Ok("1.0_0".into()), &bad, &entries)), "active version unreadable; refused");
    assert_eq!(
        err(verify_deletion(item, Ok("Temp".into()), &prefs, &entries)),
        "target is not a version directory"
    );
    assert_eq!(
        err(verify_deletion(item, Ok("2.0_0".into()), &prefs, &entries)),
        "target is not older than active; refused"
    );
    let mut no_active = entries_of("aaaa");
    no_active.retain(|e| e.name != "2.0_0");
    assert_eq!(
        err(verify_deletion(item, Ok("1.0_0".into()), &prefs, &no_active)),
        "active directory not found on disk"
    );
    let mut active_broken = entries_of("aaaa");
    active_broken[1].manifest = None;
    assert_eq!(
        err(verify_deletion(item, Ok("1.0_0".into()), &prefs, &active_broken)),
        "active manifest mismatch; refused"
    );
    let mut target_broken = entries_of("aaaa");
    target_broken[0].manifest = manifest("1.5");
    assert_eq!(
        err(verify_deletion(item, Ok("1.0_0".into()), &prefs, &target_broken)),
        "target manifest mismatch; refused"
    );
    let mut gone = entries_of("aaaa");
    gone.retain(|e| e.name != "1.0_0");
    gone.push(DirEntryFacts { name: "1.0_0".into(), is_dir: false, manifest: manifest("1.0") });
    assert_eq!(
        err(verify_deletion(item, Ok("1.0_0".into()), &prefs, &gone)),
        "nothing safe to delete; skipped"
    );
}

#[test]
fn containment_errors() {
    let base = Ok(comps("/fx/Default/Extensions/aaaa"));
    assert_eq!(
        contained_version_dir(&Err("gone".into()), &base).unwrap_err(),
        "cannot resolve target: gone"
    );
    assert_eq!(
        contained_version_dir(&Ok(comps("/fx/Default/Extensions/aaaa/1.0_0")), &Err("gone".into())).unwrap_err(),
        "cannot resolve extension dir: gone"
    );
    assert_eq!(
        contained_version_dir(&Ok(comps("/fx/Default/Extensions/aaaa/1.0_0/x")), &base).unwrap_err(),
        "target is not a direct version child"
    );
    assert_eq!(
        contained_version_dir(&Ok(comps("/fx/Default/Extensions/aaaa")), &base).unwrap_err(),
        "target is not a direct version child"
    );
    assert_eq!(
        contained_version_dir(&Ok(comps("/fx/Default/Extensions/aaaa/Temp")), &base).unwrap_err(),
        "target is not a version directory"
    );
    assert_eq!(
        contained_version_dir(&Ok(comps("/fx/Default/Extensions/aaaa/1.0_0")), &base).unwrap(),
        "1.0_0"
    );
}

#[test]
fn baseline_is_captured_once() {
    let mut state = AppState::default();
    let first = scan_root(&mut state, fixture(), "en").unwrap();
    let mut smaller = fixture();
    if let Some(exts) = &mut smaller.profiles[0].extensions {
        exts.retain(|d| d.id != "aaaa");
    }
    let second = scan_root(&mut state, smaller, "en").unwrap();
    assert_eq!(second.scan_id, 2);
    assert_eq!(second.total_bytes, first.total_bytes - 2 * DIR_BYTES);
    assert_eq!(second.baseline_total_bytes, first.total_bytes);
    assert_eq!(second.baseline_waste_bytes, first.waste_bytes);
}

#[test]
fn missing_chrome_scan_says_where_it_looked() {
    let mut state = AppState::default();
    let resp = scan(&mut state, None, "macos".into(), "macOS 15.7.2".into(), "/Users/x/Library/Application Support/Google/Chrome".into(), "en").unwrap();
    assert!(!resp.chrome_detected);
    assert_eq!(resp.scan_id, 1);
    assert_eq!(resp.expected_dir, "/Users/x/Library/Application Support/Google/Chrome");
    assert_eq!(resp.chrome_status, ChromeStatus::Unknown);
    assert!(resp.extensions.is_empty() && resp.profiles.is_empty());
    assert_eq!(resp.total_bytes, 0);
    let found = scan(&mut state, Some(fixture()), "ignored".into(), "ignored".into(), String::new(), "en").unwrap();
    assert!(found.chrome_detected);
    assert_eq!(found.scan_id, 2);
    assert_eq!(found.expected_dir, "");
    assert_eq!(found.platform, "linux");
}

#[test]
fn same_version_sibling_is_protected() {
    let mut input = fixture();
    let (prefs, _) = fixture_parts();
    input.profiles[0].prefs = prefs;
    input.profiles[0].extensions = Some(vec![ExtensionDirInput {
        id: "aaaa".to_string(),
        is_dir: true,
        children: vec![child("aaaa", "2.0_0", Some("2.0")), child("aaaa", "2.0_1", Some("2.0"))],
    }]);
    let mut state = AppState::default();
    let resp = scan_root(&mut state, input, "en").unwrap();
    let ext = &resp.extensions[0];
    assert!(ext.verified);
    assert!(ext.versions.iter().all(|v| !v.deletable), "{:?}", ext.versions);
    assert_eq!(ext.waste_bytes, 0);
    let sibling = ext.versions.iter().find(|v| v.dir == "2.0_1").unwrap();
    assert_eq!(sibling.reason, "protected:same-as-active");
    assert_eq!(state.snapshot().unwrap().1.len(), 0);
}

#[test]
fn scan_without_chrome_drops_every_plan() {
    let mut state = AppState::default();
    let resp = scan_root(&mut state, fixture(), "en").unwrap();
    let cids = deletable_cids(&resp);
    let plan = prepare_cleanup(&mut state, cids.clone()).unwrap();
    let missing = scan(&mut state, None, "linux".into(), "linux".into(), "/home/u/.config/google-chrome".into(), "en").unwrap();
    assert!(!missing.chrome_detected);
    let (id, snap) = state.snapshot().unwrap();
    assert_eq!(id, missing.scan_id);
    assert!(snap.is_empty());
    for c in &cids {
        assert_eq!(
            state.take_plan_item(&plan.plan_id, c).unwrap_err(),
            "unknown or expired plan; rescan and prepare again"
        );
    }
}

#[test]
fn plan_id_spells_the_random_bytes() {
    let mut state = AppState::default();
    let resp = scan_root(&mut state, fixture(), "en").unwrap();
    let cids = deletable_cids(&resp);
    assert_eq!(
        prepare_plan(&mut state, cids.clone(), None).unwrap_err(),
        "random source unavailable; plan not created"
    );
    let mut bytes = [0u8; 16];
    bytes[0] = 0xab;
    bytes[15] = 0x01;
    let plan = prepare_plan(&mut state, cids.clone(), Some(bytes)).unwrap();
    assert_eq!(plan.plan_id, "ab000000000000000000000000000001");
    assert_eq!(plan.items.len(), 2);
    assert!(state.take_plan_item(&plan.plan_id, &cids[0]).is_ok());
}

#[test]
fn backslash_separates_recorded_paths_only_on_windows() {
    let make = |platform: &str| {
        let mut input = fixture();
        input.platform = platform.to_string();
        let mut p = prefs_entry("2.0", false, true);
        p.disk_path = Some("aaaa\\2.0_0".to_string());
        input.profiles[0].prefs = vec![("aaaa".to_string(), p)];
        input.profiles[0].extensions = Some(vec![ExtensionDirInput {
            id: "aaaa".to_string(),
            is_dir: true,
            children: vec![child("aaaa", "1.0_0", Some("1.0")), child("aaaa", "2.0_0", Some("2.0"))],
        }]);
        input
    };
    let mut state = AppState::default();
    let on_windows = scan_root(&mut state, make("windows"), "en").unwrap();
    assert!(on_windows.extensions[0].verified);
    let on_linux = scan_root(&mut state, make("linux"), "en").unwrap();
    assert!(!on_linux.extensions[0].verified, "on Unix the whole recorded path is one name");
    assert_eq!(chrome_extension_cleaner::scan::file_name_of("a\\b", true).as_deref(), Some("b"));
    assert_eq!(chrome_extension_cleaner::scan::file_name_of("a\\b", false).as_deref(), Some("a\\b"));
    assert_eq!(chrome_extension_cleaner::scan::file_name_of("x/2.0_0/", false).as_deref(), Some("2.0_0"));
    assert_eq!(chrome_extension_cleaner::scan::file_name_of("x/..", false), None);
}

#[test]
fn windows_path_prefixes_are_not_names() {
    assert_eq!(file_name_of("C:1.2.3_0", true).as_deref(), Some("1.2.3_0"));
    assert_eq!(file_name_of("C:1.2.3_0", false).as_deref(), Some("C:1.2.3_0"));
    assert_eq!(file_name_of("C:", true), None);
    assert_eq!(file_name_of("\\\\server\\1.2.3_0", true), None);
    assert_eq!(file_name_of("\\\\server\\share\\1.2.3_0", true).as_deref(), Some("1.2.3_0"));
    assert_eq!(file_name_of("\\\\?\\C:\\x\\a/b", true).as_deref(), Some("a/b"));
    assert_eq!(file_name_of("\\\\?\\UNC\\srv\\share", true), None);
    assert_eq!(file_name_of("\\\\.\\COM42", true), None);
}
