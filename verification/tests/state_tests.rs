use chrome_extension_cleaner::state::{AppState, CandidateRecord, CleanupPlan, PlanItem};

fn record(path: &str, size: u64) -> CandidateRecord {
    CandidateRecord {
        path: path.to_string(),
        size,
        profile: "Default".to_string(),
        ext_id: "aaaa".to_string(),
        name: "t".to_string(),
        names: vec![],
        active_version: Some("2.0".to_string()),
        version: "1.0".to_string(),
        dir: "1.0_0".to_string(),
        reason: "candidate".to_string(),
    }
}

fn plan(id: &str, scan_id: u64, cids: &[&str]) -> CleanupPlan {
    CleanupPlan {
        id: id.to_string(),
        scan_id,
        items: cids.iter().map(|c| PlanItem::from_record(&c.to_string(), &record("/p", 5))).collect(),
        used: vec![],
    }
}

#[test]
fn fresh_state_is_empty() {
    let s = AppState::default();
    assert_eq!(s.session_stats(), (0, 0));
    assert_eq!(s.last_scan_id(), 0);
    assert!(s.snapshot().is_none());
    assert_eq!(s.snapshot_len(), 0);
    assert!(s.candidate("s1c1").is_none());
}

#[test]
fn scan_ids_increase() {
    let mut s = AppState::new();
    assert_eq!(s.next_scan_id(), 1);
    assert_eq!(s.next_scan_id(), 2);
    assert_eq!(s.last_scan_id(), 2);
}

#[test]
fn snapshot_replaces_previous_and_drops_plans() {
    let mut s = AppState::new();
    s.store_snapshot(1, vec![("s1c1".to_string(), record("/a", 3))]);
    s.insert_plan(plan("p1", 1, &["s1c1"]));
    s.store_snapshot(2, vec![("s2c1".to_string(), record("/b", 4)), ("s2c2".to_string(), record("/c", 5))]);
    let (id, snap) = s.snapshot().unwrap();
    assert_eq!(id, 2);
    assert_eq!(snap.len(), 2);
    assert_eq!(s.snapshot_scan_id(), Some(2));
    assert_eq!(s.candidate("s2c2").unwrap().path, "/c");
    assert!(s.candidate("s1c1").is_none());
    assert_eq!(s.take_plan_item("p1", "s1c1").unwrap_err(), "unknown or expired plan; rescan and prepare again");
}

#[test]
fn plan_items_are_single_use() {
    let mut s = AppState::new();
    s.store_snapshot(1, vec![("s1c1".to_string(), record("/a", 3))]);
    s.insert_plan(plan("p1", 1, &["s1c1"]));
    let item = s.take_plan_item("p1", "s1c1").unwrap();
    assert_eq!(item.cid, "s1c1");
    assert_eq!(item.path, "/p");
    assert_eq!(s.take_plan_item("p1", "s1c1").unwrap_err(), "candidate already executed; replay refused");
    assert_eq!(s.take_plan_item("p1", "s1c9").unwrap_err(), "candidate not part of this plan");
    assert_eq!(s.take_plan_item("p1", "s1c9").unwrap_err(), "candidate already executed; replay refused");
}

#[test]
fn plan_of_an_older_scan_is_refused() {
    let mut s = AppState::new();
    s.store_snapshot(3, vec![]);
    s.insert_plan(plan("old", 2, &["s2c1"]));
    assert_eq!(s.take_plan_item("old", "s2c1").unwrap_err(), "plan belongs to an older scan; rescan and prepare again");
}

#[test]
fn inserting_a_plan_with_a_known_id_replaces_it() {
    let mut s = AppState::new();
    s.store_snapshot(1, vec![]);
    s.insert_plan(plan("p", 1, &["a"]));
    s.insert_plan(plan("p", 1, &["b"]));
    assert_eq!(s.take_plan_item("p", "a").unwrap_err(), "candidate not part of this plan");
    assert_eq!(s.take_plan_item("p", "b").unwrap().cid, "b");
}

#[test]
fn baseline_captured_once() {
    let mut s = AppState::new();
    assert_eq!(s.baseline_or_set(100, 10), (100, 10));
    assert_eq!(s.baseline_or_set(50, 5), (100, 10));
}

#[test]
fn session_totals_grow() {
    let mut s = AppState::new();
    assert_eq!(s.add_session_freed(0), 0);
    assert_eq!(s.record_deletion(40), (40, 1));
    assert_eq!(s.record_deletion(2), (42, 2));
    assert_eq!(s.add_session_freed(8), 50);
    assert_eq!(s.session_stats(), (50, 2));
}
