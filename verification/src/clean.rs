//! Cleanup planning and guarded execution.
//!
//! The frontend never sends paths. It sends candidate ids from the current
//! scan; this module resolves them against the stored snapshot, re-verifies
//! everything at delete time, and deletes exactly one directory per call.

use vstd::prelude::*;
use crate::env::ChromeStatus;
use crate::state::{
    key_index, lemma_key_index, spec_insert_plan, total_size, AppState,
    CleanupPlan, PlanItem, PlanItemView, PlanView, RecordView, StateView, strs_view,
};
use crate::text::{chars_of, push_char, str_eq};
use crate::json::JsonValue;
use crate::prefs::{prefs_get, prefs_lookup, PrefsEntry};
use crate::version::{spec_parse, spec_split_dir_name, split_dir_name, ChromeVersion};

verus! {

/// A prepared plan: ids the UI shows, paths stay server-side.
#[derive(Debug)]
pub struct PrepareResponse {
    pub plan_id: String,
    pub items: Vec<PlanItem>,
    pub total_bytes: u64,
}

/// Outcome of a single deletion.
#[derive(Debug)]
pub struct DeleteResult {
    pub cid: String,
    pub ok: bool,
    pub freed_bytes: u64,
    pub session_freed_bytes: u64,
    /// Folders removed this session, including this one when it succeeded.
    pub session_cleaned_count: u64,
    pub chrome_status: ChromeStatus,
    pub error: Option<String>,
}

/// Lowercase hexadecimal digit.
pub open spec fn hex_digit(n: int) -> char {
    if n < 10 {
        (('0' as int) + n) as char
    } else {
        (('a' as int) + n - 10) as char
    }
}

/// Two lowercase hex digits per byte, as `format!("{b:02x}")` writes them.
pub open spec fn hex_lower(b: Seq<u8>) -> Seq<char>
    decreases b.len(),
{
    if b.len() == 0 {
        Seq::<char>::empty()
    } else {
        hex_lower(b.drop_last()) + seq![
            hex_digit(b.last() as int / 16),
            hex_digit(b.last() as int % 16),
        ]
    }
}

/// Sixteen bytes from the operating system's random source
/// (`rand::rngs::OsRng` through `RngCore::try_fill_bytes`), or `None` when
/// that source fails. Nothing is promised about the values, nor about when
/// the source fails: both depend on the machine.
#[verifier::external_body]
fn random_bytes() -> (r: Option<[u8; 16]>) {
    let mut bytes = [0u8; 16];
    match rand::RngCore::try_fill_bytes(&mut rand::rngs::OsRng, &mut bytes) {
        Ok(()) => Some(bytes),
        Err(_) => None,
    }
}

fn hex_char(n: u8) -> (c: char)
    requires
        n < 16,
    ensures
        c == hex_digit(n as int),
{
    if n < 10 {
        (48u8 + n) as char
    } else {
        (87u8 + n) as char
    }
}

/// Lowercase hex encoding of `bytes`.
pub fn to_hex(bytes: &[u8]) -> (r: String)
    ensures
        r@ == hex_lower(bytes@),
{
    let mut out = String::new();
    let mut i: usize = 0;
    while i < bytes.len()
        invariant
            i <= bytes@.len(),
            out@ == hex_lower(bytes@.subrange(0, i as int)),
        decreases bytes@.len() - i,
    {
        let b = bytes[i];
        push_char(&mut out, hex_char(b / 16));
        push_char(&mut out, hex_char(b % 16));
        let ghost pre = bytes@.subrange(0, i as int);
        assert(bytes@.subrange(0, i + 1).drop_last() =~= pre);
        i = i + 1;
        assert(out@ =~= hex_lower(bytes@.subrange(0, i as int)));
    }
    assert(bytes@.subrange(0, bytes@.len() as int) =~= bytes@);
    out
}

/// Why a plan could not be created although every candidate was valid.
pub open spec fn err_no_randomness() -> Seq<char> {
    "random source unavailable; plan not created"@
}

pub open spec fn cids_view(v: Seq<String>) -> Seq<Seq<char>> {
    Seq::new(v.len(), |i: int| v[i]@)
}

/// Index of the first candidate id that is either repeated (already listed
/// earlier) or unknown to the snapshot, looking from `from` on.
pub open spec fn first_bad(cids: Seq<Seq<char>>, snap: Seq<(Seq<char>, RecordView)>, from: int) -> Option<int>
    decreases cids.len() - from,
{
    if from < 0 || from >= cids.len() {
        None
    } else if cids.take(from).contains(cids[from]) || key_index(snap, cids[from]) is None {
        Some(from)
    } else {
        first_bad(cids, snap, from + 1)
    }
}

/// Why `prepare_cleanup` refuses `cids` in state `s`, if it does.
pub open spec fn prepare_error(s: StateView, cids: Seq<Seq<char>>) -> Option<Seq<char>> {
    if cids.len() == 0 {
        Some("no candidates selected"@)
    } else {
        match s.current {
            None => Some("scan first; no active snapshot"@),
            Some(c) => if cids.len() > c.1.len() + 1 {
                Some("candidate list larger than snapshot; refused"@)
            } else {
                match first_bad(cids, c.1, 0) {
                    Some(i) => if cids.take(i).contains(cids[i]) {
                        Some("duplicated candidate id: "@ + cids[i])
                    } else {
                        Some("unknown or expired candidate: "@ + cids[i])
                    },
                    None => None,
                }
            },
        }
    }
}

/// The plan item frozen for candidate `cid` from the snapshot.
pub open spec fn planned_item(snap: Seq<(Seq<char>, RecordView)>, cid: Seq<char>) -> PlanItemView {
    PlanItemView { cid, record: snap[key_index(snap, cid).unwrap()].1 }
}

/// Sum of the sizes of plan items.
pub open spec fn items_size(items: Seq<PlanItemView>) -> nat
    decreases items.len(),
{
    if items.len() == 0 {
        0
    } else {
        items_size(items.drop_last()) + (items.last().record.size as nat)
    }
}

/// Sum of the sizes of the snapshot records marked in `chosen`.
pub open spec fn masked_size(snap: Seq<(Seq<char>, RecordView)>, chosen: Seq<bool>) -> nat
    decreases snap.len(),
{
    if snap.len() == 0 || chosen.len() != snap.len() {
        0
    } else {
        masked_size(snap.drop_last(), chosen.drop_last()) + if chosen.last() {
            snap.last().1.size as nat
        } else {
            0
        }
    }
}

proof fn lemma_masked_le_total(snap: Seq<(Seq<char>, RecordView)>, chosen: Seq<bool>)
    ensures
        masked_size(snap, chosen) <= total_size(snap),
    decreases snap.len(),
{
    if snap.len() > 0 && chosen.len() == snap.len() {
        lemma_masked_le_total(snap.drop_last(), chosen.drop_last());
    }
}

proof fn lemma_masked_add(snap: Seq<(Seq<char>, RecordView)>, chosen: Seq<bool>, k: int)
    requires
        chosen.len() == snap.len(),
        0 <= k < snap.len(),
        !chosen[k],
    ensures
        masked_size(snap, chosen.update(k, true)) == masked_size(snap, chosen) + snap[k].1.size,
    decreases snap.len(),
{
    let c2 = chosen.update(k, true);
    if k == snap.len() - 1 {
        assert(c2.drop_last() =~= chosen.drop_last());
    } else {
        assert(c2.drop_last() =~= chosen.drop_last().update(k, true));
        lemma_masked_add(snap.drop_last(), chosen.drop_last(), k);
    }
}

/// Freeze a set of candidate ids into a single-use plan.
/// Every id must come from the current scan's snapshot; anything else
/// (unknown, stale, duplicated) fails the whole call and leaves the state
/// unchanged. On success the plan lists the candidates in the order given,
/// each with the record the scan bound to it, under the id spelled by the
/// 16 `random` bytes in lowercase hex; without random bytes the call fails
/// and the state is unchanged.
pub fn prepare_plan(state: &mut AppState, candidate_ids: Vec<String>, random: Option<[u8; 16]>) -> (r: Result<
    PrepareResponse,
    String,
>)
    ensures
        match prepare_error(old(state)@, cids_view(candidate_ids@)) {
            Some(e) => r matches Err(m) && m@ == e && final(state)@ == old(state)@,
            None => match r {
                Err(m) => random is None && m@ == err_no_randomness() && final(state)@ == old(state)@,
                Ok(resp) => {
                    let c = old(state)@.current.unwrap();
                    let items = Seq::new(
                        candidate_ids@.len(),
                        |i: int| planned_item(c.1, candidate_ids@[i]@),
                    );
                    &&& crate::state::items_view(resp.items@) == items
                    &&& resp.total_bytes == items_size(items)
                    &&& random matches Some(b) && resp.plan_id@ == hex_lower(b@)
                    &&& final(state)@ == spec_insert_plan(
                        old(state)@,
                        PlanView {
                            id: resp.plan_id@,
                            scan_id: c.0,
                            items,
                            used: Seq::<Seq<char>>::empty(),
                        },
                    )
                },
            },
        },
{
    let ghost cids = cids_view(candidate_ids@);
    if candidate_ids.len() == 0 {
        return Err(String::from_str("no candidates selected"));
    }
    let scan_id = match state.snapshot_scan_id() {
        Some(id) => id,
        None => return Err(String::from_str("scan first; no active snapshot")),
    };
    let ghost snap = old(state)@.current.unwrap().1;
    state.snapshot_total_fits();
    let snap_len = state.snapshot_len();
    if candidate_ids.len() - 1 > snap_len {
        return Err(String::from_str("candidate list larger than snapshot; refused"));
    }
    let mut items: Vec<PlanItem> = Vec::new();
    let mut total_bytes: u64 = 0;
    let ghost mut chosen: Seq<bool> = Seq::new(snap.len(), |j: int| false);
    let mut i: usize = 0;
    proof {
        assert(masked_size(snap, chosen) == 0) by {
            lemma_masked_zero(snap, chosen);
        }
    }
    while i < candidate_ids.len()
        invariant
            i <= candidate_ids@.len(),
            cids == cids_view(candidate_ids@),
            state@ == old(state)@,
            state@.current == Some((scan_id, snap)),
            cids.len() <= snap.len() + 1,
            total_size(snap) <= u64::MAX,
            first_bad(cids, snap, 0) == first_bad(cids, snap, i as int),
            forall|t: int| 0 <= t < i ==> !(#[trigger] cids.take(t).contains(cids[t])) && key_index(snap, cids[t]) is Some,
            crate::state::items_view(items@) == Seq::new(i as nat, |t: int| planned_item(snap, cids[t])),
            chosen.len() == snap.len(),
            forall|j: int| 0 <= j < snap.len() && #[trigger] chosen[j] ==> exists|t: int| 0 <= t < i && key_index(snap, cids[t]) == Some(j),
            total_bytes == masked_size(snap, chosen),
            total_bytes == items_size(crate::state::items_view(items@)),
        decreases candidate_ids@.len() - i,
    {
        let cid = &candidate_ids[i];
        let mut dup = false;
        let mut t: usize = 0;
        while t < i
            invariant
                t <= i < candidate_ids@.len(),
                cids == cids_view(candidate_ids@),
                cid@ == candidate_ids@[i as int]@,
                dup == (exists|w: int| 0 <= w < t && #[trigger] cids[w] == cids[i as int]),
            decreases i - t,
        {
            proof {
                assert(cids[t as int] == candidate_ids@[t as int]@);
                assert(cids[i as int] == candidate_ids@[i as int]@);
            }
            if str_eq(candidate_ids[t].as_str(), cid.as_str()) {
                dup = true;
                assert(cids[t as int] == cids[i as int]);
            }
            t = t + 1;
        }
        proof {
            let a = cids.take(i as int);
            if dup {
                let w = choose|w: int| 0 <= w < i && #[trigger] cids[w] == cids[i as int];
                assert(a[w] == cids[i as int]);
                assert(a.contains(cids[i as int]));
            } else {
                if a.contains(cids[i as int]) {
                    let w = choose|w: int| 0 <= w < a.len() && a[w] == cids[i as int];
                    assert(cids[w] == cids[i as int]);
                }
                assert(!a.contains(cids[i as int]));
            }
        }
        assert(cids[i as int] == cid@);
        if dup {
            assert(first_bad(cids, snap, i as int) == Some(i as int));
            let mut e = String::from_str("duplicated candidate id: ");
            e.append(cid.as_str());
            return Err(e);
        }
        let record = match state.candidate(cid.as_str()) {
            Some(rec) => rec,
            None => {
                assert(key_index(snap, cids[i as int]) is None);
                assert(first_bad(cids, snap, i as int) == Some(i as int));
                let mut e = String::from_str("unknown or expired candidate: ");
                e.append(cid.as_str());
                return Err(e);
            },
        };
        let ghost k = key_index(snap, cids[i as int]).unwrap();
        proof {
            lemma_key_index(snap, cids[i as int]);
            assert(!chosen[k]) by {
                if chosen[k] {
                    let t = choose|t: int| 0 <= t < i && key_index(snap, cids[t]) == Some(k);
                    lemma_key_index(snap, cids[t]);
                    assert(cids.take(i as int)[t] == cids[t]);
                    assert(cids.take(i as int).contains(cids[i as int]));
                }
            }
            lemma_masked_add(snap, chosen, k);
            lemma_masked_le_total(snap, chosen.update(k, true));
        }
        total_bytes = total_bytes + record.size;
        let ghost old_items = crate::state::items_view(items@);
        let item = PlanItem::from_record(cid, record);
        assert(item@ == planned_item(snap, cids[i as int]));
        items.push(item);
        assert(crate::state::items_view(items@) =~= old_items.push(item@));
        proof {
            chosen = chosen.update(k, true);
            assert forall|j: int| 0 <= j < snap.len() && #[trigger] chosen[j] implies exists|t: int|
                0 <= t < i + 1 && key_index(snap, cids[t]) == Some(j) by {
                if j != k {
                    let t = choose|t: int| 0 <= t < i && key_index(snap, cids[t]) == Some(j);
                    assert(0 <= t < i + 1);
                } else {
                    assert(key_index(snap, cids[i as int]) == Some(j));
                }
            }
            assert(crate::state::items_view(items@) =~= Seq::new(
                (i + 1) as nat,
                |t: int| planned_item(snap, cids[t]),
            ));
            assert(crate::state::items_view(items@).drop_last() =~= Seq::new(
                i as nat,
                |t: int| planned_item(snap, cids[t]),
            ));
            assert(!cids.take(i as int).contains(cids[i as int]) && key_index(snap, cids[i as int]) is Some);
            assert forall|t: int| 0 <= t < i + 1 implies !(#[trigger] cids.take(t).contains(cids[t]))
                && key_index(snap, cids[t]) is Some by {
                if t < i {
                }
            }
        }
        i = i + 1;
    }
    let plan_id = match random {
        Some(b) => to_hex(&b),
        None => return Err(String::from_str("random source unavailable; plan not created")),
    };
    let copies = copy_items(&items);
    let plan = CleanupPlan { id: plan_id.clone(), scan_id, items: copies, used: Vec::new() };
    assert(strs_view(plan.used@) =~= Seq::<Seq<char>>::empty());
    state.insert_plan(plan);
    proof {
        assert(cids.take(cids.len() as int) =~= cids);
        assert(Seq::new(candidate_ids@.len(), |t: int| planned_item(snap, candidate_ids@[t]@))
            =~= Seq::new(i as nat, |t: int| planned_item(snap, cids[t])));
    }
    Ok(PrepareResponse { plan_id, items, total_bytes })
}

proof fn lemma_first_bad_none(cids: Seq<Seq<char>>, snap: Seq<(Seq<char>, RecordView)>, from: int)
    requires
        0 <= from,
    ensures
        first_bad(cids, snap, from) is None <==> forall|i: int| from <= i < cids.len()
            ==> !(#[trigger] cids.take(i)).contains(cids[i]) && key_index(snap, cids[i]) is Some,
    decreases cids.len() - from,
{
    if from < cids.len() {
        lemma_first_bad_none(cids, snap, from + 1);
        let ok_from = !cids.take(from).contains(cids[from]) && key_index(snap, cids[from]) is Some;
        if first_bad(cids, snap, from) is None {
            assert(ok_from);
            assert(first_bad(cids, snap, from + 1) is None);
            assert forall|i: int| from <= i < cids.len() implies !(#[trigger] cids.take(i)).contains(cids[i])
                && key_index(snap, cids[i]) is Some by {
                if i > from {
                    assert(from + 1 <= i < cids.len());
                }
            }
        }
        if forall|i: int| from <= i < cids.len() ==> !(#[trigger] cids.take(i)).contains(cids[i])
            && key_index(snap, cids[i]) is Some {
            assert(ok_from);
        }
    }
}

/// Preparing a plan is refused exactly when no candidate is given, no scan
/// is current, more candidates are given than the snapshot holds (plus
/// one), or some candidate is repeated or unknown to the current snapshot.
/// A refused call leaves the state unchanged; an accepted one freezes, for
/// each candidate in order, the record the scan bound to it.
pub proof fn law_prepare_accepts_exactly_known_distinct(s: StateView, cids: Seq<Seq<char>>)
    ensures
        prepare_error(s, cids) is None <==> (s.current matches Some(c) && cids.len() > 0
            && cids.len() <= c.1.len() + 1
            && forall|i: int| 0 <= i < cids.len() ==> !(#[trigger] cids.take(i)).contains(cids[i])
                && key_index(c.1, cids[i]) is Some),
        prepare_error(s, cids) is None ==> forall|i: int| 0 <= i < cids.len()
            ==> (#[trigger] planned_item(s.current.unwrap().1, cids[i])).cid == cids[i]
            && planned_item(s.current.unwrap().1, cids[i]).record
                == s.current.unwrap().1[key_index(s.current.unwrap().1, cids[i]).unwrap()].1,
{
    if let Some(c) = s.current {
        lemma_first_bad_none(cids, c.1, 0);
        if cids.len() > 0 && cids.len() <= c.1.len() + 1 {
            assert(prepare_error(s, cids) is None <==> first_bad(cids, c.1, 0) is None);
        }
    }
}

/// Freeze a set of candidate ids into a single-use plan under a fresh id
/// drawn from the operating system's random source: `prepare_plan` with
/// those bytes (or with none, when the source fails).
pub fn prepare_cleanup(state: &mut AppState, candidate_ids: Vec<String>) -> (r: Result<
    PrepareResponse,
    String,
>)
    ensures
        match prepare_error(old(state)@, cids_view(candidate_ids@)) {
            Some(e) => r matches Err(m) && m@ == e && final(state)@ == old(state)@,
            None => match r {
                Err(m) => m@ == err_no_randomness() && final(state)@ == old(state)@,
                Ok(resp) => {
                    let c = old(state)@.current.unwrap();
                    let items = Seq::new(
                        candidate_ids@.len(),
                        |i: int| planned_item(c.1, candidate_ids@[i]@),
                    );
                    &&& crate::state::items_view(resp.items@) == items
                    &&& resp.total_bytes == items_size(items)
                    &&& exists|b: Seq<u8>| b.len() == 16 && resp.plan_id@ == hex_lower(b)
                    &&& final(state)@ == spec_insert_plan(
                        old(state)@,
                        PlanView {
                            id: resp.plan_id@,
                            scan_id: c.0,
                            items,
                            used: Seq::<Seq<char>>::empty(),
                        },
                    )
                },
            },
        },
{
    let random = random_bytes();
    let r = prepare_plan(state, candidate_ids, random);
    proof {
        if let Some(b) = random {
            assert(b@.len() == 16);
        }
    }
    r
}

proof fn lemma_masked_zero(snap: Seq<(Seq<char>, RecordView)>, chosen: Seq<bool>)
    requires
        chosen.len() == snap.len(),
        forall|j: int| 0 <= j < chosen.len() ==> !chosen[j],
    ensures
        masked_size(snap, chosen) == 0,
    decreases snap.len(),
{
    if snap.len() > 0 {
        lemma_masked_zero(snap.drop_last(), chosen.drop_last());
    }
}

fn copy_items(items: &Vec<PlanItem>) -> (r: Vec<PlanItem>)
    ensures
        crate::state::items_view(r@) == crate::state::items_view(items@),
{
    let mut r: Vec<PlanItem> = Vec::new();
    let mut i: usize = 0;
    while i < items.len()
        invariant
            i <= items@.len(),
            r@.len() == i,
            forall|j: int| 0 <= j < i ==> (#[trigger] r@[j])@ == items@[j]@,
        decreases items@.len() - i,
    {
        r.push(items[i].copy());
        i = i + 1;
    }
    assert(crate::state::items_view(r@) =~= crate::state::items_view(items@));
    r
}

/// Profile directory names and extension ids accepted from the frontend: a
/// non-empty profile free of `/`, `\`, `.` and NUL, and an id of exactly 32
/// lowercase ASCII letters.
pub open spec fn ids_legal(profile: Seq<char>, ext_id: Seq<char>) -> bool {
    &&& profile.len() > 0
    &&& forall|i: int|
        0 <= i < profile.len() ==> !(#[trigger] profile[i] == '/' || profile[i] == '\\'
            || profile[i] == '.' || profile[i] == '\0')
    &&& ext_id.len() == 32
    &&& forall|i: int| 0 <= i < ext_id.len() ==> 'a' <= #[trigger] ext_id[i] && ext_id[i] <= 'z'
}

/// Strict shape check of a profile name and extension id.
pub fn extension_ids_legal(profile: &str, ext_id: &str) -> (r: bool)
    ensures
        r == ids_legal(profile@, ext_id@),
{
    let p = chars_of(profile);
    let e = chars_of(ext_id);
    if p.len() == 0 || e.len() != 32 {
        return false;
    }
    let mut i: usize = 0;
    while i < p.len()
        invariant
            i <= p@.len(),
            p@ == profile@,
            forall|j: int|
                0 <= j < i ==> !(#[trigger] p@[j] == '/' || p@[j] == '\\' || p@[j] == '.' || p@[j]
                    == '\0'),
        decreases p@.len() - i,
    {
        let c = p[i];
        if c == '/' || c == '\\' || c == '.' || c == '\0' {
            return false;
        }
        i = i + 1;
    }
    let mut j: usize = 0;
    while j < e.len()
        invariant
            j <= e@.len(),
            e@ == ext_id@,
            forall|k: int| 0 <= k < j ==> 'a' <= #[trigger] e@[k] && e@[k] <= 'z',
        decreases e@.len() - j,
    {
        let c = e[j];
        if !('a' <= c && c <= 'z') {
            return false;
        }
        j = j + 1;
    }
    true
}

/// First step of resolving an extension directory, before any path is
/// built or read: refuse an illegal profile name or extension id.
pub fn check_extension_ids(profile: &str, ext_id: &str) -> (r: Result<(), String>)
    ensures
        match r {
            Ok(()) => ids_legal(profile@, ext_id@),
            Err(e) => !ids_legal(profile@, ext_id@) && e@ == "illegal profile or extension id"@,
        },
{
    if extension_ids_legal(profile, ext_id) {
        Ok(())
    } else {
        Err(String::from_str("illegal profile or extension id"))
    }
}

/// What the filesystem says about `<chrome>/<profile>/Extensions/<id>`.
pub struct ExtensionDirFacts {
    /// Its canonical path, when it resolves.
    pub canonical: Option<String>,
    /// Whether the canonical path is a directory.
    pub is_dir: bool,
    /// The canonical path's parent, when it has one.
    pub parent: Option<String>,
    /// Canonical path of `<chrome>/<profile>/Extensions`, when it resolves.
    pub extensions_root: Option<String>,
}

/// Outcome of resolving an extension directory for in-app reveal.
pub open spec fn spec_resolve(profile: Seq<char>, ext_id: Seq<char>, f: ExtensionDirFacts) -> Result<(Seq<char>, Seq<char>), Seq<char>> {
    if !ids_legal(profile, ext_id) {
        Err("illegal profile or extension id"@)
    } else if f.canonical is None || !f.is_dir {
        Err("extension directory not found"@)
    } else if f.parent is None {
        Err("unresolvable path"@)
    } else if f.extensions_root is None {
        Err("extensions root not found"@)
    } else if f.parent.unwrap()@ != f.extensions_root.unwrap()@ {
        Err("path escapes the extensions root"@)
    } else {
        Ok((f.canonical.unwrap()@, profile + "/Extensions/"@ + ext_id + "/"@))
    }
}

/// Resolve `<chrome>/<profile>/Extensions/<id>` for in-app reveal.
/// Strict shape checks only (32 lowercase letters id, known profile dir,
/// canonicalized containment). Returns the canonical path and a display
/// path without the home dir.
pub fn resolve_extension_dir(profile: &str, ext_id: &str, facts: &ExtensionDirFacts) -> (r: Result<
    (String, String),
    String,
>)
    ensures
        match r {
            Ok(x) => spec_resolve(profile@, ext_id@, *facts) == Ok::<(Seq<char>, Seq<char>), Seq<char>>((x.0@, x.1@)),
            Err(e) => spec_resolve(profile@, ext_id@, *facts) == Err::<(Seq<char>, Seq<char>), Seq<char>>(e@),
        },
{
    if let Err(e) = check_extension_ids(profile, ext_id) {
        return Err(e);
    }
    let canon = match &facts.canonical {
        Some(c) => c,
        None => return Err(String::from_str("extension directory not found")),
    };
    if !facts.is_dir {
        return Err(String::from_str("extension directory not found"));
    }
    let parent = match &facts.parent {
        Some(p) => p,
        None => return Err(String::from_str("unresolvable path")),
    };
    let root = match &facts.extensions_root {
        Some(x) => x,
        None => return Err(String::from_str("extensions root not found")),
    };
    if !str_eq(parent.as_str(), root.as_str()) {
        return Err(String::from_str("path escapes the extensions root"));
    }
    let mut display = profile.to_owned();
    display.append("/Extensions/");
    display.append(ext_id);
    display.append("/");
    Ok((canon.clone(), display))
}

pub open spec fn comps_view(v: Seq<String>) -> Seq<Seq<char>> {
    Seq::new(v.len(), |i: int| v[i]@)
}

/// Proof that a deletion target is exactly `<extension dir>/<version>_<n>`,
/// given the canonical component lists of the target and of the extension
/// directory (or why they could not be resolved).
pub open spec fn spec_contained(target: Result<Seq<Seq<char>>, Seq<char>>, base: Result<Seq<Seq<char>>, Seq<char>>) -> Result<Seq<char>, Seq<char>> {
    match target {
        Err(e) => Err("cannot resolve target: "@ + e),
        Ok(t) => match base {
            Err(e) => Err("cannot resolve extension dir: "@ + e),
            Ok(b) => if !(b.len() <= t.len() && t.take(b.len() as int) == b) {
                Err("target escapes its extension directory"@)
            } else if t.len() != b.len() + 1 {
                Err("target is not a direct version child"@)
            } else if spec_split_dir_name(t.last()) is None {
                Err("target is not a version directory"@)
            } else {
                Ok(t.last())
            },
        },
    }
}

pub open spec fn comps_result(r: Result<Vec<String>, String>) -> Result<Seq<Seq<char>>, Seq<char>> {
    match r {
        Ok(v) => Ok(comps_view(v@)),
        Err(e) => Err(e@),
    }
}

/// Containment succeeds exactly when both paths resolve and the target is
/// the extension directory plus one component that names a version
/// directory; that component is the result.
pub proof fn law_contained_exactly_one_version_child(t: Seq<Seq<char>>, b: Seq<Seq<char>>)
    ensures
        spec_contained(Ok(t), Ok(b)) is Ok <==> (t.len() == b.len() + 1 && t.take(b.len() as int) == b
            && spec_split_dir_name(t.last()) is Some),
        spec_contained(Ok(t), Ok(b)) is Ok ==> spec_contained(Ok(t), Ok(b)) == Ok::<Seq<char>, Seq<char>>(t.last()),
{
}

/// Canonical containment check of a deletion target.
pub fn contained_version_dir(target: &Result<Vec<String>, String>, base: &Result<Vec<String>, String>) -> (r: Result<String, String>)
    ensures
        match r {
            Ok(d) => spec_contained(comps_result(*target), comps_result(*base)) == Ok::<Seq<char>, Seq<char>>(d@),
            Err(e) => spec_contained(comps_result(*target), comps_result(*base)) == Err::<Seq<char>, Seq<char>>(e@),
        },
{
    let t = match target {
        Ok(t) => t,
        Err(e) => {
            let mut m = String::from_str("cannot resolve target: ");
            m.append(e.as_str());
            return Err(m);
        },
    };
    let b = match base {
        Ok(b) => b,
        Err(e) => {
            let mut m = String::from_str("cannot resolve extension dir: ");
            m.append(e.as_str());
            return Err(m);
        },
    };
    let ghost tv = comps_view(t@);
    let ghost bv = comps_view(b@);
    assert(comps_result(*target) == Ok::<Seq<Seq<char>>, Seq<char>>(tv));
    assert(comps_result(*base) == Ok::<Seq<Seq<char>>, Seq<char>>(bv));
    if b.len() > t.len() {
        return Err(String::from_str("target escapes its extension directory"));
    }
    let mut i: usize = 0;
    while i < b.len()
        invariant
            i <= b@.len() <= t@.len(),
            tv == comps_view(t@),
            bv == comps_view(b@),
            comps_result(*target) == Ok::<Seq<Seq<char>>, Seq<char>>(tv),
            comps_result(*base) == Ok::<Seq<Seq<char>>, Seq<char>>(bv),
            forall|j: int| 0 <= j < i ==> tv[j] == bv[j],
        decreases b@.len() - i,
    {
        if !str_eq(t[i].as_str(), b[i].as_str()) {
            assert(tv[i as int] == t@[i as int]@ && bv[i as int] == b@[i as int]@);
            assert(tv.take(bv.len() as int)[i as int] != bv[i as int]);
            assert(tv.take(bv.len() as int) != bv);
            return Err(String::from_str("target escapes its extension directory"));
        }
        assert(tv[i as int] == t@[i as int]@ && bv[i as int] == b@[i as int]@);
        i = i + 1;
    }
    assert(tv.take(bv.len() as int) =~= bv);
    if t.len() == 0 || t.len() - 1 != b.len() {
        return Err(String::from_str("target is not a direct version child"));
    }
    let name = &t[t.len() - 1];
    assert(name@ == tv.last());
    match split_dir_name(name.as_str()) {
        Some(_) => Ok(name.clone()),
        None => Err(String::from_str("target is not a version directory")),
    }
}

/// One entry of an extension directory as listed at delete time: its
/// name, whether it is a directory, and the text of its extension manifest
/// (`None` when it could not be read).
pub struct DirEntryFacts {
    pub name: String,
    pub is_dir: bool,
    pub manifest: Option<String>,
}

/// Names of the version directories (`<version>_<n>` directories) among
/// the entries, in listing order.
pub open spec fn version_dirs(entries: Seq<DirEntryFacts>) -> Seq<Seq<char>>
    decreases entries.len(),
{
    if entries.len() == 0 {
        Seq::<Seq<char>>::empty()
    } else {
        let prev = version_dirs(entries.drop_last());
        let e = entries.last();
        if e.is_dir && spec_split_dir_name(e.name@) is Some {
            prev.push(e.name@)
        } else {
            prev
        }
    }
}

/// Manifest of the entry called `name` (`Null` when there is none).
pub open spec fn manifest_of(entries: Seq<DirEntryFacts>, name: Seq<char>) -> JsonValue
    decreases entries.len(),
{
    if entries.len() == 0 {
        JsonValue::Null
    } else if entries[0].name@ == name {
        crate::json::doc_or_null(entries[0].manifest)
    } else {
        manifest_of(entries.drop_first(), name)
    }
}

/// The version a directory's own manifest declares, parsed strictly.
pub open spec fn manifest_version(entries: Seq<DirEntryFacts>, name: Seq<char>) -> Option<ChromeVersion> {
    match crate::prefs::member_str(manifest_of(entries, name).spec_get("version"@)) {
        Some(v) => spec_parse(v),
        None => None,
    }
}

/// First version directory whose name carries version `v`.
pub open spec fn dir_with_version(dirs: Seq<Seq<char>>, v: ChromeVersion) -> Option<Seq<char>>
    decreases dirs.len(),
{
    if dirs.len() == 0 {
        None
    } else if spec_split_dir_name(dirs[0]) matches Some(p) && p.0 == v {
        Some(dirs[0])
    } else {
        dir_with_version(dirs.drop_first(), v)
    }
}

pub open spec fn opt_parse(o: Option<Seq<char>>) -> Option<ChromeVersion> {
    match o {
        Some(s) => spec_parse(s),
        None => None,
    }
}

/// Delete-time re-verification of one planned candidate. `contained` is
/// the containment check's outcome, `prefs` Chrome's record re-read now and
/// `entries` the extension directory listed now. Succeeds with the target
/// directory name only when every plan-time fact still holds.
pub open spec fn spec_verify(
    item: PlanItemView,
    contained: Result<Seq<char>, Seq<char>>,
    prefs: Seq<(String, PrefsEntry)>,
    entries: Seq<DirEntryFacts>,
) -> Result<Seq<char>, Seq<char>> {
    match contained {
        Err(e) => Err(e),
        Ok(dirname) => match prefs_get(prefs, item.record.ext_id) {
            None => Err("extension vanished from Chrome prefs"@),
            Some(entry) => match crate::json::opt_view(entry.version) {
                None => Err("active version unreadable; refused"@),
                Some(av) => match spec_parse(av) {
                    None => Err("active version unreadable; refused"@),
                    Some(active) => match spec_split_dir_name(dirname) {
                        None => Err("target is not a version directory"@),
                        Some(t) => {
                            let dirs = version_dirs(entries);
                            if opt_parse(item.record.active_version) != Some(active) {
                                Err("active version changed since scan; rescan required"@)
                            } else if !t.0.older(active) {
                                Err("target is not older than active; refused"@)
                            } else {
                                match dir_with_version(dirs, active) {
                                    None => Err("active directory not found on disk"@),
                                    Some(ad) => if manifest_version(entries, ad) != Some(active) {
                                        Err("active manifest mismatch; refused"@)
                                    } else if manifest_version(entries, dirname) != Some(t.0) {
                                        Err("target manifest mismatch; refused"@)
                                    } else if dirs.len() <= 1 || !dirs.contains(dirname) {
                                        Err("nothing safe to delete; skipped"@)
                                    } else {
                                        Ok(dirname)
                                    },
                                }
                            }
                        },
                    },
                },
            },
        },
    }
}

pub open spec fn str_result(r: Result<String, String>) -> Result<Seq<char>, Seq<char>> {
    match r {
        Ok(s) => Ok(s@),
        Err(e) => Err(e@),
    }
}

fn version_dir_names(entries: &Vec<DirEntryFacts>) -> (r: Vec<String>)
    ensures
        crate::state::strs_view(r@) == version_dirs(entries@),
{
    let mut r: Vec<String> = Vec::new();
    let mut i: usize = 0;
    while i < entries.len()
        invariant
            i <= entries@.len(),
            crate::state::strs_view(r@) == version_dirs(entries@.subrange(0, i as int)),
        decreases entries@.len() - i,
    {
        let ghost pre = entries@.subrange(0, i as int);
        assert(entries@.subrange(0, i + 1).drop_last() =~= pre);
        if entries[i].is_dir && split_dir_name(entries[i].name.as_str()).is_some() {
            let ghost before = crate::state::strs_view(r@);
            r.push(entries[i].name.clone());
            assert(crate::state::strs_view(r@) =~= before.push(entries@[i as int].name@));
        }
        i = i + 1;
    }
    assert(entries@.subrange(0, entries@.len() as int) =~= entries@);
    r
}

fn manifest_version_in(entries: &Vec<DirEntryFacts>, name: &str) -> (r: Option<ChromeVersion>)
    ensures
        r == manifest_version(entries@, name@),
{
    let mut i: usize = 0;
    assert(entries@.skip(0) =~= entries@);
    while i < entries.len()
        invariant
            i <= entries@.len(),
            manifest_of(entries@, name@) == manifest_of(entries@.skip(i as int), name@),
        decreases entries@.len() - i,
    {
        if str_eq(entries[i].name.as_str(), name) {
            let m = crate::json::read_manifest(&entries[i].manifest);
            return match m.get("version") {
                Some(v) => match v.as_str() {
                    Some(s) => ChromeVersion::parse(s),
                    None => None,
                },
                None => None,
            };
        }
        assert(entries@.skip(i as int).drop_first() =~= entries@.skip(i + 1));
        i = i + 1;
    }
    None
}

fn find_dir_with_version(dirs: &Vec<String>, v: &ChromeVersion) -> (r: Option<usize>)
    ensures
        match r {
            Some(k) => k < dirs@.len() && dir_with_version(crate::state::strs_view(dirs@), *v) == Some(dirs@[k as int]@),
            None => dir_with_version(crate::state::strs_view(dirs@), *v) is None,
        },
{
    let ghost dv = crate::state::strs_view(dirs@);
    let mut i: usize = 0;
    assert(dv.skip(0) =~= dv);
    while i < dirs.len()
        invariant
            i <= dirs@.len(),
            dv == crate::state::strs_view(dirs@),
            dir_with_version(dv, *v) == dir_with_version(dv.skip(i as int), *v),
        decreases dirs@.len() - i,
    {
        assert(dv.skip(i as int)[0] == dirs@[i as int]@);
        match split_dir_name(dirs[i].as_str()) {
            Some(p) => {
                if p.0.same_as(v) {
                    return Some(i);
                }
            },
            None => {},
        }
        assert(dv.skip(i as int).drop_first() =~= dv.skip(i + 1));
        i = i + 1;
    }
    None
}

fn opt_version(o: &Option<String>) -> (r: Option<ChromeVersion>)
    ensures
        r == opt_parse(crate::json::opt_view(*o)),
{
    match o {
        Some(s) => ChromeVersion::parse(s.as_str()),
        None => None,
    }
}

fn same_opt_version(a: &Option<ChromeVersion>, b: &ChromeVersion) -> (r: bool)
    ensures
        r == (*a == Some(*b)),
{
    match a {
        Some(x) => x.same_as(b),
        None => false,
    }
}

/// Delete-time re-verification of one planned candidate: the target must
/// still be contained in its extension directory, Chrome's active version
/// must be unchanged and strictly newer, both manifests must agree with
/// their directory names, and another version directory must remain.
pub fn verify_deletion(
    item: &PlanItem,
    contained: Result<String, String>,
    prefs: &Vec<(String, PrefsEntry)>,
    entries: &Vec<DirEntryFacts>,
) -> (r: Result<String, String>)
    ensures
        str_result(r) == spec_verify(item@, str_result(contained), prefs@, entries@),
{
    let dirname = match contained {
        Ok(d) => d,
        Err(e) => return Err(e),
    };
    let entry = match prefs_lookup(prefs, item.ext_id.as_str()) {
        Some(e) => e,
        None => return Err(String::from_str("extension vanished from Chrome prefs")),
    };
    let active = match opt_version(&entry.version) {
        Some(v) => v,
        None => return Err(String::from_str("active version unreadable; refused")),
    };
    let target_v = match split_dir_name(dirname.as_str()) {
        Some(p) => p.0,
        None => return Err(String::from_str("target is not a version directory")),
    };
    let plan_active = opt_version(&item.active_version);
    if !same_opt_version(&plan_active, &active) {
        return Err(String::from_str("active version changed since scan; rescan required"));
    }
    if !target_v.is_older_than(&active) {
        return Err(String::from_str("target is not older than active; refused"));
    }
    let siblings = version_dir_names(entries);
    let active_dirname = match find_dir_with_version(&siblings, &active) {
        Some(k) => &siblings[k],
        None => return Err(String::from_str("active directory not found on disk")),
    };
    let am = manifest_version_in(entries, active_dirname.as_str());
    if !same_opt_version(&am, &active) {
        return Err(String::from_str("active manifest mismatch; refused"));
    }
    let tm = manifest_version_in(entries, dirname.as_str());
    if !same_opt_version(&tm, &target_v) {
        return Err(String::from_str("target manifest mismatch; refused"));
    }
    if siblings.len() <= 1 || !crate::state::contains_str(&siblings, dirname.as_str()) {
        return Err(String::from_str("nothing safe to delete; skipped"));
    }
    Ok(dirname)
}

/// Deletion only ever removes a version strictly older than the one Chrome
/// records as active, whose own manifest agrees with its directory name,
/// and only while another version directory (the active one) remains.
pub proof fn law_deletion_keeps_active(
    item: PlanItemView,
    contained: Result<Seq<char>, Seq<char>>,
    prefs: Seq<(String, PrefsEntry)>,
    entries: Seq<DirEntryFacts>,
)
    requires
        spec_verify(item, contained, prefs, entries) is Ok,
    ensures
        ({
            let d = spec_verify(item, contained, prefs, entries)->Ok_0;
            let dirs = version_dirs(entries);
            let active = opt_parse(crate::json::opt_view(prefs_get(prefs, item.record.ext_id).unwrap().version)).unwrap();
            &&& spec_split_dir_name(d) matches Some(t) && t.0.older(active)
            &&& manifest_version(entries, d) == Some(spec_split_dir_name(d).unwrap().0)
            &&& opt_parse(item.record.active_version) == Some(active)
            &&& dirs.contains(d)
            &&& exists|a: Seq<char>| #[trigger] dirs.contains(a) && a != d && (spec_split_dir_name(a) matches Some(p) && p.0 == active)
            &&& dir_with_version(dirs, active) matches Some(ad) && manifest_version(entries, ad) == Some(active)
        }),
{
    let d = spec_verify(item, contained, prefs, entries)->Ok_0;
    let dirs = version_dirs(entries);
    let active = opt_parse(crate::json::opt_view(prefs_get(prefs, item.record.ext_id).unwrap().version)).unwrap();
    let ad = dir_with_version(dirs, active).unwrap();
    lemma_dir_with_version(dirs, active);
    assert(dirs.contains(ad));
    let t = spec_split_dir_name(d).unwrap();
    assert(ad != d) by {
        if ad == d {
            assert(t.0 == active);
        }
    }
}

/// The age check at delete time compares whole versions: where the target
/// is contained, Chrome still records the plan's active version, the active
/// directory's and the target's manifests agree with their names, and
/// another version directory remains, the target is removed exactly when
/// its version is strictly older than the active one, and is otherwise
/// refused as not older.
pub proof fn law_verify_removes_exactly_older(
    item: PlanItemView,
    dirname: Seq<char>,
    prefs: Seq<(String, PrefsEntry)>,
    entries: Seq<DirEntryFacts>,
    active: ChromeVersion,
    t: ChromeVersion,
)
    requires
        prefs_get(prefs, item.record.ext_id) matches Some(entry) && opt_parse(crate::json::opt_view(entry.version)) == Some(active),
        opt_parse(item.record.active_version) == Some(active),
        spec_split_dir_name(dirname) matches Some(p) && p.0 == t,
        dir_with_version(version_dirs(entries), active) matches Some(ad) && manifest_version(entries, ad) == Some(active),
        manifest_version(entries, dirname) == Some(t),
        version_dirs(entries).contains(dirname),
        version_dirs(entries).len() > 1,
    ensures
        t.older(active) ==> spec_verify(item, Ok(dirname), prefs, entries) == Ok::<Seq<char>, Seq<char>>(dirname),
        !t.older(active) ==> spec_verify(item, Ok(dirname), prefs, entries) == Err::<Seq<char>, Seq<char>>(
            "target is not older than active; refused"@,
        ),
{
}

proof fn lemma_dir_with_version(dirs: Seq<Seq<char>>, v: ChromeVersion)
    ensures
        dir_with_version(dirs, v) matches Some(a) ==> dirs.contains(a) && (spec_split_dir_name(a) matches Some(p) && p.0 == v),
    decreases dirs.len(),
{
    if dirs.len() > 0 {
        lemma_dir_with_version(dirs.drop_first(), v);
        if let Some(a) = dir_with_version(dirs, v) {
            if !(spec_split_dir_name(dirs[0]) matches Some(p) && p.0 == v) {
                let j = choose|j: int| 0 <= j < dirs.drop_first().len() && dirs.drop_first()[j] == a;
                assert(dirs[j + 1] == a);
            } else {
                assert(dirs[0] == a);
            }
        }
    }
}

/// The refusal reported for a candidate that was not deleted.
pub open spec fn refusal(s: StateView, cid: Seq<char>, status: ChromeStatus, error: Seq<char>, r: DeleteResult) -> bool {
    &&& r.cid@ == cid
    &&& !r.ok
    &&& r.freed_bytes == 0
    &&& r.session_freed_bytes == s.session_freed
    &&& r.session_cleaned_count == s.session_cleaned
    &&& r.chrome_status == status
    &&& crate::json::opt_view(r.error) == Some(error)
}

/// Report that candidate `cid` was not deleted because of `error`.
pub fn deletion_refused(state: &mut AppState, cid: &str, status: ChromeStatus, error: String) -> (r: DeleteResult)
    ensures
        final(state)@ == old(state)@,
        refusal(old(state)@, cid@, status, error@, r),
{
    let freed = state.add_session_freed(0);
    let stats = state.session_stats();
    DeleteResult {
        cid: cid.to_owned(),
        ok: false,
        freed_bytes: 0,
        session_freed_bytes: freed,
        session_cleaned_count: stats.1,
        chrome_status: status,
        error: Some(error),
    }
}

/// Start deleting one planned candidate: with the Chrome user-data
/// directory available, take the planned item (single use); otherwise, or
/// when the plan refuses, report why nothing was deleted.
pub fn delete_candidate(
    state: &mut AppState,
    chrome_dir: &Result<String, String>,
    plan_id: &str,
    cid: &str,
    status: ChromeStatus,
) -> (r: Result<PlanItem, DeleteResult>)
    ensures
        match chrome_dir {
            Err(e) => final(state)@ == old(state)@ && (r matches Err(res) && refusal(old(state)@, cid@, status, e@, res)),
            Ok(_) => {
                let (s2, t) = crate::state::spec_take(old(state)@, plan_id@, cid@);
                &&& final(state)@ == s2
                &&& match t {
                    Ok(item) => r matches Ok(x) && x@ == item,
                    Err(e) => r matches Err(res) && refusal(s2, cid@, status, e, res),
                }
            },
        },
{
    match chrome_dir {
        Err(e) => {
            let stats = state.session_stats();
            Err(DeleteResult {
                cid: cid.to_owned(),
                ok: false,
                freed_bytes: 0,
                session_freed_bytes: stats.0,
                session_cleaned_count: stats.1,
                chrome_status: status,
                error: Some(e.clone()),
            })
        },
        Ok(_) => match state.take_plan_item(plan_id, cid) {
            Ok(item) => Ok(item),
            Err(e) => Err(deletion_refused(state, cid, status, e)),
        },
    }
}

/// Report the outcome of removing a verified target that held `freed`
/// bytes: on success the session totals grow by the bytes and by one
/// folder; a failed removal is reported as `delete failed: <why>`.
pub fn deletion_finished(state: &mut AppState, cid: &str, status: ChromeStatus, freed: u64, removal: Result<(), String>) -> (r: DeleteResult)
    requires
        old(state)@.session_freed + freed <= u64::MAX,
        old(state)@.session_cleaned < u64::MAX,
    ensures
        match removal {
            Ok(()) => {
                &&& final(state)@ == (StateView {
                    session_freed: (old(state)@.session_freed + freed) as u64,
                    session_cleaned: (old(state)@.session_cleaned + 1) as u64,
                    ..old(state)@
                })
                &&& r.cid@ == cid@ && r.ok && r.freed_bytes == freed && r.error is None
                &&& r.session_freed_bytes == final(state)@.session_freed
                &&& r.session_cleaned_count == final(state)@.session_cleaned
                &&& r.chrome_status == status
            },
            Err(e) => final(state)@ == old(state)@ && refusal(old(state)@, cid@, status, "delete failed: "@ + e@, r),
        },
{
    match removal {
        Ok(()) => {
            let (session_freed, session_cleaned) = state.record_deletion(freed);
            DeleteResult {
                cid: cid.to_owned(),
                ok: true,
                freed_bytes: freed,
                session_freed_bytes: session_freed,
                session_cleaned_count: session_cleaned,
                chrome_status: status,
                error: None,
            }
        },
        Err(e) => {
            let mut m = String::from_str("delete failed: ");
            m.append(e.as_str());
            deletion_refused(state, cid, status, m)
        },
    }
}

} // verus!
