//! Process-scoped UI state: baselines, scan snapshots, plans, session totals.
//!
//! Snapshots bind candidate ids to full records for exactly one scan.
//! A new scan replaces the snapshot AND drops all plans, so stale
//! candidate ids can never resolve to a path afterwards.

use vstd::prelude::*;
use crate::text::str_eq;

verus! {

/// Character view of a list of string pairs.
pub open spec fn pairs_view(v: Seq<(String, String)>) -> Seq<(Seq<char>, Seq<char>)> {
    Seq::new(v.len(), |i: int| (v[i].0@, v[i].1@))
}

/// Character view of an optional string.
pub open spec fn ostr(o: Option<String>) -> Option<Seq<char>> {
    match o {
        Some(s) => Some(s@),
        None => None,
    }
}

/// A copy of a list of string pairs.
pub fn copy_pairs(v: &Vec<(String, String)>) -> (r: Vec<(String, String)>)
    ensures
        pairs_view(r@) == pairs_view(v@),
{
    let mut r: Vec<(String, String)> = Vec::new();
    let mut i: usize = 0;
    while i < v.len()
        invariant
            i <= v@.len(),
            r@.len() == i,
            forall|j: int| 0 <= j < i ==> (#[trigger] r@[j]).0@ == v@[j].0@ && r@[j].1@ == v@[j].1@,
        decreases v@.len() - i,
    {
        let a = v[i].0.clone();
        let b = v[i].1.clone();
        assert(a@ == v@[i as int].0@ && b@ == v@[i as int].1@);
        r.push((a, b));
        i = i + 1;
    }
    assert(pairs_view(r@) =~= pairs_view(v@));
    r
}

/// A copy of an optional string.
pub fn copy_opt(o: &Option<String>) -> (r: Option<String>)
    ensures
        ostr(r) == ostr(*o),
{
    match o {
        Some(s) => Some(s.clone()),
        None => None,
    }
}

/// Server-side record behind one candidate id. The absolute path
/// never leaves the backend.
#[derive(Debug, Clone)]
pub struct CandidateRecord {
    pub path: String,
    pub size: u64,
    pub profile: String,
    pub ext_id: String,
    pub name: String,
    pub names: Vec<(String, String)>,
    pub active_version: Option<String>,
    pub version: String,
    pub dir: String,
    pub reason: String,
}

/// Abstract value of a candidate record.
pub struct RecordView {
    pub path: Seq<char>,
    pub size: u64,
    pub profile: Seq<char>,
    pub ext_id: Seq<char>,
    pub name: Seq<char>,
    pub names: Seq<(Seq<char>, Seq<char>)>,
    pub active_version: Option<Seq<char>>,
    pub version: Seq<char>,
    pub dir: Seq<char>,
    pub reason: Seq<char>,
}

impl View for CandidateRecord {
    type V = RecordView;

    open spec fn view(&self) -> RecordView {
        RecordView {
            path: self.path@,
            size: self.size,
            profile: self.profile@,
            ext_id: self.ext_id@,
            name: self.name@,
            names: pairs_view(self.names@),
            active_version: ostr(self.active_version),
            version: self.version@,
            dir: self.dir@,
            reason: self.reason@,
        }
    }
}

impl CandidateRecord {
    /// A copy of this record.
    pub fn copy(&self) -> (r: CandidateRecord)
        ensures
            r@ == self@,
    {
        CandidateRecord {
            path: self.path.clone(),
            size: self.size,
            profile: self.profile.clone(),
            ext_id: self.ext_id.clone(),
            name: self.name.clone(),
            names: copy_pairs(&self.names),
            active_version: copy_opt(&self.active_version),
            version: self.version.clone(),
            dir: self.dir.clone(),
            reason: self.reason.clone(),
        }
    }
}

/// Candidate id -> record, valid for a single scan only. Ids are looked up
/// by their first occurrence.
pub type Snapshot = Vec<(String, CandidateRecord)>;

pub open spec fn snapshot_view(s: Seq<(String, CandidateRecord)>) -> Seq<(Seq<char>, RecordView)> {
    Seq::new(s.len(), |i: int| (s[i].0@, s[i].1@))
}

/// Index of the first entry keyed `k`.
pub open spec fn key_index<V>(s: Seq<(Seq<char>, V)>, k: Seq<char>) -> Option<int>
    decreases s.len(),
{
    if s.len() == 0 {
        None
    } else if s[0].0 == k {
        Some(0)
    } else {
        match key_index(s.drop_first(), k) {
            Some(i) => Some(i + 1),
            None => None,
        }
    }
}

pub proof fn lemma_key_index<V>(s: Seq<(Seq<char>, V)>, k: Seq<char>)
    ensures
        key_index(s, k) matches Some(i) ==> 0 <= i < s.len() && s[i].0 == k && forall|j: int|
            0 <= j < i ==> s[j].0 != k,
        key_index(s, k) is None ==> forall|j: int| 0 <= j < s.len() ==> s[j].0 != k,
    decreases s.len(),
{
    if s.len() > 0 {
        lemma_key_index(s.drop_first(), k);
        if s[0].0 != k {
            assert forall|j: int| 0 < j < s.len() implies s[j].0 == s.drop_first()[j - 1].0 by {}
        }
    }
}

/// Total size of the records of a snapshot.
pub open spec fn total_size(s: Seq<(Seq<char>, RecordView)>) -> nat
    decreases s.len(),
{
    if s.len() == 0 {
        0
    } else {
        total_size(s.drop_last()) + (s.last().1.size as nat)
    }
}

pub proof fn lemma_total_size_concat(a: Seq<(Seq<char>, RecordView)>, b: Seq<(Seq<char>, RecordView)>)
    ensures
        total_size(a + b) == total_size(a) + total_size(b),
    decreases b.len(),
{
    if b.len() > 0 {
        lemma_total_size_concat(a, b.drop_last());
        assert((a + b).drop_last() =~= a + b.drop_last());
    } else {
        assert(a + b =~= a);
    }
}

/// Copy a snapshot.
pub fn copy_snapshot(s: &Snapshot) -> (r: Snapshot)
    ensures
        snapshot_view(r@) == snapshot_view(s@),
{
    let mut r: Snapshot = Vec::new();
    let mut i: usize = 0;
    while i < s.len()
        invariant
            i <= s@.len(),
            r@.len() == i,
            forall|j: int| 0 <= j < i ==> (#[trigger] r@[j]).0@ == s@[j].0@ && r@[j].1@ == s@[j].1@,
        decreases s@.len() - i,
    {
        let k = s[i].0.clone();
        let c = s[i].1.copy();
        assert(k@ == s@[i as int].0@ && c@ == s@[i as int].1@);
        r.push((k, c));
        i = i + 1;
    }
    assert(snapshot_view(r@) =~= snapshot_view(s@));
    r
}

/// One item inside a cleanup plan. `path` never goes to the frontend.
#[derive(Debug, Clone)]
pub struct PlanItem {
    pub cid: String,
    pub profile: String,
    pub ext_id: String,
    pub name: String,
    pub names: Vec<(String, String)>,
    pub active_version: Option<String>,
    pub version: String,
    pub dir: String,
    pub size: u64,
    pub reason: String,
    pub path: String,
}

/// Abstract value of a plan item: its candidate id and the record it froze.
pub struct PlanItemView {
    pub cid: Seq<char>,
    pub record: RecordView,
}

impl View for PlanItem {
    type V = PlanItemView;

    open spec fn view(&self) -> PlanItemView {
        PlanItemView {
            cid: self.cid@,
            record: RecordView {
                path: self.path@,
                size: self.size,
                profile: self.profile@,
                ext_id: self.ext_id@,
                name: self.name@,
                names: pairs_view(self.names@),
                active_version: ostr(self.active_version),
                version: self.version@,
                dir: self.dir@,
                reason: self.reason@,
            },
        }
    }
}

impl PlanItem {
    /// The plan item freezing record `r` under candidate id `cid`.
    pub fn from_record(cid: &String, r: &CandidateRecord) -> (p: PlanItem)
        ensures
            p@ == (PlanItemView { cid: cid@, record: r@ }),
    {
        PlanItem {
            cid: cid.clone(),
            profile: r.profile.clone(),
            ext_id: r.ext_id.clone(),
            name: r.name.clone(),
            names: copy_pairs(&r.names),
            active_version: copy_opt(&r.active_version),
            version: r.version.clone(),
            dir: r.dir.clone(),
            size: r.size,
            reason: r.reason.clone(),
            path: r.path.clone(),
        }
    }

    /// A copy of this item.
    pub fn copy(&self) -> (r: PlanItem)
        ensures
            r@ == self@,
    {
        PlanItem {
            cid: self.cid.clone(),
            profile: self.profile.clone(),
            ext_id: self.ext_id.clone(),
            name: self.name.clone(),
            names: copy_pairs(&self.names),
            active_version: copy_opt(&self.active_version),
            version: self.version.clone(),
            dir: self.dir.clone(),
            size: self.size,
            reason: self.reason.clone(),
            path: self.path.clone(),
        }
    }
}

pub open spec fn items_view(v: Seq<PlanItem>) -> Seq<PlanItemView> {
    Seq::new(v.len(), |i: int| v[i]@)
}

pub open spec fn strs_view(v: Seq<String>) -> Seq<Seq<char>> {
    Seq::new(v.len(), |i: int| v[i]@)
}

/// A prepared, not-yet-executed cleanup. Single use per item.
#[derive(Debug)]
pub struct CleanupPlan {
    pub id: String,
    pub scan_id: u64,
    pub items: Vec<PlanItem>,
    pub used: Vec<String>,
}

/// Abstract value of a plan.
pub struct PlanView {
    pub id: Seq<char>,
    pub scan_id: u64,
    pub items: Seq<PlanItemView>,
    pub used: Seq<Seq<char>>,
}

impl View for CleanupPlan {
    type V = PlanView;

    open spec fn view(&self) -> PlanView {
        PlanView {
            id: self.id@,
            scan_id: self.scan_id,
            items: items_view(self.items@),
            used: strs_view(self.used@),
        }
    }
}

pub open spec fn plans_view(v: Seq<CleanupPlan>) -> Seq<PlanView> {
    Seq::new(v.len(), |i: int| v[i]@)
}

/// Index of the first plan with id `id`.
pub open spec fn plan_index(plans: Seq<PlanView>, id: Seq<char>) -> Option<int>
    decreases plans.len(),
{
    if plans.len() == 0 {
        None
    } else if plans[0].id == id {
        Some(0)
    } else {
        match plan_index(plans.drop_first(), id) {
            Some(i) => Some(i + 1),
            None => None,
        }
    }
}

/// Index of the first item with candidate id `cid`.
pub open spec fn item_index(items: Seq<PlanItemView>, cid: Seq<char>) -> Option<int>
    decreases items.len(),
{
    if items.len() == 0 {
        None
    } else if items[0].cid == cid {
        Some(0)
    } else {
        match item_index(items.drop_first(), cid) {
            Some(i) => Some(i + 1),
            None => None,
        }
    }
}

/// Abstract value of the application state.
pub struct StateView {
    /// First-scan totals `(total_bytes, waste_bytes)`, once captured.
    pub baseline: Option<(u64, u64)>,
    /// Last scan id handed out.
    pub scan_seq: u64,
    /// The current scan and its candidate snapshot.
    pub current: Option<(u64, Seq<(Seq<char>, RecordView)>)>,
    pub plans: Seq<PlanView>,
    pub session_freed: u64,
    pub session_cleaned: u64,
}

pub struct AppState {
    baseline: Option<(u64, u64)>,
    scan_seq: u64,
    current_scan: Option<u64>,
    snapshot: Snapshot,
    plans: Vec<CleanupPlan>,
    session_freed: u64,
    /// Number of version folders removed this session. Counts folders, not
    /// "Start cleaning" presses: one press can remove many folders.
    session_cleaned: u64,
}

impl View for AppState {
    type V = StateView;

    closed spec fn view(&self) -> StateView {
        StateView {
            baseline: self.baseline,
            scan_seq: self.scan_seq,
            current: match self.current_scan {
                Some(id) => Some((id, snapshot_view(self.snapshot@))),
                None => None,
            },
            plans: plans_view(self.plans@),
            session_freed: self.session_freed,
            session_cleaned: self.session_cleaned,
        }
    }
}

/// Error texts of `take_plan_item`.
pub open spec fn err_unknown_plan() -> Seq<char> {
    "unknown or expired plan; rescan and prepare again"@
}

pub open spec fn err_older_scan() -> Seq<char> {
    "plan belongs to an older scan; rescan and prepare again"@
}

pub open spec fn err_replay() -> Seq<char> {
    "candidate already executed; replay refused"@
}

pub open spec fn err_not_in_plan() -> Seq<char> {
    "candidate not part of this plan"@
}

/// State after publishing the snapshot of scan `scan_id`: it replaces the
/// previous one and every plan is dropped.
pub open spec fn spec_store(s: StateView, scan_id: u64, snap: Seq<(Seq<char>, RecordView)>) -> StateView {
    StateView { current: Some((scan_id, snap)), plans: Seq::<PlanView>::empty(), ..s }
}

/// State after adding `p`; a plan with the same id is replaced.
pub open spec fn spec_insert_plan(s: StateView, p: PlanView) -> StateView {
    StateView {
        plans: match plan_index(s.plans, p.id) {
            Some(k) => s.plans.update(k, p),
            None => s.plans.push(p),
        },
        ..s
    }
}

/// Taking one plan item for execution: the item is marked used first, so
/// neither replays nor double-takes can delete twice; it is returned only
/// when its plan belongs to the current scan.
pub open spec fn spec_take(s: StateView, plan_id: Seq<char>, cid: Seq<char>) -> (StateView, Result<PlanItemView, Seq<char>>) {
    match plan_index(s.plans, plan_id) {
        None => (s, Err(err_unknown_plan())),
        Some(k) => {
            let p = s.plans[k];
            if !(s.current matches Some(c) && c.0 == p.scan_id) {
                (s, Err(err_older_scan()))
            } else if p.used.contains(cid) {
                (s, Err(err_replay()))
            } else {
                let s2 = StateView {
                    plans: s.plans.update(k, PlanView { used: p.used.push(cid), ..p }),
                    ..s
                };
                match item_index(p.items, cid) {
                    Some(j) => (s2, Ok(p.items[j])),
                    None => (s2, Err(err_not_in_plan())),
                }
            }
        },
    }
}

/// The totals of the first scan; later scans leave them unchanged.
pub open spec fn spec_baseline(s: StateView, total: u64, waste: u64) -> (u64, u64) {
    match s.baseline {
        Some(b) => b,
        None => (total, waste),
    }
}

pub open spec fn result_view<T, V>(r: Result<T, String>, f: spec_fn(T) -> V) -> Result<V, Seq<char>> {
    match r {
        Ok(t) => Ok(f(t)),
        Err(e) => Err(e@),
    }
}

/// Position of the first plan with id `id`.
fn plan_position(plans: &Vec<CleanupPlan>, id: &str) -> (r: Option<usize>)
    ensures
        match r {
            Some(k) => plan_index(plans_view(plans@), id@) == Some(k as int) && k < plans@.len(),
            None => plan_index(plans_view(plans@), id@) is None,
        },
{
    let ghost pv = plans_view(plans@);
    let mut i: usize = 0;
    assert(pv.skip(0) =~= pv);
    while i < plans.len()
        invariant
            i <= plans@.len(),
            pv == plans_view(plans@),
            plan_index(pv, id@) == match plan_index(pv.skip(i as int), id@) {
                Some(k) => Some(k + i),
                None => None,
            },
        decreases plans@.len() - i,
    {
        assert(pv.skip(i as int)[0] == pv[i as int]);
        if str_eq(plans[i].id.as_str(), id) {
            return Some(i);
        }
        assert(pv.skip(i as int).drop_first() =~= pv.skip(i + 1));
        i = i + 1;
    }
    None
}

/// Position of the first item with candidate id `cid`.
fn item_position(items: &Vec<PlanItem>, cid: &str) -> (r: Option<usize>)
    ensures
        match r {
            Some(k) => item_index(items_view(items@), cid@) == Some(k as int) && k < items@.len(),
            None => item_index(items_view(items@), cid@) is None,
        },
{
    let ghost iv = items_view(items@);
    let mut i: usize = 0;
    assert(iv.skip(0) =~= iv);
    while i < items.len()
        invariant
            i <= items@.len(),
            iv == items_view(items@),
            item_index(iv, cid@) == match item_index(iv.skip(i as int), cid@) {
                Some(k) => Some(k + i),
                None => None,
            },
        decreases items@.len() - i,
    {
        assert(iv.skip(i as int)[0] == iv[i as int]);
        if str_eq(items[i].cid.as_str(), cid) {
            return Some(i);
        }
        assert(iv.skip(i as int).drop_first() =~= iv.skip(i + 1));
        i = i + 1;
    }
    None
}

/// Whether `s` is among `v`.
pub fn contains_str(v: &Vec<String>, s: &str) -> (r: bool)
    ensures
        r == strs_view(v@).contains(s@),
{
    let mut i: usize = 0;
    while i < v.len()
        invariant
            i <= v@.len(),
            forall|j: int| 0 <= j < i ==> v@[j]@ != s@,
        decreases v@.len() - i,
    {
        if str_eq(v[i].as_str(), s) {
            assert(strs_view(v@)[i as int] == s@);
            return true;
        }
        i = i + 1;
    }
    assert(!strs_view(v@).contains(s@)) by {
        if strs_view(v@).contains(s@) {
            let j = choose|j: int| 0 <= j < v@.len() && strs_view(v@)[j] == s@;
            assert(v@[j]@ == s@);
        }
    }
    false
}

impl AppState {
    #[verifier::type_invariant]
    spec fn inv(self) -> bool {
        total_size(snapshot_view(self.snapshot@)) <= u64::MAX
    }

    /// The total size of the current snapshot's records fits in a `u64`.
    pub fn snapshot_total_fits(&self)
        ensures
            self@.current matches Some(c) ==> total_size(c.1) <= u64::MAX,
    {
        proof {
            use_type_invariant(self);
        }
    }

    /// Fresh state: no scan, no plans, zero totals.
    pub fn new() -> (s: AppState)
        ensures
            s@ == (StateView {
                baseline: None,
                scan_seq: 0,
                current: None,
                plans: Seq::<PlanView>::empty(),
                session_freed: 0,
                session_cleaned: 0,
            }),
    {
        let s = AppState {
            baseline: None,
            scan_seq: 0,
            current_scan: None,
            snapshot: Vec::new(),
            plans: Vec::new(),
            session_freed: 0,
            session_cleaned: 0,
        };
        assert(snapshot_view(s.snapshot@) =~= Seq::<(Seq<char>, RecordView)>::empty());
        assert(plans_view(s.plans@) =~= Seq::<PlanView>::empty());
        s
    }

    /// The last scan id handed out.
    pub fn last_scan_id(&self) -> (r: u64)
        ensures
            r == self@.scan_seq,
    {
        self.scan_seq
    }

    /// Allocate a fresh scan id.
    pub fn next_scan_id(&mut self) -> (r: u64)
        requires
            old(self)@.scan_seq < u64::MAX,
        ensures
            r == old(self)@.scan_seq + 1,
            final(self)@ == (StateView { scan_seq: r, ..old(self)@ }),
    {
        proof {
            use_type_invariant(&*self);
        }
        self.scan_seq = self.scan_seq + 1;
        self.scan_seq
    }

    /// Publish a snapshot. Drops the older snapshot AND all plans:
    /// ids from a previous scan stop resolving immediately.
    pub fn store_snapshot(&mut self, scan_id: u64, snapshot: Snapshot)
        requires
            total_size(snapshot_view(snapshot@)) <= u64::MAX,
        ensures
            final(self)@ == spec_store(old(self)@, scan_id, snapshot_view(snapshot@)),
    {
        self.snapshot = snapshot;
        self.plans = Vec::new();
        self.current_scan = Some(scan_id);
        assert(plans_view(self.plans@) =~= Seq::<PlanView>::empty());
    }

    /// Copy of the current scan's snapshot, if any.
    pub fn snapshot(&self) -> (r: Option<(u64, Snapshot)>)
        ensures
            match r {
                Some(x) => self@.current == Some((x.0, snapshot_view(x.1@))),
                None => self@.current is None,
            },
    {
        match self.current_scan {
            Some(id) => Some((id, copy_snapshot(&self.snapshot))),
            None => None,
        }
    }

    /// The record of candidate `cid` in the current snapshot.
    pub fn candidate(&self, cid: &str) -> (r: Option<&CandidateRecord>)
        ensures
            match self@.current {
                Some(c) => match key_index(c.1, cid@) {
                    Some(i) => r matches Some(x) && x@ == c.1[i].1,
                    None => r is None,
                },
                None => r is None,
            },
    {
        if self.current_scan.is_none() {
            return None;
        }
        let ghost sv = snapshot_view(self.snapshot@);
        let mut i: usize = 0;
        while i < self.snapshot.len()
            invariant
                i <= self.snapshot@.len(),
                self.current_scan is Some,
                sv == snapshot_view(self.snapshot@),
                forall|j: int| 0 <= j < i ==> sv[j].0 != cid@,
            decreases self.snapshot@.len() - i,
        {
            if str_eq(self.snapshot[i].0.as_str(), cid) {
                proof {
                    assert(sv[i as int].0 == self.snapshot@[i as int].0@);
                    lemma_key_index(sv, cid@);
                    match key_index(sv, cid@) {
                        Some(k) => {
                            if k < i {
                                assert(sv[k].0 != cid@);
                            } else if k > i {
                                assert(sv[i as int].0 == cid@);
                            }
                        },
                        None => {
                            assert(sv[i as int].0 == cid@);
                        },
                    }
                }
                assert(sv[i as int].1 == self.snapshot@[i as int].1@);
                assert(key_index(sv, cid@) == Some(i as int));
                assert(self@.current == Some((self.current_scan.unwrap(), sv)));
                return Some(&self.snapshot[i].1);
            }
            i = i + 1;
        }
        proof {
            lemma_key_index(sv, cid@);
            assert(self@.current == Some((self.current_scan.unwrap(), sv)));
        }
        None
    }

    /// Id of the scan whose snapshot is current.
    pub fn snapshot_scan_id(&self) -> (r: Option<u64>)
        ensures
            match self@.current {
                Some(c) => r == Some(c.0),
                None => r is None,
            },
    {
        self.current_scan
    }

    /// Number of records in the current snapshot (zero without a scan).
    pub fn snapshot_len(&self) -> (r: usize)
        ensures
            match self@.current {
                Some(c) => r == c.1.len(),
                None => r == 0,
            },
    {
        if self.current_scan.is_some() {
            self.snapshot.len()
        } else {
            0
        }
    }

    /// First-scan totals, captured once per process. Raw bytes: the
    /// frontend owns all number formatting.
    pub fn baseline_or_set(&mut self, total_bytes: u64, waste_bytes: u64) -> (r: (u64, u64))
        ensures
            r == spec_baseline(old(self)@, total_bytes, waste_bytes),
            final(self)@ == (StateView { baseline: Some(r), ..old(self)@ }),
    {
        proof {
            use_type_invariant(&*self);
        }
        let b = match self.baseline {
            Some(b) => b,
            None => (total_bytes, waste_bytes),
        };
        self.baseline = Some(b);
        b
    }

    pub fn insert_plan(&mut self, plan: CleanupPlan)
        ensures
            final(self)@ == spec_insert_plan(old(self)@, plan@),
    {
        proof {
            use_type_invariant(&*self);
        }
        let ghost pv = plans_view(self.plans@);
        let mut plans: Vec<CleanupPlan> = Vec::new();
        std::mem::swap(&mut plans, &mut self.plans);
        match plan_position(&plans, plan.id.as_str()) {
            Some(k) => {
                plans.set(k, plan);
                assert(plans_view(plans@) =~= pv.update(k as int, plan@));
            },
            None => {
                plans.push(plan);
                assert(plans_view(plans@) =~= pv.push(plan@));
            },
        }
        self.plans = plans;
    }

    /// Take one plan item for execution. Marks it used first, so neither
    /// replays nor concurrent double-takes can delete twice. Returns the
    /// item only if its plan belongs to the current scan.
    pub fn take_plan_item(&mut self, plan_id: &str, cid: &str) -> (r: Result<PlanItem, String>)
        ensures
            final(self)@ == spec_take(old(self)@, plan_id@, cid@).0,
            result_view(r, |p: PlanItem| p@) == spec_take(old(self)@, plan_id@, cid@).1,
    {
        proof {
            use_type_invariant(&*self);
        }
        let ghost pv = plans_view(self.plans@);
        let k = match plan_position(&self.plans, plan_id) {
            Some(k) => k,
            None => {
                return Err(String::from_str("unknown or expired plan; rescan and prepare again"));
            },
        };
        let scan_ok = match self.current_scan {
            Some(c) => c == self.plans[k].scan_id,
            None => false,
        };
        if !scan_ok {
            return Err(String::from_str("plan belongs to an older scan; rescan and prepare again"));
        }
        assert(pv[k as int] == self.plans@[k as int]@);
        if contains_str(&self.plans[k].used, cid) {
            return Err(String::from_str("candidate already executed; replay refused"));
        }
        let mut plans: Vec<CleanupPlan> = Vec::new();
        std::mem::swap(&mut plans, &mut self.plans);
        let mut plan = plans.remove(k);
        plan.used.push(cid.to_owned());
        let ghost newp = plan@;
        assert(newp.used =~= pv[k as int].used.push(cid@));
        assert(newp == PlanView { used: pv[k as int].used.push(cid@), ..pv[k as int] });
        let result = match item_position(&plan.items, cid) {
            Some(x) => Ok(plan.items[x].copy()),
            None => Err(String::from_str("candidate not part of this plan")),
        };
        plans.insert(k, plan);
        assert(plans_view(plans@) =~= pv.update(k as int, newp));
        self.plans = plans;
        result
    }

    /// Add to the freed byte total without counting a removal. Used on the
    /// failure path, which still wants to report the running session total.
    pub fn add_session_freed(&mut self, bytes: u64) -> (r: u64)
        requires
            old(self)@.session_freed + bytes <= u64::MAX,
        ensures
            r == old(self)@.session_freed + bytes,
            final(self)@ == (StateView { session_freed: r, ..old(self)@ }),
    {
        proof {
            use_type_invariant(&*self);
        }
        self.session_freed = self.session_freed + bytes;
        self.session_freed
    }

    /// Record one successfully removed version folder and return the running
    /// session totals as `(bytes_freed, folders_removed)`.
    pub fn record_deletion(&mut self, bytes: u64) -> (r: (u64, u64))
        requires
            old(self)@.session_freed + bytes <= u64::MAX,
            old(self)@.session_cleaned < u64::MAX,
        ensures
            r == (
                (old(self)@.session_freed + bytes) as u64,
                (old(self)@.session_cleaned + 1) as u64,
            ),
            final(self)@ == (StateView { session_freed: r.0, session_cleaned: r.1, ..old(self)@ }),
    {
        proof {
            use_type_invariant(&*self);
        }
        self.session_freed = self.session_freed + bytes;
        self.session_cleaned = self.session_cleaned + 1;
        (self.session_freed, self.session_cleaned)
    }

    /// Running session totals as `(bytes_freed, folders_removed)`.
    pub fn session_stats(&self) -> (r: (u64, u64))
        ensures
            r == (self@.session_freed, self@.session_cleaned),
    {
        (self.session_freed, self.session_cleaned)
    }
}

proof fn lemma_plan_index(plans: Seq<PlanView>, id: Seq<char>)
    ensures
        plan_index(plans, id) matches Some(i) ==> 0 <= i < plans.len() && plans[i].id == id
            && forall|j: int| 0 <= j < i ==> plans[j].id != id,
        plan_index(plans, id) is None ==> forall|j: int| 0 <= j < plans.len() ==> plans[j].id != id,
    decreases plans.len(),
{
    if plans.len() > 0 {
        lemma_plan_index(plans.drop_first(), id);
        if plans[0].id != id {
            assert forall|j: int| 0 < j < plans.len() implies plans[j].id == plans.drop_first()[j
                - 1].id by {}
        }
    }
}

proof fn lemma_plan_index_unique(plans: Seq<PlanView>, id: Seq<char>, i: int)
    requires
        0 <= i < plans.len(),
        plans[i].id == id,
        forall|j: int| 0 <= j < i ==> plans[j].id != id,
    ensures
        plan_index(plans, id) == Some(i),
{
    lemma_plan_index(plans, id);
    match plan_index(plans, id) {
        Some(k) => {
            if k < i {
                assert(plans[k].id != id);
            } else if k > i {
                assert(plans[i].id != id);
            }
        },
        None => {
            assert(plans[i].id != id);
        },
    }
}

/// Replays are refused: once a candidate of a plan has been handed out for
/// deletion, asking for the same candidate of the same plan again fails.
pub proof fn law_replay_refused(s: StateView, plan_id: Seq<char>, cid: Seq<char>)
    requires
        spec_take(s, plan_id, cid).1 is Ok,
    ensures
        spec_take(spec_take(s, plan_id, cid).0, plan_id, cid).1 == Err::<PlanItemView, Seq<char>>(
            err_replay(),
        ),
{
    lemma_plan_index(s.plans, plan_id);
    let k = plan_index(s.plans, plan_id).unwrap();
    let s2 = spec_take(s, plan_id, cid).0;
    let p2 = s2.plans[k];
    assert(p2.used == s.plans[k].used.push(cid));
    assert(p2.used[p2.used.len() - 1] == cid);
    assert forall|j: int| 0 <= j < k implies s2.plans[j].id != plan_id by {
        assert(s2.plans[j] == s.plans[j]);
    }
    lemma_plan_index_unique(s2.plans, plan_id, k);
}

/// A plan item is only handed out while its plan belongs to the current
/// scan, and it is exactly the item the plan froze for that candidate.
pub proof fn law_take_only_current_scan(s: StateView, plan_id: Seq<char>, cid: Seq<char>)
    requires
        spec_take(s, plan_id, cid).1 is Ok,
    ensures
        plan_index(s.plans, plan_id) matches Some(k) && s.current matches Some(c) && c.0
            == s.plans[k].scan_id && s.plans[k].items.contains(spec_take(s, plan_id, cid).1->Ok_0),
{
    let k = plan_index(s.plans, plan_id).unwrap();
    let j = item_index(s.plans[k].items, cid).unwrap();
    lemma_item_index(s.plans[k].items, cid);
    assert(s.plans[k].items[j] == spec_take(s, plan_id, cid).1->Ok_0);
}

proof fn lemma_item_index(items: Seq<PlanItemView>, cid: Seq<char>)
    ensures
        item_index(items, cid) matches Some(i) ==> 0 <= i < items.len() && items[i].cid == cid,
    decreases items.len(),
{
    if items.len() > 0 {
        lemma_item_index(items.drop_first(), cid);
    }
}

/// A rescan invalidates every outstanding plan: right after a snapshot is
/// stored, no plan item can be taken.
pub proof fn law_rescan_invalidates_plans(
    s: StateView,
    scan_id: u64,
    snap: Seq<(Seq<char>, RecordView)>,
    plan_id: Seq<char>,
    cid: Seq<char>,
)
    ensures
        spec_take(spec_store(s, scan_id, snap), plan_id, cid).1 == Err::<PlanItemView, Seq<char>>(
            err_unknown_plan(),
        ),
        spec_take(spec_store(s, scan_id, snap), plan_id, cid).0 == spec_store(s, scan_id, snap),
{
}

/// The baseline is captured once: whatever later scans report, the first
/// totals are returned.
pub proof fn law_baseline_captured_once(s: StateView, t1: u64, w1: u64, t2: u64, w2: u64)
    ensures
        spec_baseline(StateView { baseline: Some(spec_baseline(s, t1, w1)), ..s }, t2, w2)
            == spec_baseline(s, t1, w1),
        s.baseline is None ==> spec_baseline(s, t1, w1) == (t1, w1),
{
}

/// Taking a plan item succeeds exactly when the plan exists, belongs to
/// the current scan, has not handed out this candidate before and lists it;
/// it then returns the item the plan froze for that candidate.
pub proof fn law_take_succeeds_exactly_when(s: StateView, plan_id: Seq<char>, cid: Seq<char>)
    ensures
        spec_take(s, plan_id, cid).1 is Ok <==> (plan_index(s.plans, plan_id) matches Some(k)
            && s.current matches Some(c) && c.0 == s.plans[k].scan_id
            && !s.plans[k].used.contains(cid) && item_index(s.plans[k].items, cid) is Some),
        spec_take(s, plan_id, cid).1 matches Ok(item) ==> item.cid == cid,
{
    if let Some(k) = plan_index(s.plans, plan_id) {
        lemma_item_index(s.plans[k].items, cid);
    }
}

/// A plan just inserted for the current scan hands out each of its items
/// once: the first take of a listed candidate returns its frozen item, a
/// second take of it is refused as a replay.
pub proof fn law_inserted_plan_items_are_taken_once(s: StateView, p: PlanView, cid: Seq<char>)
    requires
        s.current matches Some(c) && c.0 == p.scan_id,
        p.used.len() == 0,
        item_index(p.items, cid) is Some,
    ensures
        ({
            let s1 = spec_insert_plan(s, p);
            let (s2, first) = spec_take(s1, p.id, cid);
            &&& first == Ok::<PlanItemView, Seq<char>>(p.items[item_index(p.items, cid).unwrap()])
            &&& spec_take(s2, p.id, cid).1 == Err::<PlanItemView, Seq<char>>(err_replay())
        }),
{
    let s1 = spec_insert_plan(s, p);
    lemma_plan_index(s.plans, p.id);
    match plan_index(s.plans, p.id) {
        Some(k) => {
            assert forall|j: int| 0 <= j < k implies s1.plans[j].id != p.id by {
                assert(s1.plans[j] == s.plans[j]);
            }
            lemma_plan_index_unique(s1.plans, p.id, k);
        },
        None => {
            let k = s.plans.len() as int;
            assert forall|j: int| 0 <= j < k implies s1.plans[j].id != p.id by {
                assert(s1.plans[j] == s.plans[j]);
            }
            lemma_plan_index_unique(s1.plans, p.id, k);
        },
    }
    assert(!p.used.contains(cid));
    law_replay_refused(s1, p.id, cid);
}

impl Default for AppState {
    fn default() -> (s: AppState)
        ensures
            s@ == (StateView {
                baseline: None,
                scan_seq: 0,
                current: None,
                plans: Seq::<PlanView>::empty(),
                session_freed: 0,
                session_cleaned: 0,
            }),
    {
        AppState::new()
    }
}

} // verus!
