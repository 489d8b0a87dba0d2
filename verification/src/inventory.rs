//! The read-only inventory of every profile: profile order and labels,
//! the scan over all extension directories, and the response payload.

use vstd::prelude::*;
use crate::env::ChromeStatus;
use crate::json::JsonValue;
use crate::order::{insert_stable, seq_lt, sort_stable, stable_sort, str_less, sum_by};
use crate::prefs::{is_component_location, prefs_get, prefs_lookup, PrefsEntry};
use crate::scan::{
    candidate_records, classify_extension, lemma_extension_totals, name_before, spec_extension,
    sum_child_sizes, ChildInput, ExtensionInfo, ExtensionView,
};
use crate::state::{
    pairs_view, snapshot_view, spec_baseline, spec_store, AppState, RecordView, Snapshot,
    StateView,
};
use crate::text::chars_of;

verus! {

/// One entry of a profile's `Extensions` folder, as read during a scan.
pub struct ExtensionDirInput {
    pub id: String,
    pub is_dir: bool,
    /// Entries of the extension directory (empty when it cannot be read).
    pub children: Vec<ChildInput>,
}

/// One profile, as read during a scan.
pub struct ProfileInput {
    pub name: String,
    /// Chrome's extension records for the profile.
    pub prefs: Vec<(String, PrefsEntry)>,
    /// Entries of `<profile>/Extensions`; `None` when it cannot be read.
    pub extensions: Option<Vec<ExtensionDirInput>>,
}

/// Everything a scan reads from the machine.
pub struct ScanInput {
    /// Profiles in display order.
    pub profiles: Vec<ProfileInput>,
    pub labels: Vec<(String, String)>,
    pub status: ChromeStatus,
    pub platform: String,
    pub os: String,
    pub chrome_version: Option<String>,
    pub chrome_dir: String,
}

/// Full scan payload returned to the frontend.
#[derive(Debug, Clone)]
pub struct ScanResponse {
    pub scan_id: u64,
    pub platform: String,
    pub os: String,
    pub chrome_version: Option<String>,
    pub chrome_dir: String,
    pub chrome_status: ChromeStatus,
    /// False when no Chrome user-data directory exists at all.
    pub chrome_detected: bool,
    /// Where we looked for Chrome; only meaningful when it was not detected.
    pub expected_dir: String,
    pub profiles: Vec<String>,
    /// Display name per profile directory. No e-mails, by design.
    pub profile_labels: Vec<(String, String)>,
    pub extensions: Vec<ExtensionInfo>,
    pub total_bytes: u64,
    pub waste_bytes: u64,
    pub baseline_total_bytes: u64,
    pub baseline_waste_bytes: u64,
    pub session_freed_bytes: u64,
    pub session_cleaned_count: u64,
}

/// Profiles are listed `Default` first, then by name.
pub open spec fn profile_before(a: Seq<char>, b: Seq<char>) -> bool {
    ||| (a == "Default"@ && b != "Default"@)
    ||| ((a == "Default"@) == (b == "Default"@) && seq_lt(a, b))
}

pub open spec fn names_view(v: Seq<String>) -> Seq<Seq<char>> {
    Seq::new(v.len(), |i: int| v[i]@)
}

/// Names of the entries of the user-data directory that hold an
/// `Extensions` folder, in directory order.
pub open spec fn with_extensions(entries: Seq<(String, bool)>) -> Seq<String>
    decreases entries.len(),
{
    if entries.len() == 0 {
        Seq::<String>::empty()
    } else if entries.last().1 {
        with_extensions(entries.drop_last()).push(entries.last().0)
    } else {
        with_extensions(entries.drop_last())
    }
}

/// Profile directory names containing an `Extensions` folder, `Default`
/// first, then by name. `entries` are the user-data directory's entries,
/// each with whether it holds an `Extensions` folder.
pub fn list_profiles(entries: Vec<(String, bool)>) -> (r: Vec<String>)
    ensures
        r@ == stable_sort(with_extensions(entries@), |a: String, b: String| profile_before(a@, b@)),
{
    let ghost orig = entries@;
    let mut rest = entries;
    let mut names: Vec<String> = Vec::new();
    let ghost mut n: int = 0;
    assert(orig.skip(0) =~= orig);
    assert(orig.take(0) =~= Seq::<(String, bool)>::empty());
    while rest.len() > 0
        invariant
            0 <= n <= orig.len(),
            rest@ == orig.skip(n),
            names@ == with_extensions(orig.take(n)),
        decreases rest@.len(),
    {
        let e = rest.remove(0);
        assert(e == orig[n]);
        assert(orig.take(n + 1).drop_last() =~= orig.take(n));
        assert(orig.take(n + 1).last() == e);
        let (name, has_extensions) = e;
        if has_extensions {
            names.push(name);
        }
        proof {
            n = n + 1;
            assert(rest@ =~= orig.skip(n));
        }
    }
    assert(orig.take(n) =~= orig);
    order_profiles(names)
}

/// Order profile directory names: `Default` first, then by name.
fn order_profiles(names: Vec<String>) -> (r: Vec<String>)
    ensures
        r@ == stable_sort(names@, |a: String, b: String| profile_before(a@, b@)),
{
    let before = |a: &String, b: &String| -> (r: bool)
        ensures
            r == profile_before(a@, b@),
        {
            let d = chars_of("Default");
            let ac = chars_of(a.as_str());
            let bc = chars_of(b.as_str());
            let a_default = crate::text::chars_eq(&ac, &d);
            let b_default = crate::text::chars_eq(&bc, &d);
            (a_default && !b_default) || (a_default == b_default && str_less(a.as_str(), b.as_str()))
        };
    sort_stable(names, before, Ghost(|a: String, b: String| profile_before(a@, b@)))
}

/// Label of one `profile.info_cache` entry: its non-empty `name`, else
/// the directory name. Account e-mails are never read.
pub open spec fn label_of(dir: Seq<char>, info: JsonValue) -> Seq<char> {
    match crate::prefs::member_str(info.spec_get("name"@)) {
        Some(n) => if n.len() > 0 {
            n
        } else {
            dir
        },
        None => dir,
    }
}

/// Display name per profile directory, from the `Local State` document.
pub open spec fn spec_labels(root: JsonValue) -> Seq<(Seq<char>, Seq<char>)> {
    match root.spec_get2("profile"@, "info_cache"@) {
        Some(JsonValue::Object(e)) => Seq::new(e@.len(), |i: int| (e@[i].0@, label_of(e@[i].0@, e@[i].1))),
        _ => Seq::<(Seq<char>, Seq<char>)>::empty(),
    }
}

/// Display name per profile directory, from the parsed `Local State`.
/// E-mail addresses are dropped here.
pub fn labels_from_document(root: &JsonValue) -> (r: Vec<(String, String)>)
    ensures
        pairs_view(r@) == spec_labels(*root),
{
    let cache = match root.get("profile") {
        Some(p) => p.get("info_cache"),
        None => None,
    };
    let entries = match cache {
        Some(JsonValue::Object(e)) => e,
        _ => {
            let r: Vec<(String, String)> = Vec::new();
            assert(pairs_view(r@) =~= spec_labels(*root));
            return r;
        },
    };
    let mut out: Vec<(String, String)> = Vec::new();
    let mut i: usize = 0;
    while i < entries.len()
        invariant
            i <= entries@.len(),
            out@.len() == i,
            forall|t: int| 0 <= t < i ==> ((#[trigger] out@[t]).0@, out@[t].1@) == (entries@[t].0@, label_of(entries@[t].0@, entries@[t].1)),
        decreases entries@.len() - i,
    {
        let dir = &entries[i].0;
        let name = match entries[i].1.get("name") {
            Some(v) => match v.as_str() {
                Some(n) => if !n.is_empty() {
                    n.to_owned()
                } else {
                    dir.clone()
                },
                None => dir.clone(),
            },
            None => dir.clone(),
        };
        out.push((dir.clone(), name));
        i = i + 1;
    }
    assert(pairs_view(out@) =~= spec_labels(*root));
    out
}

/// Display name per profile directory, from the text of `Local State`
/// (`None` when it could not be read): nothing when it is not JSON.
pub fn profile_labels(text: &Option<String>) -> (r: Vec<(String, String)>)
    ensures
        pairs_view(r@) == match crate::json::parsed_text(*text) {
            Some(root) => spec_labels(root),
            None => Seq::<(Seq<char>, Seq<char>)>::empty(),
        },
{
    match crate::json::parse_text(text) {
        Some(root) => labels_from_document(&root),
        None => {
            let r: Vec<(String, String)> = Vec::new();
            assert(pairs_view(r@) =~= Seq::<(Seq<char>, Seq<char>)>::empty());
            r
        },
    }
}

/// An entry of `Extensions` that is scanned: a directory, not hidden.
pub open spec fn is_ext_dir(d: ExtensionDirInput) -> bool {
    d.is_dir && !(d.id@.len() > 0 && d.id@[0] == '.')
}

pub open spec fn ext_dirs_of(ds: Seq<ExtensionDirInput>) -> Seq<ExtensionDirInput>
    decreases ds.len(),
{
    if ds.len() == 0 {
        Seq::<ExtensionDirInput>::empty()
    } else if is_ext_dir(ds.last()) {
        ext_dirs_of(ds.drop_last()).push(ds.last())
    } else {
        ext_dirs_of(ds.drop_last())
    }
}

pub open spec fn id_before(a: ExtensionDirInput, b: ExtensionDirInput) -> bool {
    seq_lt(a.id@, b.id@)
}

/// Extension directories of a profile, in id order.
pub open spec fn profile_dirs(p: ProfileInput) -> Seq<ExtensionDirInput> {
    match p.extensions {
        Some(v) => stable_sort(ext_dirs_of(v@), |a: ExtensionDirInput, b: ExtensionDirInput| id_before(a, b)),
        None => Seq::<ExtensionDirInput>::empty(),
    }
}

pub open spec fn dir_size(d: ExtensionDirInput) -> nat {
    sum_child_sizes(d.children@)
}

pub open spec fn dir_count(d: ExtensionDirInput) -> nat {
    d.children@.len()
}

/// Bytes under the scanned extension directories of a profile.
pub open spec fn profile_size(p: ProfileInput) -> nat {
    sum_by(profile_dirs(p), |d: ExtensionDirInput| dir_size(d))
}

/// Entries under the scanned extension directories of a profile.
pub open spec fn profile_count(p: ProfileInput) -> nat {
    sum_by(profile_dirs(p), |d: ExtensionDirInput| dir_count(d))
}

/// Progress of a scan: candidate ids handed out, extensions listed, records
/// bound, and byte totals.
pub struct ScanAcc {
    pub counter: nat,
    pub exts: Seq<ExtensionView>,
    pub records: Seq<(Seq<char>, RecordView)>,
    pub total: nat,
    pub waste: nat,
}

/// Entries of an extension directory, in name order.
pub open spec fn sorted_children(d: ExtensionDirInput) -> Seq<ChildInput> {
    stable_sort(d.children@, |a: ChildInput, b: ChildInput| name_before(a, b))
}

/// Scanning one extension directory: Chrome components (a real record at
/// location 5 or 10) are skipped; others are classified and, when they hold
/// a version directory, listed.
pub open spec fn scan_step(acc: ScanAcc, profile: Seq<char>, prefs: Seq<(String, PrefsEntry)>, d: ExtensionDirInput, scan_id: u64, lang: Seq<char>, win: bool) -> ScanAcc {
    let pref = prefs_get(prefs, d.id@);
    if pref matches Some(p) && is_component_location(p.location) {
        acc
    } else {
        match spec_extension(profile, d.id@, sorted_children(d), pref, scan_id, acc.counter, lang, win) {
            None => acc,
            Some(e) => ScanAcc {
                counter: acc.counter + e.n_versions,
                exts: acc.exts.push(e),
                records: acc.records + candidate_records(e.versions, sorted_children(d), e),
                total: acc.total + (e.total_bytes as nat),
                waste: acc.waste + (e.waste_bytes as nat),
            },
        }
    }
}

pub open spec fn scan_dirs(acc: ScanAcc, profile: Seq<char>, prefs: Seq<(String, PrefsEntry)>, ds: Seq<ExtensionDirInput>, scan_id: u64, lang: Seq<char>, win: bool) -> ScanAcc
    decreases ds.len(),
{
    if ds.len() == 0 {
        acc
    } else {
        scan_step(scan_dirs(acc, profile, prefs, ds.drop_last(), scan_id, lang, win), profile, prefs, ds.last(), scan_id, lang, win)
    }
}

/// The scan over all profiles, in order.
pub open spec fn scan_profiles(ps: Seq<ProfileInput>, scan_id: u64, lang: Seq<char>, win: bool) -> ScanAcc
    decreases ps.len(),
{
    if ps.len() == 0 {
        ScanAcc {
            counter: 0,
            exts: Seq::<ExtensionView>::empty(),
            records: Seq::<(Seq<char>, RecordView)>::empty(),
            total: 0,
            waste: 0,
        }
    } else {
        let p = ps.last();
        scan_dirs(scan_profiles(ps.drop_last(), scan_id, lang, win), p.name@, p.prefs@, profile_dirs(p), scan_id, lang, win)
    }
}

/// Extensions with the most reclaimable bytes come first (stable).
pub open spec fn more_waste(a: ExtensionView, b: ExtensionView) -> bool {
    a.waste_bytes > b.waste_bytes
}

pub open spec fn exts_view(v: Seq<ExtensionInfo>) -> Seq<ExtensionView> {
    Seq::new(v.len(), |i: int| v[i]@)
}

fn filter_ext_dirs(ds: Vec<ExtensionDirInput>) -> (r: Vec<ExtensionDirInput>)
    ensures
        r@ == ext_dirs_of(ds@),
{
    let ghost orig = ds@;
    let mut rest = ds;
    let mut out: Vec<ExtensionDirInput> = Vec::new();
    let ghost mut n: int = 0;
    assert(orig.skip(0) =~= orig);
    assert(orig.take(0) =~= Seq::<ExtensionDirInput>::empty());
    while rest.len() > 0
        invariant
            0 <= n <= orig.len(),
            rest@ == orig.skip(n),
            out@ == ext_dirs_of(orig.take(n)),
        decreases rest@.len(),
    {
        let d = rest.remove(0);
        assert(d == orig[n]);
        assert(orig.take(n + 1).drop_last() =~= orig.take(n));
        assert(orig.take(n + 1).last() == d);
        let hidden = {
            let cs = chars_of(d.id.as_str());
            cs.len() > 0 && cs[0] == '.'
        };
        if d.is_dir && !hidden {
            out.push(d);
        }
        proof {
            n = n + 1;
            assert(rest@ =~= orig.skip(n));
        }
    }
    assert(orig.take(n) =~= orig);
    out
}

fn sort_ext_dirs(ds: Vec<ExtensionDirInput>) -> (r: Vec<ExtensionDirInput>)
    ensures
        r@ == stable_sort(ds@, |a: ExtensionDirInput, b: ExtensionDirInput| id_before(a, b)),
{
    let before = |a: &ExtensionDirInput, b: &ExtensionDirInput| -> (r: bool)
        ensures
            r == id_before(*a, *b),
        { str_less(a.id.as_str(), b.id.as_str()) };
    sort_stable(ds, before, Ghost(|a: ExtensionDirInput, b: ExtensionDirInput| id_before(a, b)))
}

pub open spec fn acc_of(counter: u64, exts: Seq<ExtensionInfo>, snapshot: Seq<(String, crate::state::CandidateRecord)>, total: u64, waste: u64) -> ScanAcc {
    ScanAcc {
        counter: counter as nat,
        exts: exts_view(exts),
        records: snapshot_view(snapshot),
        total: total as nat,
        waste: waste as nat,
    }
}

/// Scan the extension directories `ds` of one profile.
fn process_dirs(
    scan_id: u64,
    profile: &String,
    prefs: &Vec<(String, PrefsEntry)>,
    ds: Vec<ExtensionDirInput>,
    counter: &mut u64,
    snapshot: &mut Snapshot,
    exts: &mut Vec<ExtensionInfo>,
    total: &mut u64,
    waste: &mut u64,
    lang: &str,
    win: bool,
)
    requires
        *old(counter) + sum_by(ds@, |d: ExtensionDirInput| dir_count(d)) <= u64::MAX,
        *old(total) + sum_by(ds@, |d: ExtensionDirInput| dir_size(d)) <= u64::MAX,
        *old(waste) <= *old(total),
        crate::state::total_size(snapshot_view(old(snapshot)@)) == *old(waste),
    ensures
        acc_of(*final(counter), final(exts)@, final(snapshot)@, *final(total), *final(waste))
            == scan_dirs(acc_of(*old(counter), old(exts)@, old(snapshot)@, *old(total), *old(waste)), profile@, prefs@, ds@, scan_id, lang@, win),
        *final(waste) <= *final(total),
        crate::state::total_size(snapshot_view(final(snapshot)@)) == *final(waste),
        *final(counter) <= *old(counter) + sum_by(ds@, |d: ExtensionDirInput| dir_count(d)),
        *final(total) <= *old(total) + sum_by(ds@, |d: ExtensionDirInput| dir_size(d)),
{
    let ghost orig = ds@;
    let ghost acc0 = acc_of(*counter, exts@, snapshot@, *total, *waste);
    let ghost c_start = *counter as nat;
    let ghost t_start = *total as nat;
    let ghost fc = |d: ExtensionDirInput| dir_count(d);
    let ghost fs = |d: ExtensionDirInput| dir_size(d);
    let mut rest = ds;
    let ghost mut n: int = 0;
    assert(orig.skip(0) =~= orig);
    assert(orig.take(0) =~= Seq::<ExtensionDirInput>::empty());
    while rest.len() > 0
        invariant
            0 <= n <= orig.len(),
            rest@ == orig.skip(n),
            acc_of(*counter, exts@, snapshot@, *total, *waste) == scan_dirs(acc0, profile@, prefs@, orig.take(n), scan_id, lang@, win),
            *counter <= c_start + sum_by(orig.take(n), fc),
            *total <= t_start + sum_by(orig.take(n), fs),
            fc == (|d: ExtensionDirInput| dir_count(d)),
            fs == (|d: ExtensionDirInput| dir_size(d)),
            c_start + sum_by(orig, fc) <= u64::MAX,
            t_start + sum_by(orig, fs) <= u64::MAX,
            *waste <= *total,
            crate::state::total_size(snapshot_view(snapshot@)) == *waste,
        decreases rest@.len(),
    {
        let d = rest.remove(0);
        proof {
            assert(d == orig[n]);
            assert(orig.take(n + 1).drop_last() =~= orig.take(n));
            assert(orig.take(n + 1).last() == d);
            crate::order::lemma_sum_by_take(orig, n, fc);
            crate::order::lemma_sum_by_take(orig, n, fs);
            crate::scan::lemma_sort_len_sum(d.children@);
        }
        let ghost dd = d;
        let ExtensionDirInput { id, is_dir: _, children } = d;
        let pref = prefs_lookup(prefs, id.as_str());
        let component = match pref {
            Some(p) => p.is_component(),
            None => false,
        };
        proof {
            assert(fc(dd) == children@.len());
            assert(fs(dd) == sum_child_sizes(children@));
            assert(*counter + children@.len() <= u64::MAX);
            assert(sum_child_sizes(children@) <= u64::MAX);
        }
        if !component {
            let ghost acc = acc_of(*counter, exts@, snapshot@, *total, *waste);
            let ghost s = sorted_children(dd);
            let ghost pv = prefs_get(prefs@, id@);
            let res = classify_extension(scan_id, profile.as_str(), id.as_str(), children, pref, counter, snapshot, lang, win);
            match res {
                Some(info) => {
                    proof {
                        lemma_extension_totals(profile@, id@, s, pv, scan_id, acc.counter, lang@, win);
                        crate::state::lemma_total_size_concat(acc.records, candidate_records(info@.versions, s, info@));
                    }
                    *total = *total + info.total_bytes;
                    *waste = *waste + info.waste_bytes;
                    let ghost before = exts_view(exts@);
                    exts.push(info);
                    assert(exts_view(exts@) =~= before.push(info@));
                },
                None => {},
            }
        }
        proof {
            n = n + 1;
            assert(rest@ =~= orig.skip(n));
        }
    }
    assert(orig.take(n) =~= orig);
}

proof fn lemma_insert_ext_view(sorted: Seq<ExtensionInfo>, x: ExtensionInfo)
    ensures
        exts_view(insert_stable(sorted, x, |a: ExtensionInfo, b: ExtensionInfo| more_waste(a@, b@)))
            == insert_stable(exts_view(sorted), x@, |a: ExtensionView, b: ExtensionView| more_waste(a, b)),
    decreases sorted.len(),
{
    let g1 = |a: ExtensionInfo, b: ExtensionInfo| more_waste(a@, b@);
    let sv = exts_view(sorted);
    if sorted.len() == 0 {
        assert(exts_view(seq![x]) =~= seq![x@]);
    } else {
        assert(sv[0] == sorted[0]@);
        if more_waste(x@, sorted[0]@) {
            assert(exts_view(seq![x] + sorted) =~= seq![x@] + sv);
        } else {
            lemma_insert_ext_view(sorted.drop_first(), x);
            assert(sv.drop_first() =~= exts_view(sorted.drop_first()));
            assert(exts_view(seq![sorted[0]] + insert_stable(sorted.drop_first(), x, g1))
                =~= seq![sv[0]] + exts_view(insert_stable(sorted.drop_first(), x, g1)));
        }
    }
}

proof fn lemma_sort_ext_view(v: Seq<ExtensionInfo>)
    ensures
        exts_view(stable_sort(v, |a: ExtensionInfo, b: ExtensionInfo| more_waste(a@, b@)))
            == stable_sort(exts_view(v), |a: ExtensionView, b: ExtensionView| more_waste(a, b)),
    decreases v.len(),
{
    let g1 = |a: ExtensionInfo, b: ExtensionInfo| more_waste(a@, b@);
    if v.len() > 0 {
        lemma_sort_ext_view(v.drop_last());
        assert(exts_view(v).drop_last() =~= exts_view(v.drop_last()));
        lemma_insert_ext_view(stable_sort(v.drop_last(), g1), v.last());
    } else {
        assert(exts_view(Seq::<ExtensionInfo>::empty()) =~= Seq::<ExtensionView>::empty());
    }
}

/// Extensions ordered by reclaimable bytes, largest first (stable).
fn sort_by_waste(v: Vec<ExtensionInfo>) -> (r: Vec<ExtensionInfo>)
    ensures
        exts_view(r@) == stable_sort(exts_view(v@), |a: ExtensionView, b: ExtensionView| more_waste(a, b)),
{
    let before = |a: &ExtensionInfo, b: &ExtensionInfo| -> (r: bool)
        ensures
            r == more_waste(a@, b@),
        { a.waste_bytes > b.waste_bytes };
    let r = sort_stable(v, before, Ghost(|a: ExtensionInfo, b: ExtensionInfo| more_waste(a@, b@)));
    proof {
        lemma_sort_ext_view(v@);
    }
    r
}

/// Names of the profiles, in order.
pub open spec fn profile_names(ps: Seq<ProfileInput>) -> Seq<Seq<char>> {
    Seq::new(ps.len(), |i: int| ps[i].name@)
}

/// What a scan over `input` answers, given the state before it and the
/// scan id it was handed.
pub open spec fn scan_matches(r: ScanResponse, input: ScanInput, before: StateView, lang: Seq<char>) -> bool {
    let acc = scan_profiles(input.profiles@, r.scan_id, lang, windows_paths(input.platform@));
    &&& r.scan_id == before.scan_seq + 1
    &&& exts_view(r.extensions@) == stable_sort(acc.exts, |a: ExtensionView, b: ExtensionView| more_waste(a, b))
    &&& r.total_bytes == acc.total
    &&& r.waste_bytes == acc.waste
    &&& r.waste_bytes <= r.total_bytes
    &&& (r.baseline_total_bytes, r.baseline_waste_bytes) == spec_baseline(before, r.total_bytes, r.waste_bytes)
    &&& r.session_freed_bytes == before.session_freed
    &&& r.session_cleaned_count == before.session_cleaned
    &&& names_view(r.profiles@) == profile_names(input.profiles@)
    &&& pairs_view(r.profile_labels@) == pairs_view(input.labels@)
    &&& r.platform@ == input.platform@
    &&& r.os@ == input.os@
    &&& crate::state::ostr(r.chrome_version) == crate::state::ostr(input.chrome_version)
    &&& r.chrome_dir@ == input.chrome_dir@
    &&& r.chrome_status == input.status
    &&& r.chrome_detected
    &&& r.expected_dir@ == Seq::<char>::empty()
}

/// Whether recorded paths follow Windows rules (`\` separates too): the
/// platform is `windows`.
pub open spec fn windows_paths(platform: Seq<char>) -> bool {
    platform == "windows"@
}

/// The scan's sums fit the counters: candidate ids handed out and bytes.
pub open spec fn scan_fits(input: ScanInput) -> bool {
    &&& sum_by(input.profiles@, |p: ProfileInput| profile_count(p)) <= u64::MAX
    &&& sum_by(input.profiles@, |p: ProfileInput| profile_size(p)) <= u64::MAX
}

/// State after a scan: new scan id, its snapshot published (plans dropped),
/// baseline captured if it was not yet.
pub open spec fn state_after_scan(before: StateView, input: ScanInput, r: ScanResponse, lang: Seq<char>) -> StateView {
    StateView {
        baseline: Some(spec_baseline(before, r.total_bytes, r.waste_bytes)),
        ..spec_store(
            StateView { scan_seq: r.scan_id, ..before },
            r.scan_id,
            scan_profiles(input.profiles@, r.scan_id, lang, windows_paths(input.platform@)).records,
        )
    }
}

/// The answer when no Chrome user-data directory exists.
pub open spec fn missing_matches(r: ScanResponse, before: StateView, platform: Seq<char>, os: Seq<char>, expected_dir: Seq<char>) -> bool {
    &&& r.scan_id == before.scan_seq + 1
    &&& r.platform@ == platform
    &&& r.os@ == os
    &&& r.chrome_version is None
    &&& r.chrome_dir@ == Seq::<char>::empty()
    &&& r.chrome_status == ChromeStatus::Unknown
    &&& !r.chrome_detected
    &&& r.expected_dir@ == expected_dir
    &&& r.profiles@.len() == 0
    &&& r.profile_labels@.len() == 0
    &&& r.extensions@.len() == 0
    &&& r.total_bytes == 0
    &&& r.waste_bytes == 0
    &&& r.baseline_total_bytes == 0
    &&& r.baseline_waste_bytes == 0
    &&& r.session_freed_bytes == before.session_freed
    &&& r.session_cleaned_count == before.session_cleaned
}

/// Scan every profile of a Chrome user-data directory: classify each
/// extension's version folders, publish the candidate snapshot (dropping
/// every earlier plan), and capture the first-scan baseline.
pub fn scan_root(state: &mut AppState, input: ScanInput, lang: &str) -> (r: Result<ScanResponse, String>)
    requires
        old(state)@.scan_seq < u64::MAX,
        scan_fits(input),
    ensures
        r matches Ok(resp) && scan_matches(resp, input, old(state)@, lang@)
            && final(state)@ == state_after_scan(old(state)@, input, resp, lang@),
{
    let ghost input0 = input;
    let ghost orig = input.profiles@;
    let ghost pc = |p: ProfileInput| profile_count(p);
    let ghost ps = |p: ProfileInput| profile_size(p);
    let win = crate::text::str_eq(input.platform.as_str(), "windows");
    let ScanInput { profiles, labels, status, platform, os, chrome_version, chrome_dir } = input;
    let scan_id = state.next_scan_id();
    let ghost s1 = state@;
    let mut counter: u64 = 0;
    let mut snapshot: Snapshot = Vec::new();
    let mut exts: Vec<ExtensionInfo> = Vec::new();
    let mut total: u64 = 0;
    let mut waste: u64 = 0;
    let mut names: Vec<String> = Vec::new();
    let mut rest = profiles;
    let ghost mut n: int = 0;
    assert(orig.skip(0) =~= orig);
    assert(orig.take(0) =~= Seq::<ProfileInput>::empty());
    assert(exts_view(exts@) =~= Seq::<ExtensionView>::empty());
    assert(snapshot_view(snapshot@) =~= Seq::<(Seq<char>, RecordView)>::empty());
    assert(names_view(names@) =~= profile_names(orig.take(0)));
    while rest.len() > 0
        invariant
            0 <= n <= orig.len(),
            rest@ == orig.skip(n),
            acc_of(counter, exts@, snapshot@, total, waste) == scan_profiles(orig.take(n), scan_id, lang@, win),
            names_view(names@) == profile_names(orig.take(n)),
            pc == (|p: ProfileInput| profile_count(p)),
            ps == (|p: ProfileInput| profile_size(p)),
            counter <= sum_by(orig.take(n), pc),
            total <= sum_by(orig.take(n), ps),
            sum_by(orig, pc) <= u64::MAX,
            sum_by(orig, ps) <= u64::MAX,
            waste <= total,
            crate::state::total_size(snapshot_view(snapshot@)) == waste,
        decreases rest@.len(),
    {
        let p = rest.remove(0);
        proof {
            assert(p == orig[n]);
            assert(orig.take(n + 1).drop_last() =~= orig.take(n));
            assert(orig.take(n + 1).last() == p);
            crate::order::lemma_sum_by_take(orig, n, pc);
            crate::order::lemma_sum_by_take(orig, n, ps);
        }
        let ghost pp = p;
        let ProfileInput { name, prefs, extensions } = p;
        let ds = match extensions {
            Some(v) => sort_ext_dirs(filter_ext_dirs(v)),
            None => Vec::new(),
        };
        proof {
            assert(ds@ == profile_dirs(pp));
            assert(pc(pp) == sum_by(ds@, |d: ExtensionDirInput| dir_count(d)));
            assert(ps(pp) == sum_by(ds@, |d: ExtensionDirInput| dir_size(d)));
        }
        process_dirs(scan_id, &name, &prefs, ds, &mut counter, &mut snapshot, &mut exts, &mut total, &mut waste, lang, win);
        let ghost before_names = names@;
        names.push(name);
        proof {
            assert(names@ == before_names.push(pp.name));
            assert(names_view(names@) =~= names_view(before_names).push(pp.name@));
            assert(profile_names(orig.take(n + 1)) =~= profile_names(orig.take(n)).push(pp.name@));
            n = n + 1;
            assert(rest@ =~= orig.skip(n));
        }
    }
    assert(orig.take(n) =~= orig);
    let extensions = sort_by_waste(exts);
    state.store_snapshot(scan_id, snapshot);
    let baseline = state.baseline_or_set(total, waste);
    let session = state.session_stats();
    let r = ScanResponse {
        scan_id,
        platform,
        os,
        chrome_version,
        chrome_dir,
        chrome_status: status,
        chrome_detected: true,
        expected_dir: String::new(),
        profiles: names,
        profile_labels: labels,
        extensions,
        total_bytes: total,
        waste_bytes: waste,
        baseline_total_bytes: baseline.0,
        baseline_waste_bytes: baseline.1,
        session_freed_bytes: session.0,
        session_cleaned_count: session.1,
    };
    Ok(r)
}

/// Inventory of the machine's Chrome: the full scan when its user-data
/// directory was `found`, else an empty answer that says where Chrome was
/// expected. Every call hands out a new scan id and publishes its snapshot
/// (empty without Chrome), so every earlier plan is dropped.
pub fn scan(
    state: &mut AppState,
    found: Option<ScanInput>,
    platform: String,
    os: String,
    expected_dir: String,
    lang: &str,
) -> (r: Result<ScanResponse, String>)
    requires
        old(state)@.scan_seq < u64::MAX,
        found matches Some(input) ==> scan_fits(input),
    ensures
        match found {
            Some(input) => r matches Ok(resp) && scan_matches(resp, input, old(state)@, lang@)
                && final(state)@ == state_after_scan(old(state)@, input, resp, lang@),
            None => r matches Ok(resp) && missing_matches(resp, old(state)@, platform@, os@, expected_dir@)
                && final(state)@ == spec_store(
                    StateView { scan_seq: resp.scan_id, ..old(state)@ },
                    resp.scan_id,
                    Seq::<(Seq<char>, RecordView)>::empty(),
                ),
        },
{
    match found {
        Some(input) => scan_root(state, input, lang),
        None => {
            let scan_id = state.next_scan_id();
            let empty: Snapshot = Vec::new();
            assert(snapshot_view(empty@) =~= Seq::<(Seq<char>, RecordView)>::empty());
            state.store_snapshot(scan_id, empty);
            let session = state.session_stats();
            let r = ScanResponse {
                scan_id,
                platform,
                os,
                chrome_version: None,
                chrome_dir: String::new(),
                chrome_status: ChromeStatus::Unknown,
                chrome_detected: false,
                expected_dir,
                profiles: Vec::new(),
                profile_labels: Vec::new(),
                extensions: Vec::new(),
                total_bytes: 0,
                waste_bytes: 0,
                baseline_total_bytes: 0,
                baseline_waste_bytes: 0,
                session_freed_bytes: session.0,
                session_cleaned_count: session.1,
            };
            Ok(r)
        },
    }
}

/// Every record of the scan so far carries a distinct id numbered within
/// the ids handed out.
pub open spec fn ids_fresh(acc: ScanAcc, scan_id: u64) -> bool {
    &&& crate::order::keys_distinct(acc.records, |r: (Seq<char>, RecordView)| r.0)
    &&& forall|i: int| 0 <= i < acc.records.len() ==> exists|n: nat| 0 < n <= acc.counter
        && (#[trigger] acc.records[i]).0 == crate::scan::cid_text(scan_id, n)
}

proof fn lemma_step_fresh(acc: ScanAcc, profile: Seq<char>, prefs: Seq<(String, PrefsEntry)>, d: ExtensionDirInput, scan_id: u64, lang: Seq<char>, win: bool)
    requires
        ids_fresh(acc, scan_id),
    ensures
        ids_fresh(scan_step(acc, profile, prefs, d, scan_id, lang, win), scan_id),
        acc.counter <= scan_step(acc, profile, prefs, d, scan_id, lang, win).counter,
{
    let pref = prefs_get(prefs, d.id@);
    if !(pref matches Some(p) && is_component_location(p.location)) {
        let sc = sorted_children(d);
        if let Some(e) = spec_extension(profile, d.id@, sc, pref, scan_id, acc.counter, lang, win) {
            let cands = candidate_records(e.versions, sc, e);
            let next = scan_step(acc, profile, prefs, d, scan_id, lang, win);
            assert(next.records == acc.records + cands);
            crate::scan::lemma_extension_ids(profile, d.id@, sc, pref, scan_id, acc.counter, lang, win);
            crate::scan::lemma_records_keys(e.versions, sc, e);
            assert forall|i: int| 0 <= i < cands.len() implies exists|m: nat| acc.counter < m <= acc.counter + e.n_versions
                && (#[trigger] cands[i]).0 == crate::scan::cid_text(scan_id, m) by {
                let j = choose|j: int| 0 <= j < e.versions.len() && cands[i].0 == e.versions[j].cid;
                assert(exists|m: nat| acc.counter < m <= acc.counter + e.n_versions && e.versions[j].cid == crate::scan::cid_text(scan_id, m));
            }
            assert forall|i: int| 0 <= i < next.records.len() implies exists|n: nat| 0 < n <= next.counter
                && (#[trigger] next.records[i]).0 == crate::scan::cid_text(scan_id, n) by {
                if i < acc.records.len() {
                    assert(next.records[i] == acc.records[i]);
                } else {
                    assert(next.records[i] == cands[i - acc.records.len()]);
                }
            }
            assert forall|i: int, j: int| 0 <= i < next.records.len() && 0 <= j < next.records.len() && i != j
                implies (#[trigger] next.records[i]).0 != (#[trigger] next.records[j]).0 by {
                let a = acc.records.len();
                if i < a && j < a {
                    assert(next.records[i] == acc.records[i] && next.records[j] == acc.records[j]);
                } else if i >= a && j >= a {
                    assert(next.records[i] == cands[i - a] && next.records[j] == cands[j - a]);
                } else {
                    let (o, c) = if i < a { (i, j - a) } else { (j, i - a) };
                    assert(next.records[if i < a { i } else { j }] == acc.records[o]);
                    assert(next.records[if i < a { j } else { i }] == cands[c]);
                    let n1 = choose|n: nat| 0 < n <= acc.counter && acc.records[o].0 == crate::scan::cid_text(scan_id, n);
                    let m = choose|m: nat| acc.counter < m <= acc.counter + e.n_versions && cands[c].0 == crate::scan::cid_text(scan_id, m);
                    if acc.records[o].0 == cands[c].0 {
                        crate::scan::lemma_cid_injective(scan_id, n1, m);
                    }
                }
            }
        }
    }
}

proof fn lemma_dirs_fresh(acc: ScanAcc, profile: Seq<char>, prefs: Seq<(String, PrefsEntry)>, ds: Seq<ExtensionDirInput>, scan_id: u64, lang: Seq<char>, win: bool)
    requires
        ids_fresh(acc, scan_id),
    ensures
        ids_fresh(scan_dirs(acc, profile, prefs, ds, scan_id, lang, win), scan_id),
    decreases ds.len(),
{
    if ds.len() > 0 {
        lemma_dirs_fresh(acc, profile, prefs, ds.drop_last(), scan_id, lang, win);
        lemma_step_fresh(scan_dirs(acc, profile, prefs, ds.drop_last(), scan_id, lang, win), profile, prefs, ds.last(), scan_id, lang, win);
    }
}

/// Candidate ids are unique within a scan: each names exactly one version
/// folder of the snapshot, and each has the form `s<scan>c<n>`.
pub proof fn law_candidate_ids_unique(ps: Seq<ProfileInput>, scan_id: u64, lang: Seq<char>, win: bool)
    ensures
        ids_fresh(scan_profiles(ps, scan_id, lang, win), scan_id),
    decreases ps.len(),
{
    if ps.len() > 0 {
        law_candidate_ids_unique(ps.drop_last(), scan_id, lang, win);
        let p = ps.last();
        lemma_dirs_fresh(scan_profiles(ps.drop_last(), scan_id, lang, win), p.name@, p.prefs@, profile_dirs(p), scan_id, lang, win);
    }
}

/// Every record so far was bound to a version offered as `candidate`.
pub open spec fn only_candidates(acc: ScanAcc) -> bool {
    forall|i: int| 0 <= i < acc.records.len() ==> (#[trigger] acc.records[i]).1.reason == "candidate"@
}

proof fn lemma_dirs_only_candidates(acc: ScanAcc, profile: Seq<char>, prefs: Seq<(String, PrefsEntry)>, ds: Seq<ExtensionDirInput>, scan_id: u64, lang: Seq<char>, win: bool)
    requires
        only_candidates(acc),
    ensures
        only_candidates(scan_dirs(acc, profile, prefs, ds, scan_id, lang, win)),
    decreases ds.len(),
{
    if ds.len() > 0 {
        lemma_dirs_only_candidates(acc, profile, prefs, ds.drop_last(), scan_id, lang, win);
        let a = scan_dirs(acc, profile, prefs, ds.drop_last(), scan_id, lang, win);
        let d = ds.last();
        let pref = prefs_get(prefs, d.id@);
        if !(pref matches Some(p) && is_component_location(p.location)) {
            let sc = sorted_children(d);
            if let Some(e) = spec_extension(profile, d.id@, sc, pref, scan_id, a.counter, lang, win) {
                crate::scan::lemma_extension_records_are_candidates(profile, d.id@, sc, pref, scan_id, a.counter, lang, win);
                let cands = candidate_records(e.versions, sc, e);
                let next = scan_step(a, profile, prefs, d, scan_id, lang, win);
                assert forall|i: int| 0 <= i < next.records.len() implies (#[trigger] next.records[i]).1.reason == "candidate"@ by {
                    if i < a.records.len() {
                        assert(next.records[i] == a.records[i]);
                    } else {
                        assert(next.records[i] == cands[i - a.records.len()]);
                    }
                }
            }
        }
    }
}

/// The snapshot a scan publishes holds only versions the scan offered for
/// deletion (reason `candidate`): a plan can never name an active,
/// newer, unverified, non-standard or mismatched version.
pub proof fn law_snapshot_holds_only_candidates(ps: Seq<ProfileInput>, scan_id: u64, lang: Seq<char>, win: bool)
    ensures
        only_candidates(scan_profiles(ps, scan_id, lang, win)),
    decreases ps.len(),
{
    if ps.len() > 0 {
        law_snapshot_holds_only_candidates(ps.drop_last(), scan_id, lang, win);
        let p = ps.last();
        lemma_dirs_only_candidates(scan_profiles(ps.drop_last(), scan_id, lang, win), p.name@, p.prefs@, profile_dirs(p), scan_id, lang, win);
    }
}

/// Profile labels are display names only: each is the directory name or
/// the profile's `name` entry, never any other field (such as the
/// account e-mail).
pub proof fn law_labels_show_names_only(root: JsonValue)
    ensures
        forall|i: int| 0 <= i < spec_labels(root).len() ==> {
            let (dir, label) = #[trigger] spec_labels(root)[i];
            ||| label == dir
            ||| exists|info: JsonValue| crate::prefs::member_str(info.spec_get("name"@)) == Some(label)
        },
{
    assert forall|i: int| 0 <= i < spec_labels(root).len() implies {
        let (dir, label) = #[trigger] spec_labels(root)[i];
        ||| label == dir
        ||| exists|info: JsonValue| crate::prefs::member_str(info.spec_get("name"@)) == Some(label)
    } by {
        if let Some(JsonValue::Object(e)) = root.spec_get2("profile"@, "info_cache"@) {
            let info = e@[i].1;
            if label_of(e@[i].0@, info) != e@[i].0@ {
                assert(crate::prefs::member_str(info.spec_get("name"@)) == Some(label_of(e@[i].0@, info)));
            }
        }
    }
}

proof fn lemma_child_sizes_prefix(s: Seq<ChildInput>, n: int)
    requires
        0 <= n <= s.len(),
    ensures
        sum_child_sizes(s.take(n)) <= sum_child_sizes(s),
    decreases s.len(),
{
    if n == s.len() {
        assert(s.take(n) =~= s);
    } else {
        lemma_child_sizes_prefix(s.drop_last(), n);
        assert(s.drop_last().take(n) =~= s.take(n));
    }
}

/// Bytes under an extension directory's entries, when they fit a `u64`.
fn children_size(children: &Vec<ChildInput>) -> (r: Option<u64>)
    ensures
        match r {
            Some(n) => n == sum_child_sizes(children@),
            None => sum_child_sizes(children@) > u64::MAX,
        },
{
    let mut total: u64 = 0;
    let mut i: usize = 0;
    assert(children@.take(0) =~= Seq::<ChildInput>::empty());
    while i < children.len()
        invariant
            i <= children@.len(),
            total == sum_child_sizes(children@.take(i as int)),
        decreases children@.len() - i,
    {
        assert(children@.take(i + 1).drop_last() =~= children@.take(i as int));
        match total.checked_add(children[i].size) {
            Some(t) => total = t,
            None => {
                proof {
                    lemma_child_sizes_prefix(children@, i + 1);
                }
                return None;
            },
        }
        i = i + 1;
    }
    assert(children@.take(i as int) =~= children@);
    Some(total)
}

proof fn lemma_ext_dirs_prefix(v: Seq<ExtensionDirInput>, n: int, f: spec_fn(ExtensionDirInput) -> nat)
    requires
        0 <= n <= v.len(),
    ensures
        sum_by(ext_dirs_of(v.take(n)), f) <= sum_by(ext_dirs_of(v), f),
    decreases v.len(),
{
    if n == v.len() {
        assert(v.take(n) =~= v);
    } else {
        lemma_ext_dirs_prefix(v.drop_last(), n, f);
        assert(v.drop_last().take(n) =~= v.take(n));
        if is_ext_dir(v.last()) {
            assert(ext_dirs_of(v).drop_last() =~= ext_dirs_of(v.drop_last()));
        }
    }
}

/// Entries and bytes under the scanned extension directories of a profile,
/// when both fit a `u64`.
fn profile_sums(p: &ProfileInput) -> (r: Option<(u64, u64)>)
    ensures
        match r {
            Some(x) => x.0 == profile_count(*p) && x.1 == profile_size(*p),
            None => profile_count(*p) > u64::MAX || profile_size(*p) > u64::MAX,
        },
{
    let fc = Ghost(|d: ExtensionDirInput| dir_count(d));
    let fs = Ghost(|d: ExtensionDirInput| dir_size(d));
    let v = match &p.extensions {
        Some(v) => v,
        None => {
            assert(profile_dirs(*p) =~= Seq::<ExtensionDirInput>::empty());
            return Some((0, 0));
        },
    };
    proof {
        crate::order::lemma_sort_sum(ext_dirs_of(v@), |a: ExtensionDirInput, b: ExtensionDirInput| id_before(a, b), fc@);
        crate::order::lemma_sort_sum(ext_dirs_of(v@), |a: ExtensionDirInput, b: ExtensionDirInput| id_before(a, b), fs@);
        assert(profile_dirs(*p) == stable_sort(ext_dirs_of(v@), |a: ExtensionDirInput, b: ExtensionDirInput| id_before(a, b)));
    }
    let mut count: u64 = 0;
    let mut size: u64 = 0;
    let mut j: usize = 0;
    assert(v@.take(0) =~= Seq::<ExtensionDirInput>::empty());
    while j < v.len()
        invariant
            j <= v@.len(),
            fc@ == (|d: ExtensionDirInput| dir_count(d)),
            fs@ == (|d: ExtensionDirInput| dir_size(d)),
            count == sum_by(ext_dirs_of(v@.take(j as int)), fc@),
            size == sum_by(ext_dirs_of(v@.take(j as int)), fs@),
            sum_by(ext_dirs_of(v@), fc@) == profile_count(*p),
            sum_by(ext_dirs_of(v@), fs@) == profile_size(*p),
        decreases v@.len() - j,
    {
        let d = &v[j];
        assert(v@.take(j + 1).drop_last() =~= v@.take(j as int));
        assert(v@.take(j + 1).last() == *d);
        let hidden = {
            let cs = chars_of(d.id.as_str());
            cs.len() > 0 && cs[0] == '.'
        };
        if d.is_dir && !hidden {
            let ghost prev = ext_dirs_of(v@.take(j as int));
            assert(ext_dirs_of(v@.take(j + 1)) == prev.push(*d));
            assert(prev.push(*d).drop_last() =~= prev);
            proof {
                lemma_ext_dirs_prefix(v@, j + 1, fc@);
                lemma_ext_dirs_prefix(v@, j + 1, fs@);
            }
            let n = d.children.len() as u64;
            let c = match count.checked_add(n) {
                Some(c) => c,
                None => return None,
            };
            let bytes = match children_size(&d.children) {
                Some(b) => b,
                None => {
                    assert(fs@(*d) == sum_child_sizes(d.children@));
                    return None;
                },
            };
            let sz = match size.checked_add(bytes) {
                Some(t) => t,
                None => return None,
            };
            count = c;
            size = sz;
        }
        j = j + 1;
    }
    assert(v@.take(j as int) =~= v@);
    Some((count, size))
}

/// Whether the counters of a scan over `input` fit `u64` (`scan_fits`):
/// the check a caller makes before `scan_root`.
pub fn scan_fits_counters(input: &ScanInput) -> (r: bool)
    ensures
        r == scan_fits(*input),
{
    let ghost ps = input.profiles@;
    let ghost pc = |p: ProfileInput| profile_count(p);
    let ghost pz = |p: ProfileInput| profile_size(p);
    let mut count: u64 = 0;
    let mut size: u64 = 0;
    let mut i: usize = 0;
    assert(ps.take(0) =~= Seq::<ProfileInput>::empty());
    while i < input.profiles.len()
        invariant
            i <= ps.len(),
            ps == input.profiles@,
            pc == (|p: ProfileInput| profile_count(p)),
            pz == (|p: ProfileInput| profile_size(p)),
            count == sum_by(ps.take(i as int), pc),
            size == sum_by(ps.take(i as int), pz),
        decreases ps.len() - i,
    {
        proof {
            crate::order::lemma_sum_by_take(ps, i as int, pc);
            crate::order::lemma_sum_by_take(ps, i as int, pz);
        }
        let (c, z) = match profile_sums(&input.profiles[i]) {
            Some(x) => x,
            None => return false,
        };
        count = match count.checked_add(c) {
            Some(t) => t,
            None => return false,
        };
        size = match size.checked_add(z) {
            Some(t) => t,
            None => return false,
        };
        i = i + 1;
    }
    assert(ps.take(i as int) =~= ps);
    true
}

proof fn lemma_insert_by_waste(sorted: Seq<ExtensionView>, x: ExtensionView)
    requires
        forall|i: int, j: int| 0 <= i < j < sorted.len() ==> (#[trigger] sorted[i]).waste_bytes >= (#[trigger] sorted[j]).waste_bytes,
    ensures
        ({
            let r = insert_stable(sorted, x, |a: ExtensionView, b: ExtensionView| more_waste(a, b));
            forall|i: int, j: int| 0 <= i < j < r.len() ==> (#[trigger] r[i]).waste_bytes >= (#[trigger] r[j]).waste_bytes
        }),
{
    let gb = |a: ExtensionView, b: ExtensionView| more_waste(a, b);
    crate::order::lemma_insert_pos(sorted, x, gb);
    let p = crate::order::insert_pos(sorted, x, gb);
    let r = insert_stable(sorted, x, gb);
    assert forall|i: int, j: int| 0 <= i < j < r.len() implies (#[trigger] r[i]).waste_bytes >= (#[trigger] r[j]).waste_bytes by {
        if j < p {
            assert(r[i] == sorted[i] && r[j] == sorted[j]);
        } else if j == p {
            assert(r[i] == sorted[i]);
            assert(!gb(x, sorted[i]));
        } else if i == p {
            assert(r[j] == sorted[j - 1]);
            assert(gb(x, sorted[p]));
            if j - 1 > p {
                assert(sorted[p].waste_bytes >= sorted[j - 1].waste_bytes);
            }
        } else if i < p {
            assert(r[i] == sorted[i] && r[j] == sorted[j - 1]);
        } else {
            assert(r[i] == sorted[i - 1] && r[j] == sorted[j - 1]);
        }
    }
}

proof fn lemma_sorted_by_waste(v: Seq<ExtensionView>)
    ensures
        ({
            let r = stable_sort(v, |a: ExtensionView, b: ExtensionView| more_waste(a, b));
            forall|i: int, j: int| 0 <= i < j < r.len() ==> (#[trigger] r[i]).waste_bytes >= (#[trigger] r[j]).waste_bytes
        }),
    decreases v.len(),
{
    if v.len() > 0 {
        lemma_sorted_by_waste(v.drop_last());
        lemma_insert_by_waste(stable_sort(v.drop_last(), |a: ExtensionView, b: ExtensionView| more_waste(a, b)), v.last());
    }
}

proof fn lemma_dirs_totals(acc: ScanAcc, profile: Seq<char>, prefs: Seq<(String, PrefsEntry)>, ds: Seq<ExtensionDirInput>, scan_id: u64, lang: Seq<char>, win: bool)
    requires
        acc.total == sum_by(acc.exts, |e: ExtensionView| e.total_bytes as nat),
        acc.waste == sum_by(acc.exts, |e: ExtensionView| e.waste_bytes as nat),
    ensures
        ({
            let a = scan_dirs(acc, profile, prefs, ds, scan_id, lang, win);
            &&& a.total == sum_by(a.exts, |e: ExtensionView| e.total_bytes as nat)
            &&& a.waste == sum_by(a.exts, |e: ExtensionView| e.waste_bytes as nat)
        }),
    decreases ds.len(),
{
    if ds.len() > 0 {
        lemma_dirs_totals(acc, profile, prefs, ds.drop_last(), scan_id, lang, win);
        let a = scan_dirs(acc, profile, prefs, ds.drop_last(), scan_id, lang, win);
        let n = scan_step(a, profile, prefs, ds.last(), scan_id, lang, win);
        if n.exts.len() > a.exts.len() {
            assert(n.exts.drop_last() =~= a.exts);
        }
    }
}

proof fn lemma_profiles_totals(ps: Seq<ProfileInput>, scan_id: u64, lang: Seq<char>, win: bool)
    ensures
        ({
            let a = scan_profiles(ps, scan_id, lang, win);
            &&& a.total == sum_by(a.exts, |e: ExtensionView| e.total_bytes as nat)
            &&& a.waste == sum_by(a.exts, |e: ExtensionView| e.waste_bytes as nat)
        }),
    decreases ps.len(),
{
    if ps.len() > 0 {
        lemma_profiles_totals(ps.drop_last(), scan_id, lang, win);
        let p = ps.last();
        lemma_dirs_totals(scan_profiles(ps.drop_last(), scan_id, lang, win), p.name@, p.prefs@, profile_dirs(p), scan_id, lang, win);
    }
}

/// The extensions a scan reports come with the most reclaimable bytes
/// first, and the scan's total and wasted bytes are the sums of the
/// extensions' own totals.
pub proof fn law_scan_totals_and_order(ps: Seq<ProfileInput>, scan_id: u64, lang: Seq<char>, win: bool)
    ensures
        ({
            let a = scan_profiles(ps, scan_id, lang, win);
            let listed = stable_sort(a.exts, |x: ExtensionView, y: ExtensionView| more_waste(x, y));
            &&& a.total == sum_by(listed, |e: ExtensionView| e.total_bytes as nat)
            &&& a.waste == sum_by(listed, |e: ExtensionView| e.waste_bytes as nat)
            &&& forall|i: int, j: int| 0 <= i < j < listed.len()
                ==> (#[trigger] listed[i]).waste_bytes >= (#[trigger] listed[j]).waste_bytes
        }),
{
    let a = scan_profiles(ps, scan_id, lang, win);
    let gb = |x: ExtensionView, y: ExtensionView| more_waste(x, y);
    lemma_profiles_totals(ps, scan_id, lang, win);
    crate::order::lemma_sort_sum(a.exts, gb, |e: ExtensionView| e.total_bytes as nat);
    crate::order::lemma_sort_sum(a.exts, gb, |e: ExtensionView| e.waste_bytes as nat);
    lemma_sorted_by_waste(a.exts);
}

/// Some listed extension offers candidate id `cid` for deletion.
pub open spec fn offered(exts: Seq<ExtensionView>, cid: Seq<char>) -> bool {
    exists|x: int| 0 <= x < exts.len() && crate::scan::offers((#[trigger] exts[x]).versions, cid)
}

proof fn lemma_dirs_bind(acc: ScanAcc, profile: Seq<char>, prefs: Seq<(String, PrefsEntry)>, ds: Seq<ExtensionDirInput>, scan_id: u64, lang: Seq<char>, win: bool)
    requires
        forall|cid: Seq<char>| crate::scan::binds(acc.records, cid) <==> offered(acc.exts, cid),
    ensures
        ({
            let a = scan_dirs(acc, profile, prefs, ds, scan_id, lang, win);
            forall|cid: Seq<char>| crate::scan::binds(a.records, cid) <==> offered(a.exts, cid)
        }),
    decreases ds.len(),
{
    if ds.len() > 0 {
        lemma_dirs_bind(acc, profile, prefs, ds.drop_last(), scan_id, lang, win);
        let a = scan_dirs(acc, profile, prefs, ds.drop_last(), scan_id, lang, win);
        let d = ds.last();
        let pref = prefs_get(prefs, d.id@);
        if !(pref matches Some(p) && is_component_location(p.location)) {
            let sc = sorted_children(d);
            if let Some(e) = spec_extension(profile, d.id@, sc, pref, scan_id, a.counter, lang, win) {
                let cands = candidate_records(e.versions, sc, e);
                let n = scan_step(a, profile, prefs, d, scan_id, lang, win);
                crate::scan::lemma_records_bind_offers(e.versions, sc, e);
                assert(n.records == a.records + cands);
                assert(n.exts == a.exts.push(e));
                assert forall|cid: Seq<char>| crate::scan::binds(n.records, cid) <==> offered(n.exts, cid) by {
                    if crate::scan::binds(n.records, cid) {
                        let i = choose|i: int| 0 <= i < n.records.len() && (#[trigger] n.records[i]).0 == cid;
                        if i < a.records.len() {
                            assert(n.records[i] == a.records[i]);
                            assert(crate::scan::binds(a.records, cid));
                            let x = choose|x: int| 0 <= x < a.exts.len() && crate::scan::offers((#[trigger] a.exts[x]).versions, cid);
                            assert(n.exts[x] == a.exts[x]);
                        } else {
                            assert(n.records[i] == cands[i - a.records.len()]);
                            assert(crate::scan::binds(cands, cid));
                            assert(n.exts[a.exts.len() as int] == e);
                        }
                    }
                    if offered(n.exts, cid) {
                        let x = choose|x: int| 0 <= x < n.exts.len() && crate::scan::offers((#[trigger] n.exts[x]).versions, cid);
                        if x < a.exts.len() {
                            assert(n.exts[x] == a.exts[x]);
                            assert(offered(a.exts, cid));
                            let i = choose|i: int| 0 <= i < a.records.len() && (#[trigger] a.records[i]).0 == cid;
                            assert(n.records[i] == a.records[i]);
                        } else {
                            assert(crate::scan::binds(cands, cid));
                            let i = choose|i: int| 0 <= i < cands.len() && (#[trigger] cands[i]).0 == cid;
                            assert(n.records[a.records.len() + i] == cands[i]);
                        }
                    }
                }
            }
        }
    }
}

proof fn lemma_profiles_bind(ps: Seq<ProfileInput>, scan_id: u64, lang: Seq<char>, win: bool)
    ensures
        ({
            let a = scan_profiles(ps, scan_id, lang, win);
            forall|cid: Seq<char>| crate::scan::binds(a.records, cid) <==> offered(a.exts, cid)
        }),
    decreases ps.len(),
{
    if ps.len() > 0 {
        lemma_profiles_bind(ps.drop_last(), scan_id, lang, win);
        let p = ps.last();
        lemma_dirs_bind(scan_profiles(ps.drop_last(), scan_id, lang, win), p.name@, p.prefs@, profile_dirs(p), scan_id, lang, win);
    }
}

/// The snapshot a scan publishes binds exactly the candidate ids that the
/// listed extensions offer for deletion: every record is an offered row,
/// and every offered row has its record.
pub proof fn law_snapshot_binds_exactly_offered_ids(ps: Seq<ProfileInput>, scan_id: u64, lang: Seq<char>, win: bool)
    ensures
        ({
            let a = scan_profiles(ps, scan_id, lang, win);
            let listed = stable_sort(a.exts, |x: ExtensionView, y: ExtensionView| more_waste(x, y));
            forall|cid: Seq<char>| crate::scan::binds(a.records, cid) <==> offered(listed, cid)
        }),
{
    let a = scan_profiles(ps, scan_id, lang, win);
    let gb = |x: ExtensionView, y: ExtensionView| more_waste(x, y);
    let listed = stable_sort(a.exts, gb);
    lemma_profiles_bind(ps, scan_id, lang, win);
    crate::order::lemma_sort_permutes(a.exts, gb);
    assert forall|cid: Seq<char>| offered(a.exts, cid) <==> offered(listed, cid) by {
        if offered(a.exts, cid) {
            let x = choose|x: int| 0 <= x < a.exts.len() && crate::scan::offers((#[trigger] a.exts[x]).versions, cid);
            assert(listed.contains(a.exts[x]));
            let y = choose|y: int| 0 <= y < listed.len() && listed[y] == a.exts[x];
            assert(crate::scan::offers(listed[y].versions, cid));
        }
        if offered(listed, cid) {
            let y = choose|y: int| 0 <= y < listed.len() && crate::scan::offers((#[trigger] listed[y]).versions, cid);
            assert(a.exts.contains(listed[y]));
            let x = choose|x: int| 0 <= x < a.exts.len() && a.exts[x] == listed[y];
            assert(crate::scan::offers(a.exts[x].versions, cid));
        }
    }
}

/// Some entry of `entries` is called `name` and holds an `Extensions` folder.
pub open spec fn holds_extensions(entries: Seq<(String, bool)>, name: String) -> bool {
    exists|k: int| 0 <= k < entries.len() && (#[trigger] entries[k]).1 && entries[k].0 == name
}

proof fn lemma_with_extensions(e: Seq<(String, bool)>)
    ensures
        forall|n: String| #[trigger] with_extensions(e).contains(n) <==> holds_extensions(e, n),
        (forall|a: int, b: int| 0 <= a < b < e.len() ==> (#[trigger] e[a]).0@ != (#[trigger] e[b]).0@)
            ==> crate::order::keys_distinct(with_extensions(e), |x: String| x@),
    decreases e.len(),
{
    if e.len() > 0 {
        let t = e.drop_last();
        let n = e.len() - 1;
        lemma_with_extensions(t);
        let wt = with_extensions(t);
        let w = with_extensions(e);
        assert(e[n] == e.last());
        assert forall|x: String| #[trigger] w.contains(x) <==> holds_extensions(e, x) by {
            if holds_extensions(t, x) {
                let k = choose|k: int| 0 <= k < t.len() && (#[trigger] t[k]).1 && t[k].0 == x;
                assert(e[k] == t[k]);
            }
            if holds_extensions(e, x) {
                let k = choose|k: int| 0 <= k < e.len() && (#[trigger] e[k]).1 && e[k].0 == x;
                if k < n {
                    assert(t[k] == e[k]);
                    assert(holds_extensions(t, x));
                    assert(wt.contains(x));
                    let i = choose|i: int| 0 <= i < wt.len() && wt[i] == x;
                    if e.last().1 {
                        assert(w[i] == wt[i]);
                    }
                } else {
                    assert(w[w.len() - 1] == x);
                }
            }
            if w.contains(x) {
                let i = choose|i: int| 0 <= i < w.len() && w[i] == x;
                if e.last().1 && i == w.len() - 1 {
                    assert(e[n].1 && e[n].0 == x);
                } else {
                    assert(w[i] == wt[i]);
                    assert(wt.contains(x));
                    let k = choose|k: int| 0 <= k < t.len() && (#[trigger] t[k]).1 && t[k].0 == x;
                    assert(e[k] == t[k]);
                }
            }
        }
        if forall|a: int, b: int| 0 <= a < b < e.len() ==> (#[trigger] e[a]).0@ != (#[trigger] e[b]).0@ {
            assert forall|a: int, b: int| 0 <= a < b < t.len() implies (#[trigger] t[a]).0@ != (#[trigger] t[b]).0@ by {
                assert(t[a] == e[a] && t[b] == e[b]);
            }
            if e.last().1 {
                assert forall|i: int| 0 <= i < wt.len() implies (#[trigger] wt[i])@ != e.last().0@ by {
                    assert(wt.contains(wt[i]));
                    let k = choose|k: int| 0 <= k < t.len() && (#[trigger] t[k]).1 && t[k].0 == wt[i];
                    assert(e[k] == t[k]);
                }
                assert forall|i: int, j: int| 0 <= i < w.len() && 0 <= j < w.len() && i != j
                    implies (#[trigger] w[i])@ != (#[trigger] w[j])@ by {
                    if i < wt.len() && j < wt.len() {
                        assert(w[i] == wt[i] && w[j] == wt[j]);
                    } else if i < wt.len() {
                        assert(w[i] == wt[i]);
                    } else {
                        assert(w[j] == wt[j]);
                    }
                }
            }
        }
    }
}

/// The profile list runs `Default` first, then by name: no profile comes
/// after one that sorts before it. It holds exactly the entries that have
/// an `Extensions` folder, and, as directory names are distinct, none
/// twice.
pub proof fn law_profiles_ordered(entries: Seq<(String, bool)>)
    ensures
        ({
            let r = stable_sort(with_extensions(entries), |a: String, b: String| profile_before(a@, b@));
            &&& forall|i: int, j: int| 0 <= i < j < r.len() ==> !profile_before(#[trigger] r[j]@, #[trigger] r[i]@)
            &&& forall|n: String| #[trigger] r.contains(n) <==> holds_extensions(entries, n)
            &&& (forall|a: int, b: int| 0 <= a < b < entries.len() ==> (#[trigger] entries[a]).0@ != (#[trigger] entries[b]).0@)
                ==> forall|i: int, j: int| 0 <= i < r.len() && 0 <= j < r.len() && i != j ==> (#[trigger] r[i])@ != (#[trigger] r[j])@
        }),
{
    let gb = |a: String, b: String| profile_before(a@, b@);
    let w = with_extensions(entries);
    let r = stable_sort(w, gb);
    lemma_with_extensions(entries);
    assert forall|a: String, b: String| #[trigger] gb(a, b) implies !gb(b, a) by {
        crate::order::lemma_seq_lt_asymmetric(a@, b@);
    }
    assert forall|a: String, b: String, c: String| #[trigger] gb(a, b) && #[trigger] gb(b, c) implies gb(a, c) by {
        if seq_lt(a@, b@) && seq_lt(b@, c@) {
            crate::order::lemma_seq_lt_transitive(a@, b@, c@);
        }
    }
    crate::order::lemma_sort_sorted(w, gb);
    crate::order::lemma_sort_permutes(w, gb);
    assert forall|n: String| #[trigger] r.contains(n) <==> holds_extensions(entries, n) by {
        if r.contains(n) {
            let i = choose|i: int| 0 <= i < r.len() && r[i] == n;
            assert(w.contains(r[i]));
        }
        if w.contains(n) {
            let j = choose|j: int| 0 <= j < w.len() && w[j] == n;
            assert(r.contains(w[j]));
        }
    }
    if forall|a: int, b: int| 0 <= a < b < entries.len() ==> (#[trigger] entries[a]).0@ != (#[trigger] entries[b]).0@ {
        crate::order::lemma_sort_keys_distinct(w, gb, |x: String| x@);
    }
}

} // verus!
