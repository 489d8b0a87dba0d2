//! Extension inventory scan with three-state classification.
//!
//! Protection model (fail closed):
//!
//! ```text
//! protected = active version
//!           ∪ newer-than-active version dirs (possibly staged by Chrome)
//!           ∪ unknown layouts / unverified extensions
//!           ∪ non-standard installations
//! ```
//!
//! Only directories strictly older than the active version, from a verified
//! standard Web Store install whose own manifest agrees with its directory
//! name, become deletion candidates.

use vstd::prelude::*;
use crate::json::{doc_or_null, opt_view, read_manifest, JsonValue};
use crate::locale::{spec_display_name, spec_locale_chain, resolve_display_name, locale_chain, strings_view};
use crate::order::{insert_stable, seq_lt, sort_stable, stable_sort, str_less};
use crate::prefs::{member_str, PrefsEntry, InstallSource};
use crate::state::{pairs_view, ostr, CandidateRecord, RecordView, Snapshot, snapshot_view};
use crate::text::{chars_of, dec_digits, push_decimal, string_of, str_eq};
use crate::version::{rfind_char, spec_parse, spec_split_dir_name, split_dir_name, ChromeVersion};

verus! {

/// Path separators: `/` when `slash`, `\` when `back`.
pub open spec fn is_sep(c: char, slash: bool, back: bool) -> bool {
    (slash && c == '/') || (back && c == '\\')
}

/// The pieces of `s` between separators.
pub open spec fn path_tokens(s: Seq<char>, slash: bool, back: bool) -> Seq<Seq<char>>
    decreases s.len(),
{
    if s.len() == 0 {
        seq![Seq::<char>::empty()]
    } else {
        let prev = path_tokens(s.drop_last(), slash, back);
        if is_sep(s.last(), slash, back) {
            prev.push(Seq::<char>::empty())
        } else {
            prev.update(prev.len() - 1, prev.last().push(s.last()))
        }
    }
}

/// Path components: the non-empty pieces other than `.`.
pub open spec fn path_components(t: Seq<Seq<char>>) -> Seq<Seq<char>>
    decreases t.len(),
{
    if t.len() == 0 {
        Seq::<Seq<char>>::empty()
    } else {
        let prev = path_components(t.drop_last());
        if t.last().len() == 0 || t.last() == seq!['.'] {
            prev
        } else {
            prev.push(t.last())
        }
    }
}

/// The last component of a path without prefix, unless there is none or
/// it is `..`.
pub open spec fn last_name(q: Seq<char>, slash: bool, back: bool) -> Option<Seq<char>> {
    let c = path_components(path_tokens(q, slash, back));
    if c.len() == 0 || c.last() == seq!['.', '.'] {
        None
    } else {
        Some(c.last())
    }
}

/// First position at or after `from` that holds a separator, else the end.
pub open spec fn sep_from(p: Seq<char>, from: int, slash: bool, back: bool) -> int
    decreases p.len() - from,
{
    if from < 0 || from >= p.len() {
        p.len() as int
    } else if is_sep(p[from], slash, back) {
        from
    } else {
        sep_from(p, from + 1, slash, back)
    }
}

/// An ASCII letter.
pub open spec fn is_ascii_letter(c: char) -> bool {
    ('a' <= c && c <= 'z') || ('A' <= c && c <= 'Z')
}

/// The Windows path prefix at the start of `p` (`std::path::Prefix`): its
/// length, and whether it is verbatim (`\\?\`, after which only `\`
/// separates).
/// - `\\?\UNC\server\share`, `\\?\C:` and `\\?\name` are verbatim;
/// - `\\.\name` is a device name;
/// - `\\server\share` is a UNC prefix when both parts are non-empty;
/// - `C:` is a drive.
pub open spec fn win_prefix(p: Seq<char>) -> (int, bool) {
    let n = p.len() as int;
    if n >= 2 && p[0] == '\\' && p[1] == '\\' {
        if n >= 4 && p[2] == '?' && p[3] == '\\' {
            if n >= 8 && p[4] == 'U' && p[5] == 'N' && p[6] == 'C' && p[7] == '\\' {
                let s1 = sep_from(p, 8, false, true);
                (if s1 < n { sep_from(p, s1 + 1, false, true) } else { n }, true)
            } else if n >= 6 && is_ascii_letter(p[4]) && p[5] == ':' && (n == 6 || p[6] == '\\') {
                (6, true)
            } else {
                (sep_from(p, 4, false, true), true)
            }
        } else if n >= 4 && p[2] == '.' && is_sep(p[3], true, true) {
            (sep_from(p, 4, true, true), false)
        } else {
            let s1 = sep_from(p, 2, true, true);
            if s1 > 2 && s1 < n && sep_from(p, s1 + 1, true, true) > s1 + 1 {
                (sep_from(p, s1 + 1, true, true), false)
            } else {
                (0, false)
            }
        }
    } else if n >= 2 && is_ascii_letter(p[0]) && p[1] == ':' {
        (2, false)
    } else {
        (0, false)
    }
}

/// `Path::file_name` on this platform (`win`: Windows): the last component
/// after any prefix, unless there is none or it is `..`. On Windows `\`
/// separates too (only `\` after a verbatim prefix); elsewhere only `/`.
pub open spec fn path_file_name(p: Seq<char>, win: bool) -> Option<Seq<char>> {
    if win {
        let (k, verbatim) = win_prefix(p);
        last_name(p.subrange(k, p.len() as int), !verbatim, true)
    } else {
        last_name(p, true, false)
    }
}

proof fn lemma_tokens_step(p: Seq<char>, c: char, slash: bool, back: bool)
    ensures
        path_tokens(p.push(c), slash, back) == (if is_sep(c, slash, back) {
            path_tokens(p, slash, back).push(Seq::<char>::empty())
        } else {
            let prev = path_tokens(p, slash, back);
            prev.update(prev.len() - 1, prev.last().push(c))
        }),
{
    assert(p.push(c).drop_last() =~= p);
}

fn sep_char(c: char, slash: bool, back: bool) -> (r: bool)
    ensures
        r == is_sep(c, slash, back),
{
    (slash && c == '/') || (back && c == '\\')
}

fn next_sep(cs: &Vec<char>, from: usize, slash: bool, back: bool) -> (r: usize)
    requires
        from <= cs@.len(),
    ensures
        r as int == sep_from(cs@, from as int, slash, back),
        from <= r <= cs@.len(),
{
    let mut i = from;
    while i < cs.len() && !sep_char(cs[i], slash, back)
        invariant
            from <= i <= cs@.len(),
            sep_from(cs@, from as int, slash, back) == sep_from(cs@, i as int, slash, back),
        decreases cs@.len() - i,
    {
        i = i + 1;
    }
    i
}

fn ascii_letter(c: char) -> (r: bool)
    ensures
        r == is_ascii_letter(c),
{
    ('a' <= c && c <= 'z') || ('A' <= c && c <= 'Z')
}

/// The Windows path prefix of `cs` (see `win_prefix`).
fn prefix_of(cs: &Vec<char>) -> (r: (usize, bool))
    ensures
        r.0 as int == win_prefix(cs@).0,
        r.1 == win_prefix(cs@).1,
        r.0 <= cs@.len(),
{
    let n = cs.len();
    if n >= 2 && cs[0] == '\\' && cs[1] == '\\' {
        if n >= 4 && cs[2] == '?' && cs[3] == '\\' {
            if n >= 8 && cs[4] == 'U' && cs[5] == 'N' && cs[6] == 'C' && cs[7] == '\\' {
                let s1 = next_sep(cs, 8, false, true);
                if s1 < n {
                    (next_sep(cs, s1 + 1, false, true), true)
                } else {
                    (n, true)
                }
            } else if n >= 6 && ascii_letter(cs[4]) && cs[5] == ':' && (n == 6 || cs[6] == '\\') {
                (6, true)
            } else {
                (next_sep(cs, 4, false, true), true)
            }
        } else if n >= 4 && cs[2] == '.' && sep_char(cs[3], true, true) {
            (next_sep(cs, 4, true, true), false)
        } else {
            let s1 = next_sep(cs, 2, true, true);
            if s1 > 2 && s1 < n {
                let s2 = next_sep(cs, s1 + 1, true, true);
                if s2 > s1 + 1 {
                    (s2, false)
                } else {
                    (0, false)
                }
            } else {
                (0, false)
            }
        }
    } else if n >= 2 && ascii_letter(cs[0]) && cs[1] == ':' {
        (2, false)
    } else {
        (0, false)
    }
}

/// Last component of `cs[from..]`, a path without prefix (see `last_name`).
fn last_name_of(cs: &Vec<char>, from: usize, slash: bool, back: bool) -> (r: Option<String>)
    requires
        from <= cs@.len(),
    ensures
        match r {
            Some(n) => last_name(cs@.subrange(from as int, cs@.len() as int), slash, back) == Some(n@),
            None => last_name(cs@.subrange(from as int, cs@.len() as int), slash, back) is None,
        },
{
    // Completed components so far, and the token being read.
    let mut comps: Vec<Vec<char>> = Vec::new();
    let mut cur: Vec<char> = Vec::new();
    let mut i: usize = from;
    assert(cs@.subrange(from as int, from as int) =~= Seq::<char>::empty());
    while i < cs.len()
        invariant
            from <= i <= cs@.len(),
            ({
                let toks = path_tokens(cs@.subrange(from as int, i as int), slash, back);
                &&& toks.len() >= 1
                &&& cur@ == toks.last()
                &&& Seq::new(comps@.len(), |k: int| comps@[k]@) == path_components(toks.drop_last())
            }),
        decreases cs@.len() - i,
    {
        let c = cs[i];
        let ghost pre = cs@.subrange(from as int, i as int);
        let ghost toks = path_tokens(pre, slash, back);
        proof {
            assert(cs@.subrange(from as int, i + 1) =~= pre.push(c));
            lemma_tokens_step(pre, c, slash, back);
        }
        if sep_char(c, slash, back) {
            let ghost before = Seq::new(comps@.len(), |k: int| comps@[k]@);
            let dot = cur.len() == 1 && cur[0] == '.';
            if cur.len() > 0 && !dot {
                let done = cur;
                comps.push(done);
                cur = Vec::new();
                proof {
                    assert(Seq::new(comps@.len(), |k: int| comps@[k]@) =~= before.push(toks.last()));
                }
            } else {
                cur = Vec::new();
                proof {
                    if dot {
                        assert(toks.last() =~= seq!['.']);
                    }
                    assert(Seq::new(comps@.len(), |k: int| comps@[k]@) =~= before);
                }
            }
            proof {
                let nt = path_tokens(cs@.subrange(from as int, i + 1), slash, back);
                assert(nt.drop_last() =~= toks);
                assert(cur@ =~= nt.last());
                assert(toks.drop_last().push(toks.last()) =~= toks);
                if !(toks.last().len() == 0 || toks.last() == seq!['.']) {
                    assert(path_components(toks) == path_components(toks.drop_last()).push(toks.last()));
                } else {
                    assert(path_components(toks) == path_components(toks.drop_last()));
                }
            }
        } else {
            cur.push(c);
            proof {
                let nt = path_tokens(cs@.subrange(from as int, i + 1), slash, back);
                assert(nt.drop_last() =~= toks.drop_last());
                assert(cur@ =~= nt.last());
            }
        }
        i = i + 1;
    }
    let ghost q = cs@.subrange(from as int, cs@.len() as int);
    let ghost toks = path_tokens(q, slash, back);
    let last_is_comp = !(cur.len() == 0 || (cur.len() == 1 && cur[0] == '.'));
    proof {
        assert(toks.drop_last().push(toks.last()) =~= toks);
        if cur.len() == 1 && cur[0] == '.' {
            assert(cur@ =~= seq!['.']);
        }
        if last_is_comp {
            assert(toks.last() != seq!['.']) by {
                if toks.last() == seq!['.'] {
                    assert(cur@.len() == 1 && cur@[0] == '.');
                }
            }
        }
    }
    let last: &Vec<char> = if last_is_comp {
        &cur
    } else {
        if comps.len() == 0 {
            return None;
        }
        &comps[comps.len() - 1]
    };
    let ghost cv = path_components(toks);
    assert(last@ == cv.last());
    let dotdot = last.len() == 2 && last[0] == '.' && last[1] == '.';
    if dotdot {
        assert(last@ =~= seq!['.', '.']);
        return None;
    }
    assert(last@ != seq!['.', '.']) by {
        if last@ == seq!['.', '.'] {
            assert(last@[0] == '.' && last@[1] == '.');
        }
    }
    Some(string_of(last, 0, last.len()))
}

/// Last component of a recorded path, as `Path::file_name` gives it on
/// this platform (`win`: Windows, with its prefixes and `\` separators).
pub fn file_name_of(p: &str, win: bool) -> (r: Option<String>)
    ensures
        match r {
            Some(n) => path_file_name(p@, win) == Some(n@),
            None => path_file_name(p@, win) is None,
        },
{
    let cs = chars_of(p);
    if win {
        let (k, verbatim) = prefix_of(&cs);
        last_name_of(&cs, k, !verbatim, true)
    } else {
        assert(cs@.subrange(0, cs@.len() as int) =~= p@);
        last_name_of(&cs, 0, true, false)
    }
}

/// One entry of an extension directory, as read during a scan.
pub struct ChildInput {
    pub name: String,
    pub is_dir: bool,
    /// Bytes under the entry, symlinks not followed.
    pub size: u64,
    /// Full path of the entry.
    pub path: String,
    /// The text of the entry's extension manifest; `None` when it could not
    /// be read.
    pub manifest: Option<String>,
    /// The entry's locale catalogs: for each locale looked up, the text of
    /// its `_locales/<locale>/messages.json`, `None` when it could not be read.
    pub catalogs: Vec<(String, Option<String>)>,
}

/// One on-disk version directory, as seen by the frontend.
#[derive(Debug, Clone)]
pub struct VersionInfo {
    /// Opaque per-scan id. Never an absolute path.
    pub cid: String,
    pub dir: String,
    pub version: String,
    /// Size in bytes.
    pub size: u64,
    pub is_active: bool,
    pub unknown: bool,
    /// Whether the UI may offer this version for deletion.
    pub deletable: bool,
    /// Machine-readable reason: `active`, `candidate`, `protected:<why>`.
    pub reason: String,
}

pub struct VersionView {
    pub cid: Seq<char>,
    pub dir: Seq<char>,
    pub version: Seq<char>,
    pub size: u64,
    pub is_active: bool,
    pub unknown: bool,
    pub deletable: bool,
    pub reason: Seq<char>,
}

impl View for VersionInfo {
    type V = VersionView;

    open spec fn view(&self) -> VersionView {
        VersionView {
            cid: self.cid@,
            dir: self.dir@,
            version: self.version@,
            size: self.size,
            is_active: self.is_active,
            unknown: self.unknown,
            deletable: self.deletable,
            reason: self.reason@,
        }
    }
}

pub open spec fn versions_view(v: Seq<VersionInfo>) -> Seq<VersionView> {
    Seq::new(v.len(), |i: int| v[i]@)
}

/// A version directory: a directory named `<version>_<n>`.
pub open spec fn is_known(c: ChildInput) -> bool {
    c.is_dir && spec_split_dir_name(c.name@) is Some
}

/// A directory of unknown layout (not `<version>_<n>`, not hidden).
pub open spec fn is_unknown(c: ChildInput) -> bool {
    c.is_dir && spec_split_dir_name(c.name@) is None && !(c.name@.len() > 0 && c.name@[0] == '.')
}

/// Positions of the version directories, in order.
pub open spec fn known_idx(s: Seq<ChildInput>) -> Seq<int>
    decreases s.len(),
{
    if s.len() == 0 {
        Seq::<int>::empty()
    } else if is_known(s.last()) {
        known_idx(s.drop_last()).push(s.len() - 1)
    } else {
        known_idx(s.drop_last())
    }
}

/// Positions of the unknown-layout directories, in order.
pub open spec fn unknown_idx(s: Seq<ChildInput>) -> Seq<int>
    decreases s.len(),
{
    if s.len() == 0 {
        Seq::<int>::empty()
    } else if is_unknown(s.last()) {
        unknown_idx(s.drop_last()).push(s.len() - 1)
    } else {
        unknown_idx(s.drop_last())
    }
}

/// Version a version directory's name carries.
pub open spec fn child_version(c: ChildInput) -> ChromeVersion {
    spec_split_dir_name(c.name@).unwrap().0
}

/// First version directory (position in `k`) whose version is `av`.
pub open spec fn first_match(s: Seq<ChildInput>, k: Seq<int>, av: Option<ChromeVersion>, from: int) -> Option<int>
    decreases k.len() - from,
{
    if from < 0 || from >= k.len() {
        None
    } else if Some(child_version(s[k[from]])) == av {
        Some(from)
    } else {
        first_match(s, k, av, from + 1)
    }
}

/// Newest version directory among `k[..n]`; the last of equal versions
/// wins, as `Iterator::max_by` picks it.
pub open spec fn last_max(s: Seq<ChildInput>, k: Seq<int>, n: int) -> Option<int>
    decreases n,
{
    if n <= 0 {
        None
    } else {
        match last_max(s, k, n - 1) {
            None => Some(n - 1),
            Some(m) => if child_version(s[k[m]]).older(child_version(s[k[n - 1]])) || child_version(
                s[k[m]],
            ) == child_version(s[k[n - 1]]) {
                Some(n - 1)
            } else {
                Some(m)
            },
        }
    }
}

/// The active version directory (position in `k`) and whether it was a
/// fallback: the directory of Chrome's recorded version, else the newest.
pub open spec fn active_choice(s: Seq<ChildInput>, k: Seq<int>, av: Option<ChromeVersion>) -> Option<(int, bool)> {
    match first_match(s, k, av, 0) {
        Some(i) => Some((i, false)),
        None => match last_max(s, k, k.len() as int) {
            Some(m) => Some((m, true)),
            None => None,
        },
    }
}

/// The version a manifest declares, parsed strictly.
pub open spec fn manifest_version_of(m: JsonValue) -> Option<ChromeVersion> {
    match member_str(m.spec_get("version"@)) {
        Some(v) => spec_parse(v),
        None => None,
    }
}

/// Chrome's recorded active version, parsed strictly.
pub open spec fn pref_active(pref: Option<PrefsEntry>) -> Option<ChromeVersion> {
    match pref {
        Some(p) => match opt_view(p.version) {
            Some(v) => spec_parse(v),
            None => None,
        },
        None => None,
    }
}

/// The extension is verified: the active directory was found from
/// Chrome's record (not a fallback), its own manifest declares that
/// version, and Chrome's recorded path (when present) names the same
/// directory.
pub open spec fn is_verified(active: ChildInput, fallback: bool, pref: Option<PrefsEntry>, win: bool) -> bool {
    let path_agrees = match pref {
        Some(p) => match opt_view(p.disk_path) {
            Some(dp) => path_file_name(dp, win) == Some(active.name@),
            None => true,
        },
        None => true,
    };
    &&& manifest_version_of(doc_or_null(active.manifest)) == pref_active(pref)
    &&& !fallback
    &&& path_agrees
}

/// A standard Web Store install.
pub open spec fn is_standard(pref: Option<PrefsEntry>) -> bool {
    pref matches Some(p) && p.install_source == InstallSource::WebStoreStandard
}

/// `v` is newer than the active version (anything is, when none is known).
pub open spec fn newer_than_active(v: ChromeVersion, av: Option<ChromeVersion>) -> bool {
    match av {
        None => true,
        Some(a) => a.older(v),
    }
}

/// Whether a version directory may be deleted, and why: only a version
/// strictly older than the active one, whose own manifest agrees.
pub open spec fn decision(c: ChildInput, is_active: bool, verified: bool, standard: bool, av: Option<ChromeVersion>) -> (bool, Seq<char>) {
    if is_active {
        (false, "active"@)
    } else if !verified {
        (false, "protected:unverified"@)
    } else if !standard {
        (false, "protected:non-standard-install"@)
    } else if newer_than_active(child_version(c), av) {
        (false, "protected:newer-than-active"@)
    } else if Some(child_version(c)) == av {
        (false, "protected:same-as-active"@)
    } else if manifest_version_of(doc_or_null(c.manifest)) == Some(child_version(c)) {
        (true, "candidate"@)
    } else {
        (false, "protected:manifest-mismatch"@)
    }
}

/// The version part of a directory name: before its last `_`.
pub open spec fn version_part(name: Seq<char>) -> Seq<char> {
    let k = rfind_char(name, '_');
    if k >= 0 {
        name.take(k)
    } else {
        name
    }
}

/// Candidate id `s<scan>c<n>`.
pub open spec fn cid_text(scan_id: u64, n: nat) -> Seq<char> {
    "s"@ + dec_digits(scan_id as nat) + "c"@ + dec_digits(n)
}

/// Row of version directory `c`, numbered `n`.
pub open spec fn known_row(c: ChildInput, n: nat, scan_id: u64, active_dir: Seq<char>, verified: bool, standard: bool, av: Option<ChromeVersion>) -> VersionView {
    let is_active = c.name@ == active_dir;
    let d = decision(c, is_active, verified, standard, av);
    VersionView {
        cid: cid_text(scan_id, n),
        dir: c.name@,
        version: version_part(c.name@),
        size: c.size,
        is_active,
        unknown: false,
        deletable: d.0,
        reason: d.1,
    }
}

/// Row of unknown-layout directory `c`, numbered `n`: shown, never deletable.
pub open spec fn unknown_row(c: ChildInput, n: nat, scan_id: u64) -> VersionView {
    VersionView {
        cid: cid_text(scan_id, n),
        dir: c.name@,
        version: c.name@,
        size: c.size,
        is_active: true,
        unknown: true,
        deletable: false,
        reason: "protected:unknown-layout"@,
    }
}

/// Version key of a row: the version its directory name carries.
pub open spec fn row_key(v: VersionView) -> Option<ChromeVersion> {
    match spec_split_dir_name(v.dir) {
        Some(p) => Some(p.0),
        None => None,
    }
}

/// `a` sorts strictly before `b` when newest comes first; rows without a
/// version come last.
pub open spec fn newest_first(a: VersionView, b: VersionView) -> bool {
    match (row_key(a), row_key(b)) {
        (Some(x), Some(y)) => y.older(x),
        (Some(_), None) => true,
        _ => false,
    }
}

/// Children sorted by name.
pub open spec fn name_before(a: ChildInput, b: ChildInput) -> bool {
    seq_lt(a.name@, b.name@)
}

pub open spec fn sum_sizes(v: Seq<VersionView>) -> nat
    decreases v.len(),
{
    if v.len() == 0 {
        0
    } else {
        sum_sizes(v.drop_last()) + (v.last().size as nat)
    }
}

pub open spec fn sum_deletable(v: Seq<VersionView>) -> nat
    decreases v.len(),
{
    if v.len() == 0 {
        0
    } else {
        sum_deletable(v.drop_last()) + if v.last().deletable {
            v.last().size as nat
        } else {
            0
        }
    }
}

pub open spec fn sum_child_sizes(v: Seq<ChildInput>) -> nat
    decreases v.len(),
{
    if v.len() == 0 {
        0
    } else {
        sum_child_sizes(v.drop_last()) + (v.last().size as nat)
    }
}

/// Sorts children by name (stable).
fn sort_children(children: Vec<ChildInput>) -> (r: Vec<ChildInput>)
    ensures
        r@ == stable_sort(children@, |a: ChildInput, b: ChildInput| name_before(a, b)),
{
    let before = |a: &ChildInput, b: &ChildInput| -> (r: bool)
        ensures
            r == name_before(*a, *b),
        { str_less(a.name.as_str(), b.name.as_str()) };
    sort_stable(children, before, Ghost(|a: ChildInput, b: ChildInput| name_before(a, b)))
}

/// One installed extension, versions newest-first.
#[derive(Debug, Clone)]
pub struct ExtensionInfo {
    pub profile: String,
    pub id: String,
    pub name: String,
    /// Display name in every UI language the app ships, keyed by BCP-47 tag.
    pub names: Vec<(String, String)>,
    pub active_version: Option<String>,
    pub verified: bool,
    pub enabled: bool,
    pub disable_reasons: Vec<i64>,
    pub versions: Vec<VersionInfo>,
    pub n_versions: usize,
    /// Bytes across every version dir of this extension.
    pub total_bytes: u64,
    /// Bytes held by deletable versions only.
    pub waste_bytes: u64,
}

pub struct ExtensionView {
    pub profile: Seq<char>,
    pub id: Seq<char>,
    pub name: Seq<char>,
    pub names: Seq<(Seq<char>, Seq<char>)>,
    pub active_version: Option<Seq<char>>,
    pub verified: bool,
    pub enabled: bool,
    pub disable_reasons: Seq<i64>,
    pub versions: Seq<VersionView>,
    pub n_versions: nat,
    pub total_bytes: u64,
    pub waste_bytes: u64,
}

impl View for ExtensionInfo {
    type V = ExtensionView;

    open spec fn view(&self) -> ExtensionView {
        ExtensionView {
            profile: self.profile@,
            id: self.id@,
            name: self.name@,
            names: pairs_view(self.names@),
            active_version: ostr(self.active_version),
            verified: self.verified,
            enabled: self.enabled,
            disable_reasons: self.disable_reasons@,
            versions: versions_view(self.versions@),
            n_versions: self.n_versions as nat,
            total_bytes: self.total_bytes,
            waste_bytes: self.waste_bytes,
        }
    }
}

/// The UI languages the app ships, as BCP-47 tags.
pub open spec fn ui_locales() -> Seq<Seq<char>> {
    seq!["en"@, "zh-CN"@, "zh-TW"@, "ko"@, "ja"@, "de"@, "fr"@, "es"@, "pt-BR"@, "ru"@]
}

/// Rows of an extension directory before sorting: version directories in
/// name order, numbered from `c0 + 1`, then unknown-layout directories.
pub open spec fn classify_rows(s: Seq<ChildInput>, scan_id: u64, c0: nat, pref: Option<PrefsEntry>, win: bool) -> Seq<VersionView> {
    let k = known_idx(s);
    let u = unknown_idx(s);
    let av = pref_active(pref);
    let choice = active_choice(s, k, av).unwrap();
    let active = s[k[choice.0]];
    let verified = is_verified(active, choice.1, pref, win);
    let standard = is_standard(pref);
    Seq::new(
        k.len(),
        |j: int| known_row(s[k[j]], (c0 + j + 1) as nat, scan_id, active.name@, verified, standard, av),
    ) + Seq::new(u.len(), |j: int| unknown_row(s[u[j]], (c0 + k.len() + j + 1) as nat, scan_id))
}

/// What the scan reports for one extension directory whose entries,
/// sorted by name, are `s`; `None` when it holds no version directory.
pub open spec fn spec_extension(
    profile: Seq<char>,
    ext_id: Seq<char>,
    s: Seq<ChildInput>,
    pref: Option<PrefsEntry>,
    scan_id: u64,
    c0: nat,
    lang: Seq<char>,
    win: bool,
) -> Option<ExtensionView> {
    let k = known_idx(s);
    if k.len() == 0 {
        None
    } else {
        let u = unknown_idx(s);
        let av = pref_active(pref);
        let choice = active_choice(s, k, av).unwrap();
        let active = s[k[choice.0]];
        let rows = classify_rows(s, scan_id, c0, pref, win);
        let pref_name = match pref {
            Some(p) => opt_view(p.name),
            None => None,
        };
        Some(ExtensionView {
            profile,
            id: ext_id,
            name: spec_display_name(ext_id, doc_or_null(active.manifest), pref_name, lang, active.catalogs@),
            names: Seq::new(
                10,
                |i: int| (ui_locales()[i], spec_display_name(ext_id, doc_or_null(active.manifest), pref_name, ui_locales()[i], active.catalogs@)),
            ),
            active_version: if av is Some {
                Some(version_part(active.name@))
            } else {
                None
            },
            verified: is_verified(active, choice.1, pref, win),
            enabled: match pref {
                Some(p) => p.disable_reasons@.len() == 0,
                None => true,
            },
            disable_reasons: match pref {
                Some(p) => p.disable_reasons@,
                None => Seq::<i64>::empty(),
            },
            versions: stable_sort(rows, |a: VersionView, b: VersionView| newest_first(a, b)),
            n_versions: (k.len() + u.len()) as nat,
            total_bytes: sum_sizes(rows) as u64,
            waste_bytes: sum_deletable(rows) as u64,
        })
    }
}

/// Path of the first entry called `name`.
pub open spec fn child_path(s: Seq<ChildInput>, name: Seq<char>) -> Seq<char>
    decreases s.len(),
{
    if s.len() == 0 {
        Seq::<char>::empty()
    } else if s[0].name@ == name {
        s[0].path@
    } else {
        child_path(s.drop_first(), name)
    }
}

/// Snapshot records of the deletable rows, in row order.
pub open spec fn candidate_records(rows: Seq<VersionView>, s: Seq<ChildInput>, e: ExtensionView) -> Seq<(Seq<char>, RecordView)>
    decreases rows.len(),
{
    if rows.len() == 0 {
        Seq::<(Seq<char>, RecordView)>::empty()
    } else {
        let prev = candidate_records(rows.drop_last(), s, e);
        let v = rows.last();
        if v.deletable {
            prev.push(
                (
                    v.cid,
                    RecordView {
                        path: child_path(s, v.dir),
                        size: v.size,
                        profile: e.profile,
                        ext_id: e.id,
                        name: e.name,
                        names: e.names,
                        active_version: e.active_version,
                        version: v.version,
                        dir: v.dir,
                        reason: v.reason,
                    },
                ),
            )
        } else {
            prev
        }
    }
}

fn partition_children(s: &Vec<ChildInput>) -> (r: (Vec<usize>, Vec<usize>))
    ensures
        r.0@.len() == known_idx(s@).len(),
        forall|j: int| 0 <= j < r.0@.len() ==> #[trigger] r.0@[j] as int == known_idx(s@)[j] && r.0@[j] < s@.len(),
        r.1@.len() == unknown_idx(s@).len(),
        forall|j: int| 0 <= j < r.1@.len() ==> #[trigger] r.1@[j] as int == unknown_idx(s@)[j] && r.1@[j] < s@.len(),
{
    let mut k: Vec<usize> = Vec::new();
    let mut u: Vec<usize> = Vec::new();
    let mut i: usize = 0;
    while i < s.len()
        invariant
            i <= s@.len(),
            k@.len() == known_idx(s@.take(i as int)).len(),
            forall|j: int| 0 <= j < k@.len() ==> #[trigger] k@[j] as int == known_idx(s@.take(i as int))[j] && k@[j] < i,
            u@.len() == unknown_idx(s@.take(i as int)).len(),
            forall|j: int| 0 <= j < u@.len() ==> #[trigger] u@[j] as int == unknown_idx(s@.take(i as int))[j] && u@[j] < i,
        decreases s@.len() - i,
    {
        let ghost pre = s@.take(i as int);
        let ghost nxt = s@.take(i + 1);
        assert(nxt.drop_last() =~= pre);
        assert(nxt.last() == s@[i as int]);
        let c = &s[i];
        let known = c.is_dir && split_dir_name(c.name.as_str()).is_some();
        let hidden = {
            let cs = chars_of(c.name.as_str());
            cs.len() > 0 && cs[0] == '.'
        };
        let unknown = c.is_dir && split_dir_name(c.name.as_str()).is_none() && !hidden;
        if known {
            k.push(i);
        }
        if unknown {
            u.push(i);
        }
        i = i + 1;
    }
    assert(s@.take(s@.len() as int) =~= s@);
    (k, u)
}

fn find_first_match(s: &Vec<ChildInput>, k: &Vec<usize>, av: &Option<ChromeVersion>) -> (r: Option<usize>)
    requires
        k@.len() == known_idx(s@).len(),
        forall|j: int| 0 <= j < k@.len() ==> #[trigger] k@[j] as int == known_idx(s@)[j] && k@[j] < s@.len(),
        forall|j: int| 0 <= j < k@.len() ==> is_known(#[trigger] s@[k@[j] as int]),
    ensures
        match r {
            Some(i) => first_match(s@, known_idx(s@), *av, 0) == Some(i as int) && i < k@.len(),
            None => first_match(s@, known_idx(s@), *av, 0) is None,
        },
{
    let ghost kv = known_idx(s@);
    let mut i: usize = 0;
    while i < k.len()
        invariant
            i <= k@.len() == kv.len(),
            kv == known_idx(s@),
            forall|j: int| 0 <= j < k@.len() ==> #[trigger] k@[j] as int == kv[j] && k@[j] < s@.len(),
            forall|j: int| 0 <= j < k@.len() ==> is_known(#[trigger] s@[k@[j] as int]),
            first_match(s@, kv, *av, 0) == first_match(s@, kv, *av, i as int),
        decreases k@.len() - i,
    {
        let c = &s[k[i]];
        assert(k@[i as int] as int == kv[i as int]);
        assert(is_known(s@[k@[i as int] as int]));
        let v = match split_dir_name(c.name.as_str()) {
            Some(p) => p.0,
            None => {
                assert(false);
                return None;
            },
        };
        let hit = match av {
            Some(a) => v.same_as(a),
            None => false,
        };
        if hit {
            return Some(i);
        }
        i = i + 1;
    }
    None
}

fn find_last_max(s: &Vec<ChildInput>, k: &Vec<usize>) -> (r: Option<usize>)
    requires
        k@.len() == known_idx(s@).len(),
        forall|j: int| 0 <= j < k@.len() ==> #[trigger] k@[j] as int == known_idx(s@)[j] && k@[j] < s@.len(),
        forall|j: int| 0 <= j < k@.len() ==> is_known(#[trigger] s@[k@[j] as int]),
    ensures
        match r {
            Some(i) => last_max(s@, known_idx(s@), k@.len() as int) == Some(i as int) && i < k@.len(),
            None => last_max(s@, known_idx(s@), k@.len() as int) is None,
        },
{
    let ghost kv = known_idx(s@);
    let mut best: Option<(usize, ChromeVersion)> = None;
    let mut i: usize = 0;
    while i < k.len()
        invariant
            i <= k@.len() == kv.len(),
            kv == known_idx(s@),
            forall|j: int| 0 <= j < k@.len() ==> #[trigger] k@[j] as int == kv[j] && k@[j] < s@.len(),
            forall|j: int| 0 <= j < k@.len() ==> is_known(#[trigger] s@[k@[j] as int]),
            match best {
                Some(b) => last_max(s@, kv, i as int) == Some(b.0 as int) && b.0 < i && b.1 == child_version(s@[kv[b.0 as int]]),
                None => last_max(s@, kv, i as int) is None,
            },
        decreases k@.len() - i,
    {
        let c = &s[k[i]];
        assert(k@[i as int] as int == kv[i as int]);
        assert(is_known(s@[k@[i as int] as int]));
        let v = match split_dir_name(c.name.as_str()) {
            Some(p) => p.0,
            None => {
                assert(false);
                return None;
            },
        };
        let take = match &best {
            Some(b) => b.1.is_older_than(&v) || b.1.same_as(&v),
            None => true,
        };
        if take {
            best = Some((i, v));
        }
        i = i + 1;
    }
    match best {
        Some(b) => Some(b.0),
        None => None,
    }
}

/// Candidate id `s<scan_id>c<n>`.
pub fn cid_string(scan_id: u64, n: u64) -> (r: String)
    ensures
        r@ == cid_text(scan_id, n as nat),
{
    let mut r = String::from_str("s");
    push_decimal(&mut r, scan_id);
    r.append("c");
    push_decimal(&mut r, n);
    r
}

fn version_part_of(name: &str) -> (r: String)
    ensures
        r@ == version_part(name@),
{
    let cs = chars_of(name);
    match crate::version::last_index_of(&cs, '_') {
        Some(k) => {
            assert(cs@.subrange(0, k as int) =~= name@.take(k as int));
            string_of(&cs, 0, k)
        },
        None => name.to_owned(),
    }
}

pub proof fn lemma_sort_len_sum(s: Seq<ChildInput>)
    ensures
        stable_sort(s, |a: ChildInput, b: ChildInput| name_before(a, b)).len() == s.len(),
        sum_child_sizes(stable_sort(s, |a: ChildInput, b: ChildInput| name_before(a, b))) == sum_child_sizes(s),
    decreases s.len(),
{
    let gb = |a: ChildInput, b: ChildInput| name_before(a, b);
    if s.len() > 0 {
        lemma_sort_len_sum(s.drop_last());
        let sorted = stable_sort(s.drop_last(), gb);
        crate::order::lemma_insert_pos(sorted, s.last(), gb);
        let p = crate::order::insert_pos(sorted, s.last(), gb);
        lemma_sum_insert(sorted, p, s.last());
    }
}

proof fn lemma_sum_insert(s: Seq<ChildInput>, p: int, x: ChildInput)
    requires
        0 <= p <= s.len(),
    ensures
        sum_child_sizes(s.insert(p, x)) == sum_child_sizes(s) + x.size,
    decreases s.len(),
{
    if p == s.len() {
        assert(s.insert(p, x) =~= s.push(x));
        assert(s.push(x).drop_last() =~= s);
    } else {
        lemma_sum_insert(s.drop_last(), p, x);
        assert(s.insert(p, x).drop_last() =~= s.drop_last().insert(p, x));
        assert(s.insert(p, x).last() == s.last());
    }
}

/// Sizes of the version directories.
pub open spec fn known_sizes(s: Seq<ChildInput>) -> nat
    decreases s.len(),
{
    if s.len() == 0 {
        0
    } else {
        known_sizes(s.drop_last()) + if is_known(s.last()) {
            s.last().size as nat
        } else {
            0
        }
    }
}

/// Sizes of the unknown-layout directories.
pub open spec fn unknown_sizes(s: Seq<ChildInput>) -> nat
    decreases s.len(),
{
    if s.len() == 0 {
        0
    } else {
        unknown_sizes(s.drop_last()) + if is_unknown(s.last()) {
            s.last().size as nat
        } else {
            0
        }
    }
}

/// Sum of the sizes of `s` at positions `idx`.
pub open spec fn sizes_at(s: Seq<ChildInput>, idx: Seq<int>) -> nat
    decreases idx.len(),
{
    if idx.len() == 0 {
        0
    } else {
        sizes_at(s, idx.drop_last()) + (s[idx.last()].size as nat)
    }
}

proof fn lemma_sizes_at_extend(s: Seq<ChildInput>, idx: Seq<int>, x: ChildInput)
    requires
        forall|j: int| 0 <= j < idx.len() ==> 0 <= #[trigger] idx[j] < s.len(),
    ensures
        sizes_at(s.push(x), idx) == sizes_at(s, idx),
    decreases idx.len(),
{
    if idx.len() > 0 {
        lemma_sizes_at_extend(s, idx.drop_last(), x);
        assert(s.push(x)[idx.last()] == s[idx.last()]);
    }
}

proof fn lemma_idx_facts(s: Seq<ChildInput>)
    ensures
        forall|j: int| 0 <= j < known_idx(s).len() ==> 0 <= #[trigger] known_idx(s)[j] < s.len() && is_known(s[known_idx(s)[j]]),
        forall|j: int| 0 <= j < unknown_idx(s).len() ==> 0 <= #[trigger] unknown_idx(s)[j] < s.len() && is_unknown(s[unknown_idx(s)[j]]),
        known_idx(s).len() + unknown_idx(s).len() <= s.len(),
        sizes_at(s, known_idx(s)) == known_sizes(s),
        sizes_at(s, unknown_idx(s)) == unknown_sizes(s),
        known_sizes(s) + unknown_sizes(s) <= sum_child_sizes(s),
    decreases s.len(),
{
    if s.len() > 0 {
        let t = s.drop_last();
        lemma_idx_facts(t);
        assert(s =~= t.push(s.last()));
        lemma_sizes_at_extend(t, known_idx(t), s.last());
        lemma_sizes_at_extend(t, unknown_idx(t), s.last());
        if is_known(s.last()) {
            assert(known_idx(s).drop_last() =~= known_idx(t));
        }
        if is_unknown(s.last()) {
            assert(unknown_idx(s).drop_last() =~= unknown_idx(t));
        }
        assert forall|j: int| 0 <= j < known_idx(s).len() implies 0 <= #[trigger] known_idx(s)[j] < s.len() && is_known(s[known_idx(s)[j]]) by {
            if j < known_idx(t).len() {
                assert(known_idx(s)[j] == known_idx(t)[j]);
                assert(s[known_idx(t)[j]] == t[known_idx(t)[j]]);
            }
        }
        assert forall|j: int| 0 <= j < unknown_idx(s).len() implies 0 <= #[trigger] unknown_idx(s)[j] < s.len() && is_unknown(s[unknown_idx(s)[j]]) by {
            if j < unknown_idx(t).len() {
                assert(unknown_idx(s)[j] == unknown_idx(t)[j]);
                assert(s[unknown_idx(t)[j]] == t[unknown_idx(t)[j]]);
            }
        }
    }
}

proof fn lemma_rows_sum(rows: Seq<VersionView>, s: Seq<ChildInput>, idx: Seq<int>)
    requires
        rows.len() == idx.len(),
        forall|j: int| 0 <= j < idx.len() ==> 0 <= #[trigger] idx[j] < s.len(),
        forall|j: int| 0 <= j < rows.len() ==> #[trigger] rows[j].size == s[idx[j]].size,
    ensures
        sum_sizes(rows) == sizes_at(s, idx),
    decreases rows.len(),
{
    if rows.len() > 0 {
        lemma_rows_sum(rows.drop_last(), s, idx.drop_last());
    }
}

proof fn lemma_sum_sizes_concat(a: Seq<VersionView>, b: Seq<VersionView>)
    ensures
        sum_sizes(a + b) == sum_sizes(a) + sum_sizes(b),
        sum_deletable(a + b) == sum_deletable(a) + sum_deletable(b),
    decreases b.len(),
{
    if b.len() > 0 {
        lemma_sum_sizes_concat(a, b.drop_last());
        assert((a + b).drop_last() =~= a + b.drop_last());
    } else {
        assert(a + b =~= a);
    }
}

proof fn lemma_sum_prefix(v: Seq<VersionView>, j: int)
    requires
        0 <= j <= v.len(),
    ensures
        sum_sizes(v.take(j)) <= sum_sizes(v),
        sum_deletable(v.take(j)) <= sum_deletable(v),
        sum_deletable(v) <= sum_sizes(v),
    decreases v.len(),
{
    if v.len() > 0 {
        if j == v.len() {
            assert(v.take(j) =~= v);
            lemma_sum_prefix(v.drop_last(), j - 1);
            assert(v.drop_last().take(j - 1) =~= v.drop_last());
        } else {
            lemma_sum_prefix(v.drop_last(), j);
            assert(v.drop_last().take(j) =~= v.take(j));
        }
    } else {
        assert(v.take(j) =~= v);
    }
}

fn opt_same(a: &Option<ChromeVersion>, b: &Option<ChromeVersion>) -> (r: bool)
    ensures
        r == (*a == *b),
{
    match (a, b) {
        (Some(x), Some(y)) => x.same_as(y),
        (None, None) => true,
        _ => false,
    }
}

fn manifest_version_exec(m: &JsonValue) -> (r: Option<ChromeVersion>)
    ensures
        r == manifest_version_of(*m),
{
    match m.get("version") {
        Some(v) => match v.as_str() {
            Some(t) => ChromeVersion::parse(t),
            None => None,
        },
        None => None,
    }
}

fn newer_exec(v: &ChromeVersion, av: &Option<ChromeVersion>) -> (r: bool)
    ensures
        r == newer_than_active(*v, *av),
{
    match av {
        Some(a) => a.is_older_than(v),
        None => true,
    }
}

/// Rows of the version directories at positions `k`, numbered from `c0 + 1`.
fn known_rows(
    s: &Vec<ChildInput>,
    k: &Vec<usize>,
    scan_id: u64,
    c0: u64,
    active_name: &String,
    verified: bool,
    standard: bool,
    av: &Option<ChromeVersion>,
) -> (rows: Vec<VersionInfo>)
    requires
        c0 + k@.len() <= u64::MAX,
        forall|j: int| 0 <= j < k@.len() ==> #[trigger] k@[j] < s@.len() && is_known(s@[k@[j] as int]),
    ensures
        versions_view(rows@) == Seq::new(
            k@.len(),
            |j: int| known_row(s@[k@[j] as int], (c0 + j + 1) as nat, scan_id, active_name@, verified, standard, *av),
        ),
{
    let mut rows: Vec<VersionInfo> = Vec::new();
    let mut j: usize = 0;
    while j < k.len()
        invariant
            j <= k@.len(),
            c0 + k@.len() <= u64::MAX,
            forall|t: int| 0 <= t < k@.len() ==> #[trigger] k@[t] < s@.len() && is_known(s@[k@[t] as int]),
            rows@.len() == j,
            forall|t: int| 0 <= t < j ==> (#[trigger] rows@[t])@ == known_row(s@[k@[t] as int], (c0 + t + 1) as nat, scan_id, active_name@, verified, standard, *av),
        decreases k@.len() - j,
    {
        let c = &s[k[j]];
        assert(is_known(s@[k@[j as int] as int]));
        let v = match split_dir_name(c.name.as_str()) {
            Some(p) => p.0,
            None => {
                assert(false);
                return rows;
            },
        };
        let is_active = str_eq(c.name.as_str(), active_name.as_str());
        let (deletable, reason) = if is_active {
            (false, String::from_str("active"))
        } else if !verified {
            (false, String::from_str("protected:unverified"))
        } else if !standard {
            (false, String::from_str("protected:non-standard-install"))
        } else if newer_exec(&v, av) {
            (false, String::from_str("protected:newer-than-active"))
        } else if opt_same(&Some(v), av) {
            (false, String::from_str("protected:same-as-active"))
        } else {
            let own = manifest_version_exec(&read_manifest(&c.manifest));
            if opt_same(&own, &Some(v)) {
                (true, String::from_str("candidate"))
            } else {
                (false, String::from_str("protected:manifest-mismatch"))
            }
        };
        let row = VersionInfo {
            cid: cid_string(scan_id, c0 + j as u64 + 1),
            dir: c.name.clone(),
            version: version_part_of(c.name.as_str()),
            size: c.size,
            is_active,
            unknown: false,
            deletable,
            reason,
        };
        assert(row@ == known_row(s@[k@[j as int] as int], (c0 + j + 1) as nat, scan_id, active_name@, verified, standard, *av));
        rows.push(row);
        j = j + 1;
    }
    assert(versions_view(rows@) =~= Seq::new(
        k@.len(),
        |j: int| known_row(s@[k@[j] as int], (c0 + j + 1) as nat, scan_id, active_name@, verified, standard, *av),
    ));
    rows
}

/// Rows of the unknown-layout directories at positions `u`, numbered from
/// `c0 + 1`.
fn unknown_rows(s: &Vec<ChildInput>, u: &Vec<usize>, scan_id: u64, c0: u64) -> (rows: Vec<VersionInfo>)
    requires
        c0 + u@.len() <= u64::MAX,
        forall|j: int| 0 <= j < u@.len() ==> #[trigger] u@[j] < s@.len(),
    ensures
        versions_view(rows@) == Seq::new(u@.len(), |j: int| unknown_row(s@[u@[j] as int], (c0 + j + 1) as nat, scan_id)),
{
    let mut rows: Vec<VersionInfo> = Vec::new();
    let mut j: usize = 0;
    while j < u.len()
        invariant
            j <= u@.len(),
            c0 + u@.len() <= u64::MAX,
            forall|t: int| 0 <= t < u@.len() ==> #[trigger] u@[t] < s@.len(),
            rows@.len() == j,
            forall|t: int| 0 <= t < j ==> (#[trigger] rows@[t])@ == unknown_row(s@[u@[t] as int], (c0 + t + 1) as nat, scan_id),
        decreases u@.len() - j,
    {
        let c = &s[u[j]];
        let row = VersionInfo {
            cid: cid_string(scan_id, c0 + j as u64 + 1),
            dir: c.name.clone(),
            version: c.name.clone(),
            size: c.size,
            is_active: true,
            unknown: true,
            deletable: false,
            reason: String::from_str("protected:unknown-layout"),
        };
        rows.push(row);
        j = j + 1;
    }
    assert(versions_view(rows@) =~= Seq::new(u@.len(), |j: int| unknown_row(s@[u@[j] as int], (c0 + j + 1) as nat, scan_id)));
    rows
}

/// Total and deletable bytes of `rows`.
fn row_totals(rows: &Vec<VersionInfo>) -> (r: (u64, u64))
    requires
        sum_sizes(versions_view(rows@)) <= u64::MAX,
    ensures
        r.0 == sum_sizes(versions_view(rows@)),
        r.1 == sum_deletable(versions_view(rows@)),
{
    let ghost rv = versions_view(rows@);
    let mut total: u64 = 0;
    let mut waste: u64 = 0;
    let mut j: usize = 0;
    assert(rv.take(0) =~= Seq::<VersionView>::empty());
    while j < rows.len()
        invariant
            j <= rows@.len(),
            rv == versions_view(rows@),
            sum_sizes(rv) <= u64::MAX,
            total == sum_sizes(rv.take(j as int)),
            waste == sum_deletable(rv.take(j as int)),
        decreases rows@.len() - j,
    {
        proof {
            assert(rv.take(j + 1).drop_last() =~= rv.take(j as int));
            assert(rv.take(j + 1).last() == rows@[j as int]@);
            lemma_sum_prefix(rv, j + 1);
            lemma_sum_prefix(rv.take(j + 1), j + 1);
        }
        total = total + rows[j].size;
        if rows[j].deletable {
            waste = waste + rows[j].size;
        }
        j = j + 1;
    }
    assert(rv.take(rows@.len() as int) =~= rv);
    (total, waste)
}

proof fn lemma_sort_view(v: Seq<VersionInfo>)
    ensures
        versions_view(stable_sort(v, |a: VersionInfo, b: VersionInfo| newest_first(a@, b@)))
            == stable_sort(versions_view(v), |a: VersionView, b: VersionView| newest_first(a, b)),
    decreases v.len(),
{
    let g1 = |a: VersionInfo, b: VersionInfo| newest_first(a@, b@);
    let g2 = |a: VersionView, b: VersionView| newest_first(a, b);
    if v.len() > 0 {
        lemma_sort_view(v.drop_last());
        assert(versions_view(v).drop_last() =~= versions_view(v.drop_last()));
        lemma_insert_view(stable_sort(v.drop_last(), g1), v.last());
    } else {
        assert(versions_view(Seq::<VersionInfo>::empty()) =~= Seq::<VersionView>::empty());
    }
}

proof fn lemma_insert_view(sorted: Seq<VersionInfo>, x: VersionInfo)
    ensures
        versions_view(insert_stable(sorted, x, |a: VersionInfo, b: VersionInfo| newest_first(a@, b@)))
            == insert_stable(versions_view(sorted), x@, |a: VersionView, b: VersionView| newest_first(a, b)),
    decreases sorted.len(),
{
    let g1 = |a: VersionInfo, b: VersionInfo| newest_first(a@, b@);
    let g2 = |a: VersionView, b: VersionView| newest_first(a, b);
    let sv = versions_view(sorted);
    if sorted.len() == 0 {
        assert(versions_view(seq![x]) =~= seq![x@]);
    } else {
        assert(sv[0] == sorted[0]@);
        if newest_first(x@, sorted[0]@) {
            assert(versions_view(seq![x] + sorted) =~= seq![x@] + sv);
        } else {
            lemma_insert_view(sorted.drop_first(), x);
            assert(sv.drop_first() =~= versions_view(sorted.drop_first()));
            assert(versions_view(seq![sorted[0]] + insert_stable(sorted.drop_first(), x, g1))
                =~= seq![sv[0]] + versions_view(insert_stable(sorted.drop_first(), x, g1)));
        }
    }
}

/// Sorts rows newest first (stable).
fn sort_rows(rows: Vec<VersionInfo>) -> (r: Vec<VersionInfo>)
    ensures
        versions_view(r@) == stable_sort(versions_view(rows@), |a: VersionView, b: VersionView| newest_first(a, b)),
{
    let before = |a: &VersionInfo, b: &VersionInfo| -> (r: bool)
        ensures
            r == newest_first(a@, b@),
        {
            match (split_dir_name(a.dir.as_str()), split_dir_name(b.dir.as_str())) {
                (Some(x), Some(y)) => y.0.is_older_than(&x.0),
                (Some(_), None) => true,
                _ => false,
            }
        };
    let r = sort_stable(rows, before, Ghost(|a: VersionInfo, b: VersionInfo| newest_first(a@, b@)));
    proof {
        lemma_sort_view(rows@);
    }
    r
}

/// Display names of the extension in every UI language the app ships.
fn ui_names(ext_id: &str, manifest: &JsonValue, pref_name: Option<&str>, catalogs: &Vec<(String, Option<String>)>) -> (r: Vec<(String, String)>)
    ensures
        pairs_view(r@) == Seq::new(
            10,
            |i: int| (ui_locales()[i], spec_display_name(ext_id@, *manifest, match pref_name {
                Some(p) => Some(p@),
                None => None,
            }, ui_locales()[i], catalogs@)),
        ),
{
    let locales = vec![
        String::from_str("en"),
        String::from_str("zh-CN"),
        String::from_str("zh-TW"),
        String::from_str("ko"),
        String::from_str("ja"),
        String::from_str("de"),
        String::from_str("fr"),
        String::from_str("es"),
        String::from_str("pt-BR"),
        String::from_str("ru"),
    ];
    assert(strings_view(locales@) =~= ui_locales());
    let ghost pn = match pref_name {
        Some(p) => Some(p@),
        None => None,
    };
    let mut out: Vec<(String, String)> = Vec::new();
    let mut i: usize = 0;
    while i < locales.len()
        invariant
            i <= locales@.len() == 10,
            strings_view(locales@) == ui_locales(),
            pn == match pref_name {
                Some(p) => Some(p@),
                None => None,
            },
            out@.len() == i,
            forall|t: int| 0 <= t < i ==> ((#[trigger] out@[t]).0@, out@[t].1@) == (ui_locales()[t], spec_display_name(ext_id@, *manifest, pn, ui_locales()[t], catalogs@)),
        decreases locales@.len() - i,
    {
        let l = &locales[i];
        assert(l@ == ui_locales()[i as int]);
        let n = resolve_display_name(ext_id, manifest, pref_name, l.as_str(), catalogs);
        let lc = l.clone();
        assert(n@ == spec_display_name(ext_id@, *manifest, pn, ui_locales()[i as int], catalogs@));
        out.push((lc, n));
        assert(out@[i as int].0@ == ui_locales()[i as int]);
        i = i + 1;
    }
    assert(pairs_view(out@) =~= Seq::new(
        10,
        |i: int| (ui_locales()[i], spec_display_name(ext_id@, *manifest, pn, ui_locales()[i], catalogs@)),
    ));
    out
}

fn copy_ints(v: &Vec<i64>) -> (r: Vec<i64>)
    ensures
        r@ == v@,
{
    let mut r: Vec<i64> = Vec::new();
    let mut i: usize = 0;
    while i < v.len()
        invariant
            i <= v@.len(),
            r@ == v@.take(i as int),
        decreases v@.len() - i,
    {
        r.push(v[i]);
        i = i + 1;
        assert(r@ =~= v@.take(i as int));
    }
    assert(v@.take(v@.len() as int) =~= v@);
    r
}

fn path_of(s: &Vec<ChildInput>, name: &str) -> (r: String)
    ensures
        r@ == child_path(s@, name@),
{
    let mut i: usize = 0;
    assert(s@.skip(0) =~= s@);
    while i < s.len()
        invariant
            i <= s@.len(),
            child_path(s@, name@) == child_path(s@.skip(i as int), name@),
        decreases s@.len() - i,
    {
        if str_eq(s[i].name.as_str(), name) {
            return s[i].path.clone();
        }
        assert(s@.skip(i as int).drop_first() =~= s@.skip(i + 1));
        i = i + 1;
    }
    String::new()
}

/// Appends the snapshot records of the deletable rows.
fn add_candidates(snapshot: &mut Snapshot, info: &ExtensionInfo, s: &Vec<ChildInput>)
    ensures
        snapshot_view(final(snapshot)@) == snapshot_view(old(snapshot)@) + candidate_records(versions_view(info.versions@), s@, info@),
{
    let ghost rv = versions_view(info.versions@);
    let ghost base = snapshot_view(snapshot@);
    let mut j: usize = 0;
    assert(rv.take(0) =~= Seq::<VersionView>::empty());
    assert(base + Seq::<(Seq<char>, RecordView)>::empty() =~= base);
    while j < info.versions.len()
        invariant
            j <= info.versions@.len(),
            rv == versions_view(info.versions@),
            snapshot_view(snapshot@) == base + candidate_records(rv.take(j as int), s@, info@),
        decreases info.versions@.len() - j,
    {
        let v = &info.versions[j];
        proof {
            assert(rv.take(j + 1).drop_last() =~= rv.take(j as int));
            assert(rv.take(j + 1).last() == v@);
        }
        if v.deletable {
            let ghost before = snapshot_view(snapshot@);
            let rec = CandidateRecord {
                path: path_of(s, v.dir.as_str()),
                size: v.size,
                profile: info.profile.clone(),
                ext_id: info.id.clone(),
                name: info.name.clone(),
                names: crate::state::copy_pairs(&info.names),
                active_version: crate::state::copy_opt(&info.active_version),
                version: v.version.clone(),
                dir: v.dir.clone(),
                reason: v.reason.clone(),
            };
            let key = v.cid.clone();
            let ghost entry = (key@, rec@);
            snapshot.push((key, rec));
            assert(snapshot_view(snapshot@) =~= before.push(entry));
        }
        j = j + 1;
    }
    assert(rv.take(info.versions@.len() as int) =~= rv);
}

/// Classify one extension directory. `children` are its entries; the
/// result is `None` when none of them is a version directory. Candidate
/// ids continue from `cid_counter`; deletable versions are bound into
/// `snapshot`. `win` says whether recorded paths follow Windows rules.
pub fn classify_extension(
    scan_id: u64,
    profile: &str,
    ext_id: &str,
    children: Vec<ChildInput>,
    pref: Option<&PrefsEntry>,
    cid_counter: &mut u64,
    snapshot: &mut Snapshot,
    lang: &str,
    win: bool,
) -> (r: Option<ExtensionInfo>)
    requires
        *old(cid_counter) + children@.len() <= u64::MAX,
        sum_child_sizes(children@) <= u64::MAX,
    ensures
        ({
            let s = stable_sort(children@, |a: ChildInput, b: ChildInput| name_before(a, b));
            let pv = match pref {
                Some(p) => Some(*p),
                None => None,
            };
            match spec_extension(profile@, ext_id@, s, pv, scan_id, *old(cid_counter) as nat, lang@, win) {
                None => r is None && *final(cid_counter) == *old(cid_counter) && snapshot_view(
                    final(snapshot)@,
                ) == snapshot_view(old(snapshot)@),
                Some(e) => r matches Some(info) && info@ == e && *final(cid_counter) == *old(
                    cid_counter,
                ) + e.n_versions && snapshot_view(final(snapshot)@) == snapshot_view(
                    old(snapshot)@,
                ) + candidate_records(e.versions, s, e),
            }
        }),
{
    let ghost pv = match pref {
        Some(p) => Some(*p),
        None => None,
    };
    let s = sort_children(children);
    proof {
        lemma_sort_len_sum(children@);
        lemma_idx_facts(s@);
    }
    let (k, u) = partition_children(&s);
    let ghost kv = known_idx(s@);
    let ghost uv = unknown_idx(s@);
    if k.len() == 0 {
        return None;
    }
    let av: Option<ChromeVersion> = match pref {
        Some(p) => match &p.version {
            Some(v) => ChromeVersion::parse(v.as_str()),
            None => None,
        },
        None => None,
    };
    assert(av == pref_active(pv));
    assert(forall|j: int| 0 <= j < k@.len() ==> is_known(#[trigger] s@[k@[j] as int])) by {
        assert forall|j: int| 0 <= j < k@.len() implies is_known(#[trigger] s@[k@[j] as int]) by {
            assert(k@[j] as int == kv[j]);
        }
    }
    let (ai, fallback) = match find_first_match(&s, &k, &av) {
        Some(i) => (i, false),
        None => match find_last_max(&s, &k) {
            Some(m) => (m, true),
            None => {
                assert(false);
                return None;
            },
        },
    };
    assert(active_choice(s@, kv, av) == Some((ai as int, fallback)));
    let active = &s[k[ai]];
    assert(*active == s@[kv[ai as int]]);
    let am = read_manifest(&active.manifest);
    let manifest_v = manifest_version_exec(&am);
    let path_agrees = match pref {
        Some(p) => match &p.disk_path {
            Some(dp) => match file_name_of(dp.as_str(), win) {
                Some(n) => str_eq(n.as_str(), active.name.as_str()),
                None => false,
            },
            None => true,
        },
        None => true,
    };
    let verified = opt_same(&manifest_v, &av) && !fallback && path_agrees;
    assert(verified == is_verified(*active, fallback, pv, win));
    let standard = match pref {
        Some(p) => p.install_source == InstallSource::WebStoreStandard,
        None => false,
    };
    assert(standard == is_standard(pv));
    let c0 = *cid_counter;
    let mut rows = known_rows(&s, &k, scan_id, c0, &active.name, verified, standard, &av);
    let mut unk = unknown_rows(&s, &u, scan_id, c0 + k.len() as u64);
    let ghost krows = versions_view(rows@);
    let ghost urows = versions_view(unk@);
    rows.append(&mut unk);
    let ghost all = versions_view(rows@);
    proof {
        assert(all =~= krows + urows);
        assert(all =~= classify_rows(s@, scan_id, c0 as nat, pv, win));
        lemma_sum_sizes_concat(krows, urows);
        lemma_rows_sum(krows, s@, kv);
        lemma_rows_sum(urows, s@, uv);
    }
    let (total, waste) = row_totals(&rows);
    let versions = sort_rows(rows);
    let pref_name: Option<&str> = match pref {
        Some(p) => match &p.name {
            Some(n) => Some(n.as_str()),
            None => None,
        },
        None => None,
    };
    let name = resolve_display_name(ext_id, &am, pref_name, lang, &active.catalogs);
    let names = ui_names(ext_id, &am, pref_name, &active.catalogs);
    let active_version = if av.is_some() {
        Some(version_part_of(active.name.as_str()))
    } else {
        None
    };
    let (enabled, disable_reasons) = match pref {
        Some(p) => (p.is_enabled(), copy_ints(&p.disable_reasons)),
        None => (true, Vec::new()),
    };
    let sl = s.len();
    assert(k@.len() + u@.len() <= sl);
    let n_versions = k.len() + u.len();
    let info = ExtensionInfo {
        profile: profile.to_owned(),
        id: ext_id.to_owned(),
        name,
        names,
        active_version,
        verified,
        enabled,
        disable_reasons,
        versions,
        n_versions,
        total_bytes: total,
        waste_bytes: waste,
    };
    proof {
        let e = spec_extension(profile@, ext_id@, s@, pv, scan_id, c0 as nat, lang@, win).unwrap();
        assert(info@.profile == e.profile);
        assert(info@.id == e.id);
        assert(info@.name == e.name);
        assert(info@.names == e.names);
        assert(info@.active_version == e.active_version);
        assert(info@.verified == e.verified);
        assert(info@.enabled == e.enabled);
        assert(info@.disable_reasons == e.disable_reasons);
        assert(info@.versions == e.versions);
        assert(info@.n_versions == e.n_versions);
        assert(info@.total_bytes == e.total_bytes);
        assert(info@.waste_bytes == e.waste_bytes);
    }
    add_candidates(snapshot, &info, &s);
    *cid_counter = c0 + n_versions as u64;
    Some(info)
}

proof fn lemma_sort_rows_sums(rows: Seq<VersionView>)
    ensures
        sum_deletable(stable_sort(rows, |a: VersionView, b: VersionView| newest_first(a, b))) == sum_deletable(rows),
    decreases rows.len(),
{
    let gb = |a: VersionView, b: VersionView| newest_first(a, b);
    if rows.len() > 0 {
        lemma_sort_rows_sums(rows.drop_last());
        let sorted = stable_sort(rows.drop_last(), gb);
        crate::order::lemma_insert_pos(sorted, rows.last(), gb);
        let p = crate::order::insert_pos(sorted, rows.last(), gb);
        lemma_deletable_insert(sorted, p, rows.last());
    }
}

proof fn lemma_deletable_insert(s: Seq<VersionView>, p: int, x: VersionView)
    requires
        0 <= p <= s.len(),
    ensures
        sum_deletable(s.insert(p, x)) == sum_deletable(s) + if x.deletable {
            x.size as nat
        } else {
            0
        },
    decreases s.len(),
{
    if p == s.len() {
        assert(s.insert(p, x) =~= s.push(x));
        assert(s.push(x).drop_last() =~= s);
    } else {
        lemma_deletable_insert(s.drop_last(), p, x);
        assert(s.insert(p, x).drop_last() =~= s.drop_last().insert(p, x));
        assert(s.insert(p, x).last() == s.last());
    }
}

proof fn lemma_records_total(rows: Seq<VersionView>, s: Seq<ChildInput>, e: ExtensionView)
    ensures
        crate::state::total_size(candidate_records(rows, s, e)) == sum_deletable(rows),
    decreases rows.len(),
{
    if rows.len() > 0 {
        lemma_records_total(rows.drop_last(), s, e);
        let prev = candidate_records(rows.drop_last(), s, e);
        if rows.last().deletable {
            let c = candidate_records(rows, s, e);
            assert(c.drop_last() =~= prev);
        }
    }
}

/// What `classify_extension` guarantees about an extension's totals and
/// snapshot records.
pub proof fn lemma_extension_totals(profile: Seq<char>, ext_id: Seq<char>, s: Seq<ChildInput>, pref: Option<PrefsEntry>, scan_id: u64, c0: nat, lang: Seq<char>, win: bool)
    requires
        sum_child_sizes(s) <= u64::MAX,
        spec_extension(profile, ext_id, s, pref, scan_id, c0, lang, win) is Some,
    ensures
        ({
            let e = spec_extension(profile, ext_id, s, pref, scan_id, c0, lang, win).unwrap();
            &&& e.waste_bytes <= e.total_bytes
            &&& e.total_bytes <= sum_child_sizes(s)
            &&& e.n_versions <= s.len()
            &&& crate::state::total_size(candidate_records(e.versions, s, e)) == e.waste_bytes
        }),
{
    let e = spec_extension(profile, ext_id, s, pref, scan_id, c0, lang, win).unwrap();
    let rows = classify_rows(s, scan_id, c0, pref, win);
    let k = known_idx(s);
    let u = unknown_idx(s);
    lemma_idx_facts(s);
    let av = pref_active(pref);
    let choice = active_choice(s, k, av).unwrap();
    let active = s[k[choice.0]];
    let verified = is_verified(active, choice.1, pref, win);
    let standard = is_standard(pref);
    let kr = Seq::new(k.len(), |j: int| known_row(s[k[j]], (c0 + j + 1) as nat, scan_id, active.name@, verified, standard, av));
    let ur = Seq::new(u.len(), |j: int| unknown_row(s[u[j]], (c0 + k.len() + j + 1) as nat, scan_id));
    assert(rows == kr + ur);
    lemma_sum_sizes_concat(kr, ur);
    lemma_rows_sum(kr, s, k);
    lemma_rows_sum(ur, s, u);
    lemma_sum_prefix(rows, 0);
    lemma_sort_rows_sums(rows);
    lemma_records_total(e.versions, s, e);
}

proof fn lemma_first_match_range(s: Seq<ChildInput>, k: Seq<int>, av: Option<ChromeVersion>, from: int)
    ensures
        first_match(s, k, av, from) matches Some(i) ==> from <= i < k.len(),
    decreases k.len() - from,
{
    if 0 <= from < k.len() && Some(child_version(s[k[from]])) != av {
        lemma_first_match_range(s, k, av, from + 1);
    }
}

proof fn lemma_last_max_range(s: Seq<ChildInput>, k: Seq<int>, n: int)
    ensures
        n > 0 ==> (last_max(s, k, n) matches Some(m) && 0 <= m < n),
    decreases n,
{
    if n > 1 {
        lemma_last_max_range(s, k, n - 1);
    } else if n == 1 {
        assert(last_max(s, k, 0) is None);
    }
}

/// Some version directory called like row `v` holds a manifest declaring
/// the version that the row's name carries.
pub open spec fn own_manifest_agrees(s: Seq<ChildInput>, v: VersionView) -> bool {
    exists|i: int|
        0 <= i < s.len() && is_known(#[trigger] s[i]) && s[i].name@ == v.dir
            && manifest_version_of(doc_or_null(s[i].manifest)) == row_key(v)
}

/// What the scan offers for deletion is never the active directory, an
/// unknown-layout directory, or a version other than one strictly older
/// than the one Chrome records as active; only a verified Web Store install offers anything;
/// a row offered carries the reason `candidate` and its own manifest
/// declares the version its name carries; and the active directory is
/// always listed, so one version always stays.
pub proof fn law_scan_protects_active(
    profile: Seq<char>,
    ext_id: Seq<char>,
    s: Seq<ChildInput>,
    pref: Option<PrefsEntry>,
    scan_id: u64,
    c0: nat,
    lang: Seq<char>,
    win: bool,
)
    requires
        spec_extension(profile, ext_id, s, pref, scan_id, c0, lang, win) is Some,
    ensures
        ({
            let e = spec_extension(profile, ext_id, s, pref, scan_id, c0, lang, win).unwrap();
            &&& forall|i: int| 0 <= i < e.versions.len() ==> {
                let v = #[trigger] e.versions[i];
                &&& v.unknown ==> !v.deletable
                &&& v.is_active ==> !v.deletable
                &&& v.deletable ==> {
                    &&& e.verified
                    &&& is_standard(pref)
                    &&& pref_active(pref) matches Some(a)
                    &&& row_key(v) matches Some(t)
                    &&& t.older(a)
                    &&& v.reason == "candidate"@
                    &&& own_manifest_agrees(s, v)
                }
            }
            &&& exists|i: int| 0 <= i < e.versions.len() && #[trigger] e.versions[i].is_active && !e.versions[i].unknown
        }),
{
    let e = spec_extension(profile, ext_id, s, pref, scan_id, c0, lang, win).unwrap();
    let k = known_idx(s);
    let u = unknown_idx(s);
    let av = pref_active(pref);
    lemma_idx_facts(s);
    lemma_first_match_range(s, k, av, 0);
    lemma_last_max_range(s, k, k.len() as int);
    let choice = active_choice(s, k, av).unwrap();
    let active = s[k[choice.0]];
    let verified = is_verified(active, choice.1, pref, win);
    let rows = classify_rows(s, scan_id, c0, pref, win);
    let gb = |a: VersionView, b: VersionView| newest_first(a, b);
    assert(0 <= choice.0 < k.len());
    assert forall|j: int| 0 <= j < rows.len() implies {
        let v = #[trigger] rows[j];
        &&& v.unknown ==> !v.deletable
        &&& v.is_active ==> !v.deletable
        &&& v.deletable ==> {
            &&& verified
            &&& is_standard(pref)
            &&& pref_active(pref) matches Some(a)
            &&& row_key(v) matches Some(t)
            &&& t.older(a)
            &&& v.reason == "candidate"@
            &&& own_manifest_agrees(s, v)
        }
    } by {
        if j < k.len() {
            let c = s[k[j]];
            assert(is_known(c));
            assert(rows[j] == known_row(c, (c0 + j + 1) as nat, scan_id, active.name@, verified, is_standard(pref), av));
            if rows[j].deletable {
                assert(is_known(s[k[j]]) && s[k[j]].name@ == rows[j].dir);
                assert(row_key(rows[j]) == Some(child_version(c)));
            }
        } else {
            assert(rows[j] == unknown_row(s[u[j - k.len()]], (c0 + k.len() + (j - k.len()) + 1) as nat, scan_id));
        }
    }
    assert(rows[choice.0].is_active && !rows[choice.0].unknown);
    crate::order::lemma_sort_permutes(rows, gb);
    let sorted = stable_sort(rows, gb);
    assert(e.versions == sorted);
    assert forall|i: int| 0 <= i < sorted.len() implies {
        let v = #[trigger] sorted[i];
        &&& v.unknown ==> !v.deletable
        &&& v.is_active ==> !v.deletable
        &&& v.deletable ==> {
            &&& e.verified
            &&& is_standard(pref)
            &&& pref_active(pref) matches Some(a)
            &&& row_key(v) matches Some(t)
            &&& t.older(a)
            &&& v.reason == "candidate"@
            &&& own_manifest_agrees(s, v)
        }
    } by {
        assert(rows.contains(sorted[i]));
        let j = choose|j: int| 0 <= j < rows.len() && rows[j] == sorted[i];
        assert(rows[j] == sorted[i]);
    }
    assert(sorted.contains(rows[choice.0]));
    let i = choose|i: int| 0 <= i < sorted.len() && sorted[i] == rows[choice.0];
    assert(sorted[i].is_active && !sorted[i].unknown);
}

/// Candidate ids of one scan name their numbers: equal ids, equal numbers.
pub proof fn lemma_cid_injective(scan_id: u64, n1: nat, n2: nat)
    requires
        cid_text(scan_id, n1) == cid_text(scan_id, n2),
    ensures
        n1 == n2,
{
    let pre = "s"@ + dec_digits(scan_id as nat) + "c"@;
    let a = cid_text(scan_id, n1);
    let b = cid_text(scan_id, n2);
    assert(a == pre + dec_digits(n1));
    assert(b == pre + dec_digits(n2));
    assert(dec_digits(n1) =~= a.skip(pre.len() as int));
    assert(dec_digits(n2) =~= b.skip(pre.len() as int));
    crate::text::lemma_dec_digits_value(n1);
    crate::text::lemma_dec_digits_value(n2);
}

/// The rows of an extension are numbered consecutively after `c0`.
proof fn lemma_rows_numbered(s: Seq<ChildInput>, scan_id: u64, c0: nat, pref: Option<PrefsEntry>, win: bool)
    requires
        known_idx(s).len() > 0,
    ensures
        classify_rows(s, scan_id, c0, pref, win).len() == known_idx(s).len() + unknown_idx(s).len(),
        forall|j: int| 0 <= j < classify_rows(s, scan_id, c0, pref, win).len()
            ==> (#[trigger] classify_rows(s, scan_id, c0, pref, win)[j]).cid == cid_text(scan_id, (c0 + j + 1) as nat),
{
    let k = known_idx(s);
    let u = unknown_idx(s);
    let rows = classify_rows(s, scan_id, c0, pref, win);
    assert forall|j: int| 0 <= j < rows.len() implies (#[trigger] rows[j]).cid == cid_text(scan_id, (c0 + j + 1) as nat) by {
        if j >= k.len() {
            assert((c0 + k.len() + (j - k.len()) + 1) as nat == (c0 + j + 1) as nat);
        }
    }
}

/// The ids an extension reports are numbered in `(c0, c0 + n_versions]`
/// and distinct.
pub(crate) proof fn lemma_extension_ids(profile: Seq<char>, ext_id: Seq<char>, s: Seq<ChildInput>, pref: Option<PrefsEntry>, scan_id: u64, c0: nat, lang: Seq<char>, win: bool)
    requires
        spec_extension(profile, ext_id, s, pref, scan_id, c0, lang, win) is Some,
    ensures
        ({
            let e = spec_extension(profile, ext_id, s, pref, scan_id, c0, lang, win).unwrap();
            &&& crate::order::keys_distinct(e.versions, |v: VersionView| v.cid)
            &&& forall|i: int| 0 <= i < e.versions.len() ==> exists|m: nat| c0 < m <= c0 + e.n_versions
                && (#[trigger] e.versions[i]).cid == cid_text(scan_id, m)
        }),
{
    let e = spec_extension(profile, ext_id, s, pref, scan_id, c0, lang, win).unwrap();
    let rows = classify_rows(s, scan_id, c0, pref, win);
    let gb = |a: VersionView, b: VersionView| newest_first(a, b);
    let key = |v: VersionView| v.cid;
    lemma_rows_numbered(s, scan_id, c0, pref, win);
    assert(crate::order::keys_distinct(rows, key)) by {
        assert forall|i: int, j: int| 0 <= i < rows.len() && 0 <= j < rows.len() && i != j implies key(#[trigger] rows[i]) != key(#[trigger] rows[j]) by {
            if rows[i].cid == rows[j].cid {
                lemma_cid_injective(scan_id, (c0 + i + 1) as nat, (c0 + j + 1) as nat);
            }
        }
    }
    crate::order::lemma_sort_keys_distinct(rows, gb, key);
    crate::order::lemma_sort_permutes(rows, gb);
    let sorted = stable_sort(rows, gb);
    assert(e.versions == sorted);
    assert forall|i: int| 0 <= i < sorted.len() implies exists|m: nat| c0 < m <= c0 + e.n_versions
        && (#[trigger] sorted[i]).cid == cid_text(scan_id, m) by {
        assert(rows.contains(sorted[i]));
        let j = choose|j: int| 0 <= j < rows.len() && rows[j] == sorted[i];
        assert(rows[j].cid == cid_text(scan_id, (c0 + j + 1) as nat));
    }
}

/// Snapshot records take their ids from deletable rows, in row order.
pub(crate) proof fn lemma_records_keys(rows: Seq<VersionView>, s: Seq<ChildInput>, e: ExtensionView)
    ensures
        candidate_records(rows, s, e).len() <= rows.len(),
        forall|i: int| 0 <= i < candidate_records(rows, s, e).len() ==> exists|j: int| 0 <= j < rows.len()
            && (#[trigger] candidate_records(rows, s, e)[i]).0 == rows[j].cid,
        crate::order::keys_distinct(rows, |v: VersionView| v.cid) ==> crate::order::keys_distinct(
            candidate_records(rows, s, e),
            |r: (Seq<char>, RecordView)| r.0,
        ),
    decreases rows.len(),
{
    let recs = candidate_records(rows, s, e);
    if rows.len() > 0 {
        let t = rows.drop_last();
        let v = rows.last();
        lemma_records_keys(t, s, e);
        let prev = candidate_records(t, s, e);
        assert forall|i: int| 0 <= i < recs.len() implies exists|j: int| 0 <= j < rows.len()
            && (#[trigger] recs[i]).0 == rows[j].cid by {
            if i < prev.len() {
                assert(recs[i] == prev[i]);
                let j = choose|j: int| 0 <= j < t.len() && prev[i].0 == t[j].cid;
                assert(rows[j] == t[j]);
            } else {
                assert(recs[i].0 == rows[rows.len() - 1].cid);
            }
        }
        if crate::order::keys_distinct(rows, |v: VersionView| v.cid) {
            assert(crate::order::keys_distinct(t, |v: VersionView| v.cid)) by {
                assert forall|i: int, j: int| 0 <= i < t.len() && 0 <= j < t.len() && i != j implies (#[trigger] t[i]).cid != (#[trigger] t[j]).cid by {
                    assert(t[i] == rows[i] && t[j] == rows[j]);
                }
            }
            if v.deletable {
                assert forall|i: int| 0 <= i < prev.len() implies (#[trigger] prev[i]).0 != v.cid by {
                    let j = choose|j: int| 0 <= j < t.len() && prev[i].0 == t[j].cid;
                    assert(rows[j] == t[j]);
                    assert(rows[rows.len() - 1] == v);
                }
                assert forall|i: int, j: int| 0 <= i < recs.len() && 0 <= j < recs.len() && i != j implies (#[trigger] recs[i]).0 != (#[trigger] recs[j]).0 by {
                    if i < prev.len() && j < prev.len() {
                        assert(recs[i] == prev[i] && recs[j] == prev[j]);
                    } else if i < prev.len() {
                        assert(recs[i] == prev[i]);
                    } else {
                        assert(recs[j] == prev[j]);
                    }
                }
            }
        }
    }
}

/// Candidate ids never carry a path: `s<scan>c<n>` holds only the letters
/// `s` and `c` and decimal digits.
pub proof fn law_cid_is_not_a_path(scan_id: u64, n: nat)
    ensures
        !cid_text(scan_id, n).contains('/'),
        !cid_text(scan_id, n).contains('\\'),
        forall|i: int| 0 <= i < cid_text(scan_id, n).len() ==> {
            let c = #[trigger] cid_text(scan_id, n)[i];
            c == 's' || c == 'c' || crate::text::is_digit(c)
        },
{
    let a = dec_digits(scan_id as nat);
    let b = dec_digits(n);
    crate::text::lemma_dec_digits_are_digits(scan_id as nat);
    crate::text::lemma_dec_digits_are_digits(n);
    let t = cid_text(scan_id, n);
    reveal_strlit("s");
    reveal_strlit("c");
    assert(t =~= seq!['s'] + a + seq!['c'] + b);
    assert forall|i: int| 0 <= i < t.len() implies {
        let c = #[trigger] t[i];
        c == 's' || c == 'c' || crate::text::is_digit(c)
    } by {
        if i == 0 {
        } else if i < 1 + a.len() {
            assert(t[i] == a[i - 1]);
        } else if i == 1 + a.len() {
        } else {
            assert(t[i] == b[i - 2 - a.len()]);
        }
    }
}

/// Rows offered for deletion carry the reason `candidate`.
proof fn lemma_deletable_rows_are_candidates(s: Seq<ChildInput>, scan_id: u64, c0: nat, pref: Option<PrefsEntry>, win: bool)
    requires
        known_idx(s).len() > 0,
    ensures
        forall|j: int| 0 <= j < classify_rows(s, scan_id, c0, pref, win).len()
            && (#[trigger] classify_rows(s, scan_id, c0, pref, win)[j]).deletable
            ==> classify_rows(s, scan_id, c0, pref, win)[j].reason == "candidate"@,
{
    let k = known_idx(s);
    let av = pref_active(pref);
    lemma_idx_facts(s);
    lemma_first_match_range(s, k, av, 0);
    lemma_last_max_range(s, k, k.len() as int);
    let rows = classify_rows(s, scan_id, c0, pref, win);
    let choice = active_choice(s, k, av).unwrap();
    let active = s[k[choice.0]];
    let verified = is_verified(active, choice.1, pref, win);
    assert forall|j: int| 0 <= j < rows.len() && (#[trigger] rows[j]).deletable implies rows[j].reason == "candidate"@ by {
        if j < k.len() {
            assert(rows[j] == known_row(s[k[j]], (c0 + j + 1) as nat, scan_id, active.name@, verified, is_standard(pref), av));
        }
    }
}

/// The snapshot records of one extension are its deletable rows, each with
/// the reason `candidate`.
pub(crate) proof fn lemma_extension_records_are_candidates(profile: Seq<char>, ext_id: Seq<char>, s: Seq<ChildInput>, pref: Option<PrefsEntry>, scan_id: u64, c0: nat, lang: Seq<char>, win: bool)
    requires
        spec_extension(profile, ext_id, s, pref, scan_id, c0, lang, win) is Some,
    ensures
        ({
            let e = spec_extension(profile, ext_id, s, pref, scan_id, c0, lang, win).unwrap();
            forall|i: int| 0 <= i < candidate_records(e.versions, s, e).len()
                ==> (#[trigger] candidate_records(e.versions, s, e)[i]).1.reason == "candidate"@
        }),
{
    let e = spec_extension(profile, ext_id, s, pref, scan_id, c0, lang, win).unwrap();
    let rows = classify_rows(s, scan_id, c0, pref, win);
    let gb = |a: VersionView, b: VersionView| newest_first(a, b);
    lemma_deletable_rows_are_candidates(s, scan_id, c0, pref, win);
    crate::order::lemma_sort_permutes(rows, gb);
    let sorted = stable_sort(rows, gb);
    assert(e.versions == sorted);
    assert forall|i: int| 0 <= i < sorted.len() && (#[trigger] sorted[i]).deletable implies sorted[i].reason == "candidate"@ by {
        assert(rows.contains(sorted[i]));
        let j = choose|j: int| 0 <= j < rows.len() && rows[j] == sorted[i];
        assert(rows[j].deletable);
    }
    lemma_records_from_deletable(sorted, s, e);
}

proof fn lemma_records_from_deletable(rows: Seq<VersionView>, s: Seq<ChildInput>, e: ExtensionView)
    requires
        forall|i: int| 0 <= i < rows.len() && (#[trigger] rows[i]).deletable ==> rows[i].reason == "candidate"@,
    ensures
        forall|i: int| 0 <= i < candidate_records(rows, s, e).len()
            ==> (#[trigger] candidate_records(rows, s, e)[i]).1.reason == "candidate"@,
    decreases rows.len(),
{
    if rows.len() > 0 {
        let t = rows.drop_last();
        assert forall|i: int| 0 <= i < t.len() && (#[trigger] t[i]).deletable implies t[i].reason == "candidate"@ by {
            assert(t[i] == rows[i]);
        }
        lemma_records_from_deletable(t, s, e);
        let prev = candidate_records(t, s, e);
        let recs = candidate_records(rows, s, e);
        assert forall|i: int| 0 <= i < recs.len() implies (#[trigger] recs[i]).1.reason == "candidate"@ by {
            if i < prev.len() {
                assert(recs[i] == prev[i]);
            } else {
                assert(rows[rows.len() - 1].deletable);
            }
        }
    }
}

/// The UI language of the scan followed by every UI language the app ships.
pub open spec fn scan_languages(lang: Seq<char>) -> Seq<Seq<char>> {
    seq![lang] + ui_locales()
}

/// A version directory's locale catalogs a scan may consult: every locale
/// of the fallback chain of each language in `scan_languages`, given the
/// manifest's `default_locale`.
pub open spec fn needed_locale(lang: Seq<char>, manifest: JsonValue, l: Seq<char>) -> bool {
    exists|t: int| 0 <= t < scan_languages(lang).len()
        && spec_locale_chain(scan_languages(lang)[t], member_str(manifest.spec_get("default_locale"@))).contains(l)
}

/// Locales whose `_locales/<locale>/messages.json` a scan in `lang` may read
/// for a version directory with this manifest, each listed once.
pub fn catalog_locales(lang: &str, manifest: &JsonValue) -> (r: Vec<String>)
    ensures
        forall|l: Seq<char>| strings_view(r@).contains(l) <==> needed_locale(lang@, *manifest, l),
        forall|i: int, j: int| 0 <= i < j < r@.len() ==> r@[i]@ != r@[j]@,
{
    let def: Option<&str> = match manifest.get("default_locale") {
        Some(v) => v.as_str(),
        None => None,
    };
    let ghost gdef = member_str(manifest.spec_get("default_locale"@));
    assert(gdef == match def {
        Some(d) => Some(d@),
        None => None::<Seq<char>>,
    });
    let tags = vec![
        lang.to_owned(),
        String::from_str("en"),
        String::from_str("zh-CN"),
        String::from_str("zh-TW"),
        String::from_str("ko"),
        String::from_str("ja"),
        String::from_str("de"),
        String::from_str("fr"),
        String::from_str("es"),
        String::from_str("pt-BR"),
        String::from_str("ru"),
    ];
    let ghost langs = scan_languages(lang@);
    assert(strings_view(tags@) =~= langs);
    let mut out: Vec<String> = Vec::new();
    let mut t: usize = 0;
    while t < tags.len()
        invariant
            t <= tags@.len(),
            strings_view(tags@) == langs,
            langs == scan_languages(lang@),
            gdef == member_str(manifest.spec_get("default_locale"@)),
            gdef == match def {
                Some(d) => Some(d@),
                None => None::<Seq<char>>,
            },
            forall|i: int, j: int| 0 <= i < j < out@.len() ==> out@[i]@ != out@[j]@,
            forall|l: Seq<char>| strings_view(out@).contains(l) <==> exists|u: int| 0 <= u < t
                && spec_locale_chain(#[trigger] langs[u], gdef).contains(l),
        decreases tags@.len() - t,
    {
        let chain = locale_chain(tags[t].as_str(), def);
        assert(langs[t as int] == tags@[t as int]@);
        let ghost cv = spec_locale_chain(langs[t as int], gdef);
        assert(strings_view(chain@) == cv);
        let ghost before = strings_view(out@);
        let mut k: usize = 0;
        while k < chain.len()
            invariant
                k <= chain@.len(),
                strings_view(chain@) == cv,
                forall|i: int, j: int| 0 <= i < j < out@.len() ==> out@[i]@ != out@[j]@,
                forall|l: Seq<char>| strings_view(out@).contains(l) <==> (before.contains(l)
                    || cv.take(k as int).contains(l)),
            decreases chain@.len() - k,
        {
            let ghost prev = strings_view(out@);
            assert forall|l: Seq<char>| prev.contains(l) <==> (before.contains(l) || cv.take(k as int).contains(l)) by {
                assert(strings_view(out@).contains(l) <==> (before.contains(l) || cv.take(k as int).contains(l)));
            }
            let ghost x = cv[k as int];
            assert(x == chain@[k as int]@);
            assert(cv.take(k + 1) =~= cv.take(k as int).push(x));
            if !crate::state::contains_str(&out, chain[k].as_str()) {
                out.push(chain[k].clone());
                assert(strings_view(out@) =~= prev.push(x));
                assert forall|i: int, j: int| 0 <= i < j < out@.len() implies out@[i]@ != out@[j]@ by {
                    if j == out@.len() - 1 {
                        assert(prev[i] == out@[i]@);
                    }
                }
            } else {
                assert(crate::state::strs_view(out@) == prev);
                assert(prev.contains(x));
            }
            proof {
                lemma_push_contains(cv.take(k as int), x);
                lemma_push_contains(prev, x);
            }
            assert forall|l: Seq<char>| strings_view(out@).contains(l) <==> (prev.contains(l) || l == x) by {
                if !prev.contains(x) {
                    assert(strings_view(out@) == prev.push(x));
                } else if l == x {
                    assert(prev.contains(l));
                }
            }
            assert forall|l: Seq<char>| strings_view(out@).contains(l) <==> (before.contains(l)
                || cv.take(k + 1).contains(l)) by {
                assert(strings_view(out@).contains(l) <==> (prev.contains(l) || l == x));
                assert(prev.contains(l) <==> (before.contains(l) || cv.take(k as int).contains(l)));
                assert(cv.take(k + 1) == cv.take(k as int).push(x));
                assert(cv.take(k as int).push(x).contains(l) <==> (cv.take(k as int).contains(l) || l == x));
            }
            k = k + 1;
        }
        assert(cv.take(cv.len() as int) =~= cv);
        assert forall|l: Seq<char>| strings_view(out@).contains(l) <==> exists|u: int| 0 <= u < t + 1
            && spec_locale_chain(#[trigger] langs[u], gdef).contains(l) by {
            if exists|u: int| 0 <= u < t + 1 && spec_locale_chain(#[trigger] langs[u], gdef).contains(l) {
                let u = choose|u: int| 0 <= u < t + 1 && spec_locale_chain(#[trigger] langs[u], gdef).contains(l);
                if u < t {
                    assert(before.contains(l));
                }
            }
            if before.contains(l) {
                let u = choose|u: int| 0 <= u < t && spec_locale_chain(#[trigger] langs[u], gdef).contains(l);
                assert(0 <= u < t + 1);
            }
        }
        t = t + 1;
    }
    out
}

proof fn lemma_push_contains(s: Seq<Seq<char>>, x: Seq<char>)
    ensures
        forall|l: Seq<char>| #[trigger] s.push(x).contains(l) <==> (s.contains(l) || l == x),
{
    assert forall|l: Seq<char>| #[trigger] s.push(x).contains(l) <==> (s.contains(l) || l == x) by {
        if s.push(x).contains(l) {
            let w = choose|w: int| 0 <= w < s.push(x).len() && #[trigger] s.push(x)[w] == l;
            if w < s.len() {
                assert(s[w] == l);
            }
        }
        if s.contains(l) {
            let w = choose|w: int| 0 <= w < s.len() && #[trigger] s[w] == l;
            assert(s.push(x)[w] == l);
        }
        if l == x {
            assert(s.push(x)[s.len() as int] == l);
        }
    }
}

proof fn lemma_known_idx_empty(s: Seq<ChildInput>)
    ensures
        known_idx(s).len() == 0 <==> forall|i: int| 0 <= i < s.len() ==> !is_known(#[trigger] s[i]),
    decreases s.len(),
{
    if s.len() > 0 {
        lemma_known_idx_empty(s.drop_last());
        if known_idx(s).len() == 0 {
            assert forall|i: int| 0 <= i < s.len() implies !is_known(#[trigger] s[i]) by {
                if i < s.len() - 1 {
                    assert(s[i] == s.drop_last()[i]);
                }
            }
        } else if !is_known(s.last()) {
            let i = choose|i: int| 0 <= i < s.drop_last().len() && is_known(#[trigger] s.drop_last()[i]);
            assert(s[i] == s.drop_last()[i]);
        }
    }
}

proof fn lemma_sum_sizes_by(v: Seq<VersionView>)
    ensures
        sum_sizes(v) == crate::order::sum_by(v, |x: VersionView| x.size as nat),
        sum_deletable(v) == crate::order::sum_by(v, |x: VersionView| if x.deletable { x.size as nat } else { 0 }),
    decreases v.len(),
{
    if v.len() > 0 {
        lemma_sum_sizes_by(v.drop_last());
    }
}

proof fn lemma_insert_newest_first(sorted: Seq<VersionView>, x: VersionView)
    requires
        forall|i: int, j: int| 0 <= i < j < sorted.len() ==> !newest_first(#[trigger] sorted[j], #[trigger] sorted[i]),
    ensures
        ({
            let r = insert_stable(sorted, x, |a: VersionView, b: VersionView| newest_first(a, b));
            forall|i: int, j: int| 0 <= i < j < r.len() ==> !newest_first(#[trigger] r[j], #[trigger] r[i])
        }),
{
    let gb = |a: VersionView, b: VersionView| newest_first(a, b);
    crate::order::lemma_insert_pos(sorted, x, gb);
    let p = crate::order::insert_pos(sorted, x, gb);
    let r = insert_stable(sorted, x, gb);
    assert forall|i: int, j: int| 0 <= i < j < r.len() implies !newest_first(#[trigger] r[j], #[trigger] r[i]) by {
        if j < p {
            assert(r[i] == sorted[i] && r[j] == sorted[j]);
        } else if j == p {
            assert(r[i] == sorted[i]);
            assert(!gb(x, sorted[i]));
        } else if i == p {
            assert(r[j] == sorted[j - 1]);
            assert(gb(x, sorted[p]));
            if j - 1 > p {
                assert(!newest_first(sorted[j - 1], sorted[p]));
            }
        } else if i < p {
            assert(r[i] == sorted[i] && r[j] == sorted[j - 1]);
        } else {
            assert(r[i] == sorted[i - 1] && r[j] == sorted[j - 1]);
        }
    }
}

proof fn lemma_sorted_newest_first(v: Seq<VersionView>)
    ensures
        ({
            let r = stable_sort(v, |a: VersionView, b: VersionView| newest_first(a, b));
            forall|i: int, j: int| 0 <= i < j < r.len() ==> !newest_first(#[trigger] r[j], #[trigger] r[i])
        }),
    decreases v.len(),
{
    if v.len() > 0 {
        lemma_sorted_newest_first(v.drop_last());
        lemma_insert_newest_first(stable_sort(v.drop_last(), |a: VersionView, b: VersionView| newest_first(a, b)), v.last());
    }
}

/// An extension directory is reported exactly when one of its entries is a
/// version directory. It then lists one row per version directory and per
/// unknown-layout directory (`n_versions` of them), newest version first
/// and directories without a version last, each under its own id
/// `s<scan>c<m>` with `m` following the ids handed out before; its total
/// and wasted bytes are the sums of its rows' sizes, over all rows and over
/// the deletable ones.
pub proof fn law_extension_rows(
    profile: Seq<char>,
    ext_id: Seq<char>,
    s: Seq<ChildInput>,
    pref: Option<PrefsEntry>,
    scan_id: u64,
    c0: nat,
    lang: Seq<char>,
    win: bool,
)
    requires
        sum_child_sizes(s) <= u64::MAX,
    ensures
        spec_extension(profile, ext_id, s, pref, scan_id, c0, lang, win) is None
            <==> forall|i: int| 0 <= i < s.len() ==> !is_known(#[trigger] s[i]),
        spec_extension(profile, ext_id, s, pref, scan_id, c0, lang, win) matches Some(e) ==> {
            &&& e.versions.len() == e.n_versions
            &&& e.n_versions == known_idx(s).len() + unknown_idx(s).len()
            &&& e.total_bytes == sum_sizes(e.versions)
            &&& e.waste_bytes == sum_deletable(e.versions)
            &&& crate::order::keys_distinct(e.versions, |v: VersionView| v.cid)
            &&& forall|i: int, j: int| 0 <= i < j < e.versions.len()
                ==> !newest_first(#[trigger] e.versions[j], #[trigger] e.versions[i])
            &&& forall|i: int| 0 <= i < e.versions.len() ==> exists|m: nat| c0 < m <= c0 + e.n_versions
                && (#[trigger] e.versions[i]).cid == cid_text(scan_id, m)
        },
{
    lemma_known_idx_empty(s);
    if let Some(e) = spec_extension(profile, ext_id, s, pref, scan_id, c0, lang, win) {
        let rows = classify_rows(s, scan_id, c0, pref, win);
        let gb = |a: VersionView, b: VersionView| newest_first(a, b);
        lemma_extension_totals(profile, ext_id, s, pref, scan_id, c0, lang, win);
        lemma_extension_ids(profile, ext_id, s, pref, scan_id, c0, lang, win);
        lemma_rows_numbered(s, scan_id, c0, pref, win);
        crate::order::lemma_sort_permutes(rows, gb);
        let k = known_idx(s);
        let u = unknown_idx(s);
        lemma_idx_facts(s);
        let av = pref_active(pref);
        lemma_first_match_range(s, k, av, 0);
        lemma_last_max_range(s, k, k.len() as int);
        let choice = active_choice(s, k, av).unwrap();
        let active = s[k[choice.0]];
        let verified = is_verified(active, choice.1, pref, win);
        let standard = is_standard(pref);
        let kr = Seq::new(k.len(), |j: int| known_row(s[k[j]], (c0 + j + 1) as nat, scan_id, active.name@, verified, standard, av));
        let ur = Seq::new(u.len(), |j: int| unknown_row(s[u[j]], (c0 + k.len() + j + 1) as nat, scan_id));
        assert(rows == kr + ur);
        lemma_sum_sizes_concat(kr, ur);
        lemma_rows_sum(kr, s, k);
        lemma_rows_sum(ur, s, u);
        lemma_sum_prefix(rows, 0);
        lemma_sort_rows_sums(rows);
        lemma_sum_sizes_by(rows);
        lemma_sum_sizes_by(e.versions);
        crate::order::lemma_sort_sum(rows, gb, |x: VersionView| x.size as nat);
        assert(e.versions == stable_sort(rows, gb));
        lemma_sorted_newest_first(rows);
    }
}

/// Some row offered for deletion carries candidate id `cid`.
pub open spec fn offers(rows: Seq<VersionView>, cid: Seq<char>) -> bool {
    exists|j: int| 0 <= j < rows.len() && (#[trigger] rows[j]).deletable && rows[j].cid == cid
}

/// Some snapshot record is bound to candidate id `cid`.
pub open spec fn binds(recs: Seq<(Seq<char>, RecordView)>, cid: Seq<char>) -> bool {
    exists|i: int| 0 <= i < recs.len() && (#[trigger] recs[i]).0 == cid
}

/// The records of an extension bind exactly the ids of its deletable rows.
pub(crate) proof fn lemma_records_bind_offers(rows: Seq<VersionView>, s: Seq<ChildInput>, e: ExtensionView)
    ensures
        forall|cid: Seq<char>| binds(candidate_records(rows, s, e), cid) <==> offers(rows, cid),
    decreases rows.len(),
{
    if rows.len() > 0 {
        let t = rows.drop_last();
        let v = rows.last();
        lemma_records_bind_offers(t, s, e);
        let prev = candidate_records(t, s, e);
        let recs = candidate_records(rows, s, e);
        assert forall|cid: Seq<char>| binds(recs, cid) <==> offers(rows, cid) by {
            assert(binds(prev, cid) <==> offers(t, cid));
            if binds(recs, cid) {
                let i = choose|i: int| 0 <= i < recs.len() && (#[trigger] recs[i]).0 == cid;
                if i < prev.len() {
                    assert(recs[i] == prev[i]);
                    assert(binds(prev, cid));
                    let j = choose|j: int| 0 <= j < t.len() && (#[trigger] t[j]).deletable && t[j].cid == cid;
                    assert(rows[j] == t[j]);
                } else {
                    assert(rows[rows.len() - 1] == v);
                }
            }
            if offers(rows, cid) {
                let j = choose|j: int| 0 <= j < rows.len() && (#[trigger] rows[j]).deletable && rows[j].cid == cid;
                if j < t.len() {
                    assert(t[j] == rows[j]);
                    assert(offers(t, cid));
                    let i = choose|i: int| 0 <= i < prev.len() && (#[trigger] prev[i]).0 == cid;
                    assert(recs[i] == prev[i]);
                } else {
                    assert(recs[recs.len() - 1].0 == cid);
                }
            }
        }
    }
}

/// Some row of `rows` names directory `d`.
pub open spec fn lists_dir(rows: Seq<VersionView>, d: Seq<char>) -> bool {
    exists|i: int| 0 <= i < rows.len() && (#[trigger] rows[i]).dir == d
}

/// Among entries `s`, `d` names a version directory or an unknown-layout
/// directory.
pub open spec fn listable(s: Seq<ChildInput>, d: Seq<char>) -> bool {
    exists|j: int| 0 <= j < s.len() && (is_known(#[trigger] s[j]) || is_unknown(s[j])) && s[j].name@ == d
}

/// Some row of `rows` carries id `cid`.
pub open spec fn lists_cid(rows: Seq<VersionView>, cid: Seq<char>) -> bool {
    exists|i: int| 0 <= i < rows.len() && (#[trigger] rows[i]).cid == cid
}

/// `cid` is `s<scan>c<m>` for some `m` in `(lo, hi]`.
pub open spec fn cid_in_range(scan_id: u64, lo: nat, hi: nat, cid: Seq<char>) -> bool {
    exists|m: nat| lo < m <= hi && cid == #[trigger] cid_text(scan_id, m)
}

proof fn lemma_idx_complete(s: Seq<ChildInput>)
    ensures
        forall|j: int| 0 <= j < s.len() && is_known(#[trigger] s[j])
            ==> exists|q: int| 0 <= q < known_idx(s).len() && #[trigger] known_idx(s)[q] == j,
        forall|j: int| 0 <= j < s.len() && is_unknown(#[trigger] s[j])
            ==> exists|q: int| 0 <= q < unknown_idx(s).len() && #[trigger] unknown_idx(s)[q] == j,
    decreases s.len(),
{
    if s.len() > 0 {
        let t = s.drop_last();
        lemma_idx_complete(t);
        let n = s.len() - 1;
        assert(s[n] == s.last());
        assert forall|j: int| 0 <= j < s.len() && is_known(#[trigger] s[j])
            implies exists|q: int| 0 <= q < known_idx(s).len() && #[trigger] known_idx(s)[q] == j by {
            if j < n {
                assert(s[j] == t[j]);
                let q = choose|q: int| 0 <= q < known_idx(t).len() && #[trigger] known_idx(t)[q] == j;
                if is_known(s.last()) {
                    assert(known_idx(s)[q] == known_idx(t)[q]);
                } else {
                    assert(known_idx(s) == known_idx(t));
                }
            } else {
                assert(known_idx(s)[known_idx(t).len() as int] == j);
            }
        }
        assert forall|j: int| 0 <= j < s.len() && is_unknown(#[trigger] s[j])
            implies exists|q: int| 0 <= q < unknown_idx(s).len() && #[trigger] unknown_idx(s)[q] == j by {
            if j < n {
                assert(s[j] == t[j]);
                let q = choose|q: int| 0 <= q < unknown_idx(t).len() && #[trigger] unknown_idx(t)[q] == j;
                if is_unknown(s.last()) {
                    assert(unknown_idx(s)[q] == unknown_idx(t)[q]);
                } else {
                    assert(unknown_idx(s) == unknown_idx(t));
                }
            } else {
                assert(unknown_idx(s)[unknown_idx(t).len() as int] == j);
            }
        }
    }
}

/// A reported extension lists exactly its version directories and its
/// unknown-layout directories, and the ids its rows carry are exactly
/// `s<scan>c<m>` for `c0 < m <= c0 + n_versions`.
pub proof fn law_extension_lists_exactly(
    profile: Seq<char>,
    ext_id: Seq<char>,
    s: Seq<ChildInput>,
    pref: Option<PrefsEntry>,
    scan_id: u64,
    c0: nat,
    lang: Seq<char>,
    win: bool,
)
    requires
        spec_extension(profile, ext_id, s, pref, scan_id, c0, lang, win) is Some,
    ensures
        ({
            let e = spec_extension(profile, ext_id, s, pref, scan_id, c0, lang, win).unwrap();
            &&& forall|d: Seq<char>| #[trigger] lists_dir(e.versions, d) <==> listable(s, d)
            &&& forall|cid: Seq<char>| #[trigger] lists_cid(e.versions, cid)
                <==> cid_in_range(scan_id, c0, c0 + e.n_versions, cid)
        }),
{
    let e = spec_extension(profile, ext_id, s, pref, scan_id, c0, lang, win).unwrap();
    let k = known_idx(s);
    let u = unknown_idx(s);
    let av = pref_active(pref);
    lemma_idx_facts(s);
    lemma_idx_complete(s);
    lemma_first_match_range(s, k, av, 0);
    lemma_last_max_range(s, k, k.len() as int);
    lemma_rows_numbered(s, scan_id, c0, pref, win);
    let choice = active_choice(s, k, av).unwrap();
    let active = s[k[choice.0]];
    let verified = is_verified(active, choice.1, pref, win);
    let rows = classify_rows(s, scan_id, c0, pref, win);
    let gb = |a: VersionView, b: VersionView| newest_first(a, b);
    crate::order::lemma_sort_permutes(rows, gb);
    let sorted = stable_sort(rows, gb);
    assert(e.versions == sorted);
    assert(rows.len() == e.n_versions);
    assert forall|j: int| 0 <= j < rows.len() implies (#[trigger] rows[j]).dir == (if j < k.len() {
        s[k[j]].name@
    } else {
        s[u[j - k.len()]].name@
    }) by {
        if j < k.len() {
            assert(rows[j] == known_row(s[k[j]], (c0 + j + 1) as nat, scan_id, active.name@, verified, is_standard(pref), av));
        } else {
            assert(rows[j] == unknown_row(s[u[j - k.len()]], (c0 + k.len() + (j - k.len()) + 1) as nat, scan_id));
        }
    }
    assert forall|d: Seq<char>| #[trigger] lists_dir(sorted, d) <==> listable(s, d) by {
        if lists_dir(sorted, d) {
            let i = choose|i: int| 0 <= i < sorted.len() && (#[trigger] sorted[i]).dir == d;
            assert(rows.contains(sorted[i]));
            let j = choose|j: int| 0 <= j < rows.len() && rows[j] == sorted[i];
            assert(rows[j].dir == d);
            if j < k.len() {
                assert(is_known(s[k[j]]));
            } else {
                assert(is_unknown(s[u[j - k.len()]]));
            }
        }
        if listable(s, d) {
            let j = choose|j: int| 0 <= j < s.len() && (is_known(#[trigger] s[j]) || is_unknown(s[j])) && s[j].name@ == d;
            let r = if is_known(s[j]) {
                let q = choose|q: int| 0 <= q < k.len() && #[trigger] k[q] == j;
                q
            } else {
                let q = choose|q: int| 0 <= q < u.len() && #[trigger] u[q] == j;
                k.len() + q
            };
            assert(rows[r].dir == d);
            assert(sorted.contains(rows[r]));
            let i = choose|i: int| 0 <= i < sorted.len() && sorted[i] == rows[r];
            assert(sorted[i].dir == d);
        }
    }
    assert forall|cid: Seq<char>| #[trigger] lists_cid(sorted, cid) <==> cid_in_range(scan_id, c0, c0 + e.n_versions, cid) by {
        if lists_cid(sorted, cid) {
            let i = choose|i: int| 0 <= i < sorted.len() && (#[trigger] sorted[i]).cid == cid;
            assert(rows.contains(sorted[i]));
            let j = choose|j: int| 0 <= j < rows.len() && rows[j] == sorted[i];
            assert(rows[j].cid == cid_text(scan_id, (c0 + j + 1) as nat));
        }
        if cid_in_range(scan_id, c0, c0 + e.n_versions, cid) {
            let m = choose|m: nat| c0 < m <= c0 + e.n_versions && cid == #[trigger] cid_text(scan_id, m);
            let j = m - c0 - 1;
            assert(rows[j].cid == cid_text(scan_id, (c0 + j + 1) as nat));
            assert(sorted.contains(rows[j]));
            let i = choose|i: int| 0 <= i < sorted.len() && sorted[i] == rows[j];
            assert(sorted[i].cid == cid);
        }
    }
}

proof fn lemma_first_match_none(s: Seq<ChildInput>, k: Seq<int>, from: int)
    ensures
        first_match(s, k, None, from) is None,
    decreases k.len() - from,
{
    if 0 <= from < k.len() {
        lemma_first_match_none(s, k, from + 1);
    }
}

/// Age decides deletion by the whole version: in a verified Web Store
/// install, a listed folder other than the active one whose version is
/// strictly older than the one Chrome records as active, and whose
/// manifest declares that version, is offered with the reason `candidate`;
/// and a folder is held back as newer than the active version only when
/// the active version is strictly older than its own.
pub proof fn law_older_versions_are_offered(
    profile: Seq<char>,
    ext_id: Seq<char>,
    s: Seq<ChildInput>,
    pref: Option<PrefsEntry>,
    scan_id: u64,
    c0: nat,
    lang: Seq<char>,
    win: bool,
)
    requires
        spec_extension(profile, ext_id, s, pref, scan_id, c0, lang, win) is Some,
    ensures
        ({
            let e = spec_extension(profile, ext_id, s, pref, scan_id, c0, lang, win).unwrap();
            forall|i: int| 0 <= i < e.versions.len() ==> {
                let v = #[trigger] e.versions[i];
                &&& (!v.is_active && !v.unknown && e.verified && is_standard(pref) && match (pref_active(pref), row_key(v)) {
                    (Some(a), Some(t)) => t.older(a) && forall|j: int| 0 <= j < s.len() && (#[trigger] s[j]).name@ == v.dir
                        ==> manifest_version_of(doc_or_null(s[j].manifest)) == Some(t),
                    _ => false,
                }) ==> v.deletable && v.reason == "candidate"@
                &&& v.reason == "protected:newer-than-active"@ ==> match (pref_active(pref), row_key(v)) {
                    (Some(a), Some(t)) => a.older(t),
                    _ => false,
                }
            }
        }),
{
    reveal_strlit("active");
    reveal_strlit("protected:unverified");
    reveal_strlit("protected:non-standard-install");
    reveal_strlit("protected:newer-than-active");
    reveal_strlit("protected:same-as-active");
    reveal_strlit("candidate");
    reveal_strlit("protected:manifest-mismatch");
    reveal_strlit("protected:unknown-layout");
    let e = spec_extension(profile, ext_id, s, pref, scan_id, c0, lang, win).unwrap();
    let k = known_idx(s);
    let u = unknown_idx(s);
    let av = pref_active(pref);
    lemma_idx_facts(s);
    lemma_first_match_range(s, k, av, 0);
    lemma_last_max_range(s, k, k.len() as int);
    lemma_first_match_none(s, k, 0);
    let choice = active_choice(s, k, av).unwrap();
    let active = s[k[choice.0]];
    let verified = is_verified(active, choice.1, pref, win);
    let standard = is_standard(pref);
    let rows = classify_rows(s, scan_id, c0, pref, win);
    let gb = |a: VersionView, b: VersionView| newest_first(a, b);
    assert(av is None ==> !verified);
    assert forall|j: int| 0 <= j < rows.len() implies {
        let v = #[trigger] rows[j];
        &&& (!v.is_active && !v.unknown && verified && standard && match (av, row_key(v)) {
            (Some(a), Some(t)) => t.older(a) && forall|q: int| 0 <= q < s.len() && (#[trigger] s[q]).name@ == v.dir
                ==> manifest_version_of(doc_or_null(s[q].manifest)) == Some(t),
            _ => false,
        }) ==> v.deletable && v.reason == "candidate"@
        &&& v.reason == "protected:newer-than-active"@ ==> match (av, row_key(v)) {
            (Some(a), Some(t)) => a.older(t),
            _ => false,
        }
    } by {
        if j < k.len() {
            let c = s[k[j]];
            assert(is_known(c));
            assert(rows[j] == known_row(c, (c0 + j + 1) as nat, scan_id, active.name@, verified, standard, av));
            assert(row_key(rows[j]) == Some(child_version(c)));
            assert(s[k[j]].name@ == rows[j].dir);
            let d = decision(c, c.name@ == active.name@, verified, standard, av);
            assert(rows[j].deletable == d.0 && rows[j].reason == d.1);
            assert("active"@[0] != "protected:newer-than-active"@[0]);
            assert("protected:unverified"@[10] != "protected:newer-than-active"@[10]);
            assert("protected:non-standard-install"@[11] != "protected:newer-than-active"@[11]);
            assert("protected:same-as-active"@[10] != "protected:newer-than-active"@[10]);
            assert("candidate"@[0] != "protected:newer-than-active"@[0]);
            assert("protected:manifest-mismatch"@[10] != "protected:newer-than-active"@[10]);
            if let Some(a) = av {
                let t = child_version(c);
                if t.older(a) {
                    assert(!newer_than_active(t, av));
                    assert(Some(t) != av);
                }
            }
        } else {
            assert(rows[j] == unknown_row(s[u[j - k.len()]], (c0 + k.len() + (j - k.len()) + 1) as nat, scan_id));
            assert("protected:unknown-layout"@[10] != "protected:newer-than-active"@[10]);
        }
    }
    crate::order::lemma_sort_permutes(rows, gb);
    let sorted = stable_sort(rows, gb);
    assert(e.versions == sorted);
    assert(e.verified == verified);
    assert forall|i: int| 0 <= i < sorted.len() implies {
        let v = #[trigger] sorted[i];
        &&& (!v.is_active && !v.unknown && e.verified && is_standard(pref) && match (pref_active(pref), row_key(v)) {
            (Some(a), Some(t)) => t.older(a) && forall|q: int| 0 <= q < s.len() && (#[trigger] s[q]).name@ == v.dir
                ==> manifest_version_of(doc_or_null(s[q].manifest)) == Some(t),
            _ => false,
        }) ==> v.deletable && v.reason == "candidate"@
        &&& v.reason == "protected:newer-than-active"@ ==> match (pref_active(pref), row_key(v)) {
            (Some(a), Some(t)) => a.older(t),
            _ => false,
        }
    } by {
        assert(rows.contains(sorted[i]));
        let j = choose|j: int| 0 <= j < rows.len() && rows[j] == sorted[i];
        assert(rows[j] == sorted[i]);
    }
}

proof fn lemma_first_match_hit(s: Seq<ChildInput>, k: Seq<int>, av: Option<ChromeVersion>, from: int)
    ensures
        first_match(s, k, av, from) matches Some(i) ==> Some(child_version(s[k[i]])) == av,
    decreases k.len() - from,
{
    if 0 <= from < k.len() && Some(child_version(s[k[from]])) != av {
        lemma_first_match_hit(s, k, av, from + 1);
    }
}

/// An extension is verified only where Chrome's record and the disk agree:
/// its active row carries the version Chrome records, that folder's own
/// manifest declares it, and Chrome's recorded path, when present, names
/// that folder.
pub proof fn law_verified_means_records_agree(
    profile: Seq<char>,
    ext_id: Seq<char>,
    s: Seq<ChildInput>,
    pref: Option<PrefsEntry>,
    scan_id: u64,
    c0: nat,
    lang: Seq<char>,
    win: bool,
)
    requires
        spec_extension(profile, ext_id, s, pref, scan_id, c0, lang, win) is Some,
    ensures
        ({
            let e = spec_extension(profile, ext_id, s, pref, scan_id, c0, lang, win).unwrap();
            e.verified ==> exists|i: int| {
                &&& 0 <= i < e.versions.len()
                &&& #[trigger] e.versions[i].is_active
                &&& !e.versions[i].unknown
                &&& pref_active(pref) is Some
                &&& row_key(e.versions[i]) == pref_active(pref)
                &&& own_manifest_agrees(s, e.versions[i])
                &&& (pref matches Some(p) && crate::json::opt_view(p.disk_path) matches Some(dp)
                    ==> path_file_name(dp, win) == Some(e.versions[i].dir))
            }
        }),
{
    let e = spec_extension(profile, ext_id, s, pref, scan_id, c0, lang, win).unwrap();
    let k = known_idx(s);
    let av = pref_active(pref);
    lemma_idx_facts(s);
    lemma_first_match_range(s, k, av, 0);
    lemma_first_match_hit(s, k, av, 0);
    lemma_last_max_range(s, k, k.len() as int);
    let choice = active_choice(s, k, av).unwrap();
    let active = s[k[choice.0]];
    let verified = is_verified(active, choice.1, pref, win);
    let rows = classify_rows(s, scan_id, c0, pref, win);
    let gb = |a: VersionView, b: VersionView| newest_first(a, b);
    if e.verified {
        assert(e.verified == verified);
        assert(!choice.1);
        let j = choice.0;
        let v = rows[j];
        assert(v == known_row(active, (c0 + j + 1) as nat, scan_id, active.name@, verified, is_standard(pref), av));
        assert(row_key(v) == Some(child_version(active)));
        assert(Some(child_version(active)) == av);
        assert(is_known(s[k[j]]) && s[k[j]].name@ == v.dir);
        assert(own_manifest_agrees(s, v));
        crate::order::lemma_sort_permutes(rows, gb);
        let sorted = stable_sort(rows, gb);
        assert(e.versions == sorted);
        assert(sorted.contains(v));
        let i = choose|i: int| 0 <= i < sorted.len() && sorted[i] == v;
        assert(sorted[i].is_active);
    }
}

} // verus!
