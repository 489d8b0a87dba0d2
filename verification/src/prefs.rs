//! `Secure Preferences` parsing: the same record Chrome itself uses.
//!
//! Per extension id we extract the active version, the enablement state and
//! the install origin. Missing or conflicting fields fail closed (Protected).

use vstd::prelude::*;
use crate::json::{ints_in, ints_of, opt_view, parse_text, parsed_text, JsonValue};

verus! {

/// Install origin of an extension, for gating automatic cleanup.
#[derive(Debug, Clone, Copy, PartialEq, Eq, Structural)]
pub enum InstallSource {
    /// `from_webstore == true` and standard installed location.
    WebStoreStandard,
    /// Anything else, including missing fields. Fails closed.
    Other,
}

impl Default for InstallSource {
    fn default() -> (r: InstallSource)
        ensures
            r == InstallSource::Other,
    {
        InstallSource::Other
    }
}

/// What Chrome recorded for one extension.
#[derive(Debug, Clone)]
pub struct PrefsEntry {
    pub name: Option<String>,
    pub version: Option<String>,
    /// Raw `Extensions/<id>/<version>_0`-style relative path, when present.
    pub disk_path: Option<String>,
    pub disable_reasons: Vec<i64>,
    /// Raw install location from Chrome (`extensions.settings.<id>.location`).
    /// `None` when the record is malformed or missing — we never guess.
    pub location: Option<i64>,
    pub install_source: InstallSource,
}

impl Default for PrefsEntry {
    fn default() -> (r: PrefsEntry)
        ensures
            r.name is None,
            r.version is None,
            r.disk_path is None,
            r.disable_reasons@.len() == 0,
            r.location is None,
            r.install_source == InstallSource::Other,
    {
        PrefsEntry {
            name: None,
            version: None,
            disk_path: None,
            disable_reasons: Vec::new(),
            location: None,
            install_source: InstallSource::Other,
        }
    }
}

/// Chrome's `kComponent` and `kExternalComponent` install locations.
pub open spec fn is_component_location(location: Option<i64>) -> bool {
    location == Some(5i64) || location == Some(10i64)
}

/// The install origin Chrome's record implies: only `from_webstore == true`
/// at location 1 is a standard store install.
pub open spec fn install_source_of(from_webstore: Option<bool>, location: Option<i64>) -> InstallSource {
    if from_webstore == Some(true) && location == Some(1i64) {
        InstallSource::WebStoreStandard
    } else {
        InstallSource::Other
    }
}

/// `s` as an optional string member.
pub open spec fn member_str(v: Option<JsonValue>) -> Option<Seq<char>> {
    match v {
        Some(j) => j.spec_as_str(),
        None => None,
    }
}

pub open spec fn member_i64(v: Option<JsonValue>) -> Option<i64> {
    match v {
        Some(j) => j.spec_as_i64(),
        None => None,
    }
}

pub open spec fn member_bool(v: Option<JsonValue>) -> Option<bool> {
    match v {
        Some(j) => j.spec_as_bool(),
        None => None,
    }
}

/// Integer disable reasons recorded in an entry (empty when absent or not an
/// array).
pub open spec fn member_ints(v: Option<JsonValue>) -> Seq<i64> {
    match v {
        Some(JsonValue::Array(a)) => ints_of(a@),
        _ => Seq::<i64>::empty(),
    }
}

/// Member `k2` of member `k1`.
pub open spec fn member2(entry: JsonValue, k1: Seq<char>, k2: Seq<char>) -> Option<JsonValue> {
    entry.spec_get2(k1, k2)
}

/// `p` is what one `extensions.settings.<id>` record says.
pub open spec fn entry_reads(p: PrefsEntry, entry: JsonValue) -> bool {
    &&& opt_view(p.name) == member_str(member2(entry, "manifest"@, "name"@))
    &&& opt_view(p.version) == member_str(member2(entry, "manifest"@, "version"@))
    &&& opt_view(p.disk_path) == member_str(entry.spec_get("path"@))
    &&& p.disable_reasons@ == member_ints(entry.spec_get("disable_reasons"@))
    &&& p.location == member_i64(entry.spec_get("location"@))
    &&& p.install_source == install_source_of(
        member_bool(entry.spec_get("from_webstore"@)),
        member_i64(entry.spec_get("location"@)),
    )
}

/// `out` holds one entry per settings record, in order, each read from it.
pub open spec fn entries_read(out: Seq<(String, PrefsEntry)>, settings: Seq<(String, JsonValue)>) -> bool {
    &&& out.len() == settings.len()
    &&& forall|i: int|
        0 <= i < out.len() ==> (#[trigger] out[i]).0@ == settings[i].0@ && entry_reads(
            out[i].1,
            settings[i].1,
        )
}

/// The `extensions.settings` object of a preferences document, if any.
pub open spec fn settings_of(doc: Option<JsonValue>) -> Option<Seq<(String, JsonValue)>> {
    match doc {
        Some(root) => match root.spec_get2("extensions"@, "settings"@) {
            Some(s) => s.spec_entries(),
            None => None,
        },
        None => None,
    }
}

/// Index of the first document that holds a non-empty settings object.
pub open spec fn first_with_settings(docs: Seq<Option<JsonValue>>, from: int) -> Option<int>
    decreases docs.len() - from,
{
    if from < 0 || from >= docs.len() {
        None
    } else if settings_of(docs[from]) matches Some(s) && s.len() > 0 {
        Some(from)
    } else {
        first_with_settings(docs, from + 1)
    }
}

impl PrefsEntry {
    /// Enabled when no disable reason is recorded.
    pub fn is_enabled(&self) -> (r: bool)
        ensures
            r == (self.disable_reasons@.len() == 0),
    {
        self.disable_reasons.len() == 0
    }

    /// Chrome components (`kComponent` = 5, `kExternalComponent` = 10) are
    /// internal implementation details — Chrome hides them from its own
    /// management UI, so we skip them entirely rather than show a row that can
    /// never be cleaned. Only consulted when a prefs record actually exists; a
    /// missing record falls through to displaying (fail-safe), never hiding.
    pub fn is_component(&self) -> (r: bool)
        ensures
            r == is_component_location(self.location),
    {
        match self.location {
            Some(l) => l == 5 || l == 10,
            None => false,
        }
    }
}

fn member_string(v: Option<&JsonValue>) -> (r: Option<String>)
    ensures
        opt_view(r) == member_str(
            match v {
                Some(j) => Some(*j),
                None => None,
            },
        ),
{
    match v {
        Some(j) => match j.as_str() {
            Some(s) => Some(s.to_owned()),
            None => None,
        },
        None => None,
    }
}

fn member_of<'a>(v: Option<&'a JsonValue>, key: &str) -> (r: Option<&'a JsonValue>)
    ensures
        match v {
            Some(j) => match r {
                Some(x) => j.spec_get(key@) == Some(*x),
                None => j.spec_get(key@) is None,
            },
            None => r is None,
        },
{
    match v {
        Some(j) => j.get(key),
        None => None,
    }
}

/// Read one `extensions.settings.<id>` record.
pub fn parse_entry(entry: &JsonValue) -> (p: PrefsEntry)
    ensures
        entry_reads(p, *entry),
{
    let manifest = entry.get("manifest");
    let version = member_string(member_of(manifest, "version"));
    let name = member_string(member_of(manifest, "name"));
    let disable_reasons = match entry.get("disable_reasons") {
        Some(JsonValue::Array(a)) => ints_in(a),
        _ => Vec::new(),
    };
    let from_webstore = match entry.get("from_webstore") {
        Some(v) => v.as_bool(),
        None => None,
    };
    let from_webstore_flag = match from_webstore {
        Some(b) => b,
        None => false,
    };
    let location = match entry.get("location") {
        Some(v) => v.as_i64(),
        None => None,
    };
    let install_source = if from_webstore_flag && location == Some(1i64) {
        InstallSource::WebStoreStandard
    } else {
        InstallSource::Other
    };
    let disk_path = member_string(entry.get("path"));
    PrefsEntry { name, version, disk_path, disable_reasons, location, install_source }
}

/// Turn an `extensions.settings` object into prefs entries, keyed by
/// extension id in document order.
pub fn parse_entries(settings: &Vec<(String, JsonValue)>) -> (out: Vec<(String, PrefsEntry)>)
    ensures
        entries_read(out@, settings@),
{
    let mut out: Vec<(String, PrefsEntry)> = Vec::new();
    let mut i: usize = 0;
    while i < settings.len()
        invariant
            i <= settings@.len(),
            entries_read(out@, settings@.subrange(0, i as int)),
        decreases settings@.len() - i,
    {
        let id = settings[i].0.clone();
        let p = parse_entry(&settings[i].1);
        out.push((id, p));
        i = i + 1;
        assert(entries_read(out@, settings@.subrange(0, i as int))) by {
            assert forall|k: int| 0 <= k < out@.len() implies (#[trigger] out@[k]).0@
                == settings@.subrange(0, i as int)[k].0@ && entry_reads(
                out@[k].1,
                settings@.subrange(0, i as int)[k].1,
            ) by {
                if k < i - 1 {
                    assert(settings@.subrange(0, i as int)[k] == settings@.subrange(
                        0,
                        i - 1,
                    )[k]);
                }
            }
        }
    }
    assert(settings@.subrange(0, settings@.len() as int) =~= settings@);
    out
}

/// Chrome keeps protected preferences in a different file per platform, at
/// the same version. On macOS `extensions.settings` lives in
/// `Secure Preferences`; on Linux it stays inline in `Preferences` while
/// `Secure Preferences` is a stub. Given the parsed documents in order of
/// authority (`None` for a file that is missing or not JSON), the first one
/// whose settings object is non-empty wins; when none holds settings the
/// result is empty and the caller fails closed.
pub fn prefs_from_documents(docs: &Vec<Option<JsonValue>>) -> (out: Vec<(String, PrefsEntry)>)
    ensures
        match first_with_settings(docs@, 0) {
            Some(k) => entries_read(out@, settings_of(docs@[k]).unwrap()),
            None => out@.len() == 0,
        },
{
    let mut i: usize = 0;
    while i < docs.len()
        invariant
            i <= docs@.len(),
            first_with_settings(docs@, 0) == first_with_settings(docs@, i as int),
        decreases docs@.len() - i,
    {
        let settings = match &docs[i] {
            Some(root) => match root.get("extensions") {
                Some(ext) => match ext.get("settings") {
                    Some(s) => s.as_object(),
                    None => None,
                },
                None => None,
            },
            None => None,
        };
        match settings {
            Some(s) => {
                let out = parse_entries(s);
                if out.len() > 0 {
                    return out;
                }
            },
            None => {},
        }
        i = i + 1;
    }
    Vec::new()
}

/// The documents in the preference files' texts, in order (`None` for a
/// file that could not be read or is not JSON).
pub open spec fn parsed_documents(texts: Seq<Option<String>>) -> Seq<Option<JsonValue>> {
    Seq::new(texts.len(), |i: int| parsed_text(texts[i]))
}

/// Map extension id -> prefs entry, from the texts of the preference files
/// in order of authority (`Secure Preferences`, then `Preferences`; `None`
/// for a file that could not be read): the first document whose
/// `extensions.settings` object is non-empty wins; empty when none holds
/// settings (the caller fails closed).
pub fn load_secure_prefs(texts: &Vec<Option<String>>) -> (out: Vec<(String, PrefsEntry)>)
    ensures
        match first_with_settings(parsed_documents(texts@), 0) {
            Some(k) => entries_read(out@, settings_of(parsed_documents(texts@)[k]).unwrap()),
            None => out@.len() == 0,
        },
{
    let mut docs: Vec<Option<JsonValue>> = Vec::new();
    let mut i: usize = 0;
    while i < texts.len()
        invariant
            i <= texts@.len(),
            docs@ =~= parsed_documents(texts@).take(i as int),
        decreases texts@.len() - i,
    {
        docs.push(parse_text(&texts[i]));
        assert(docs@ =~= parsed_documents(texts@).take(i + 1));
        i = i + 1;
    }
    assert(docs@ =~= parsed_documents(texts@));
    prefs_from_documents(&docs)
}

/// First prefs entry recorded for `id`.
pub open spec fn prefs_get(prefs: Seq<(String, PrefsEntry)>, id: Seq<char>) -> Option<PrefsEntry>
    decreases prefs.len(),
{
    if prefs.len() == 0 {
        None
    } else if prefs[0].0@ == id {
        Some(prefs[0].1)
    } else {
        prefs_get(prefs.drop_first(), id)
    }
}

/// The prefs entry recorded for `id`.
pub fn prefs_lookup<'a>(prefs: &'a Vec<(String, PrefsEntry)>, id: &str) -> (r: Option<&'a PrefsEntry>)
    ensures
        match r {
            Some(p) => prefs_get(prefs@, id@) == Some(*p),
            None => prefs_get(prefs@, id@) is None,
        },
{
    let mut i: usize = 0;
    assert(prefs@.skip(0) =~= prefs@);
    while i < prefs.len()
        invariant
            i <= prefs@.len(),
            prefs_get(prefs@, id@) == prefs_get(prefs@.skip(i as int), id@),
        decreases prefs@.len() - i,
    {
        if crate::text::str_eq(prefs[i].0.as_str(), id) {
            return Some(&prefs[i].1);
        }
        assert(prefs@.skip(i as int).drop_first() =~= prefs@.skip(i + 1));
        i = i + 1;
    }
    None
}

} // verus!
