//! Host environment: where Chrome keeps its data, the installed Chrome
//! version, and Chrome liveness.
//!
//! Liveness is tri-state on purpose: a failed check must surface as
//! `Unknown`, never as "not running".

use vstd::prelude::*;
use crate::text::{str_eq, trim, trim_str};

verus! {

/// Chrome process state. `Unknown` means the probe itself failed.
#[derive(Debug, Clone, Copy, PartialEq, Eq, Structural)]
pub enum ChromeStatus {
    Running,
    Stopped,
    Unknown,
}

/// Liveness from the outcome of probing each candidate process name in
/// turn (`Some(found)`, or `None` when the probe itself failed): running as
/// soon as one probe finds Chrome; otherwise unknown if any probe failed;
/// stopped only when every probe ran and found nothing.
pub open spec fn spec_chrome_status(probes: Seq<Option<bool>>) -> ChromeStatus {
    if probes.contains(Some(true)) {
        ChromeStatus::Running
    } else if probes.contains(None) {
        ChromeStatus::Unknown
    } else {
        ChromeStatus::Stopped
    }
}

/// A failed probe never reads as "not running": `Stopped` is reported only
/// when every probe ran and found no Chrome process.
pub proof fn law_stopped_only_when_every_probe_ran(probes: Seq<Option<bool>>)
    ensures
        spec_chrome_status(probes) == ChromeStatus::Stopped
            <==> forall|i: int| 0 <= i < probes.len() ==> #[trigger] probes[i] == Some(false),
{
    if spec_chrome_status(probes) == ChromeStatus::Stopped {
        assert forall|i: int| 0 <= i < probes.len() implies #[trigger] probes[i] == Some(false) by {
            if probes[i] != Some(false) {
                match probes[i] {
                    Some(b) => assert(probes.contains(Some(true))),
                    None => assert(probes.contains(None)),
                }
            }
        }
    }
}

/// Best-effort liveness check. Never fails closed into `Stopped`.
pub fn chrome_status(probes: &Vec<Option<bool>>) -> (r: ChromeStatus)
    ensures
        r == spec_chrome_status(probes@),
{
    let mut saw_error = false;
    let mut i: usize = 0;
    while i < probes.len()
        invariant
            i <= probes@.len(),
            !probes@.subrange(0, i as int).contains(Some(true)),
            saw_error == probes@.subrange(0, i as int).contains(None),
        decreases probes@.len() - i,
    {
        let ghost pre = probes@.subrange(0, i as int);
        assert(probes@.subrange(0, i + 1) =~= pre.push(probes@[i as int]));
        match probes[i] {
            Some(true) => {
                assert(probes@[i as int] == Some(true));
                assert(probes@.contains(Some(true)));
                return ChromeStatus::Running;
            },
            Some(false) => {},
            None => {
                saw_error = true;
            },
        }
        proof {
            let now = pre.push(probes@[i as int]);
            assert(now.contains(Some(true)) ==> pre.contains(Some(true)) || probes@[i as int]
                == Some(true)) by {
                if now.contains(Some(true)) {
                    let j = choose|j: int| 0 <= j < now.len() && now[j] == Some(true);
                    if j < pre.len() {
                        assert(pre[j] == Some(true));
                    }
                }
            }
            assert(now.contains(None) <==> pre.contains(None) || probes@[i as int] is None) by {
                if now.contains(None) {
                    let j = choose|j: int| 0 <= j < now.len() && now[j] == None::<bool>;
                    if j < pre.len() {
                        assert(pre[j] == None::<bool>);
                    }
                }
                if pre.contains(None) {
                    let j = choose|j: int| 0 <= j < pre.len() && pre[j] == None::<bool>;
                    assert(now[j] == None::<bool>);
                }
                if probes@[i as int] is None {
                    assert(now[i as int] == None::<bool>);
                }
            }
        }
        i = i + 1;
    }
    assert(probes@.subrange(0, probes@.len() as int) =~= probes@);
    if saw_error {
        ChromeStatus::Unknown
    } else {
        ChromeStatus::Stopped
    }
}

/// The Chrome Stable user-data directory `dir` when it exists, else the
/// error that names where we looked.
pub fn user_data_dir(dir: &str, exists: bool) -> (r: Result<String, String>)
    ensures
        match r {
            Ok(d) => exists && d@ == dir@,
            Err(e) => !exists && e@ == "Chrome user-data directory not found: "@ + dir@,
        },
{
    if exists {
        Ok(dir.to_owned())
    } else {
        let mut e = String::from_str("Chrome user-data directory not found: ");
        e.append(dir);
        Err(e)
    }
}

/// First non-blank text among the version sidecar files (`Last Version`,
/// then `RunningChromeVersion`), trimmed.
pub open spec fn first_version_text(texts: Seq<Option<String>>, i: int) -> Option<Seq<char>>
    decreases texts.len() - i,
{
    if i < 0 || i >= texts.len() {
        None
    } else {
        match texts[i] {
            Some(t) => if trim(t@).len() > 0 {
                Some(trim(t@))
            } else {
                first_version_text(texts, i + 1)
            },
            None => first_version_text(texts, i + 1),
        }
    }
}

/// Installed Chrome version from the contents of the version sidecar files
/// (`None` for a file that could not be read).
pub fn chrome_version(texts: &Vec<Option<String>>) -> (r: Option<String>)
    ensures
        match r {
            Some(v) => first_version_text(texts@, 0) == Some(v@),
            None => first_version_text(texts@, 0) is None,
        },
{
    let mut i: usize = 0;
    while i < texts.len()
        invariant
            i <= texts@.len(),
            first_version_text(texts@, 0) == first_version_text(texts@, i as int),
        decreases texts@.len() - i,
    {
        match &texts[i] {
            Some(t) => {
                let v = trim_str(t.as_str());
                if !v.as_str().is_empty() {
                    return Some(v);
                }
            },
            None => {},
        }
        i = i + 1;
    }
    None
}

/// Short human-readable OS label from the platform name (`macos`,
/// `windows`, `linux`, ...) and the release text its system tool printed
/// (`None` when the tool could not be run): `macOS 15.7.2`, `linux 6.8.0`.
pub open spec fn spec_os_label(os: Seq<char>, release: Option<Seq<char>>) -> Seq<char> {
    if os == "macos"@ {
        let r = match release {
            Some(t) => if trim(t).len() > 0 {
                trim(t)
            } else {
                "macOS"@
            },
            None => "macOS"@,
        };
        if r == "macOS"@ {
            r
        } else {
            "macOS "@ + r
        }
    } else if os == "windows"@ {
        "Windows "@ + os
    } else {
        let r = match release {
            Some(t) => trim(t),
            None => Seq::<char>::empty(),
        };
        trim(os + " "@ + r)
    }
}

/// Short human-readable OS label, e.g. `macOS 15.7.2`.
pub fn os_label(os: &str, release: Option<String>) -> (r: String)
    ensures
        r@ == spec_os_label(os@, match release {
            Some(t) => Some(t@),
            None => None,
        }),
{
    if str_eq(os, "macos") {
        let r = match release {
            Some(t) => {
                let v = trim_str(t.as_str());
                if v.as_str().is_empty() {
                    String::from_str("macOS")
                } else {
                    v
                }
            },
            None => String::from_str("macOS"),
        };
        proof {
            reveal_strlit("macOS");
        }
        if str_eq(r.as_str(), "macOS") {
            r
        } else {
            let mut out = String::from_str("macOS ");
            out.append(r.as_str());
            out
        }
    } else if str_eq(os, "windows") {
        let mut out = String::from_str("Windows ");
        out.append(os);
        out
    } else {
        let r = match release {
            Some(t) => trim_str(t.as_str()),
            None => String::new(),
        };
        let mut out = os.to_owned();
        out.append(" ");
        out.append(r.as_str());
        trim_str(out.as_str())
    }
}

/// ASCII lower case of a byte.
pub open spec fn ascii_lower(b: u8) -> u8 {
    if 65 <= b <= 90 {
        (b + 32) as u8
    } else {
        b
    }
}

/// The bytes of `chrome.exe`.
pub open spec fn chrome_exe() -> Seq<u8> {
    seq![99u8, 104u8, 114u8, 111u8, 109u8, 101u8, 46u8, 101u8, 120u8, 101u8]
}

/// Whether the ten bytes of `out` at `i` spell `chrome.exe`, ignoring ASCII case.
pub open spec fn chrome_exe_at(out: Seq<u8>, i: int) -> bool {
    &&& 0 <= i
    &&& i + 10 <= out.len()
    &&& forall|k: int| 0 <= k < 10 ==> #[trigger] ascii_lower(out[i + k]) == chrome_exe()[k]
}

/// Whether `chrome.exe` is spelled at `i` in `out`, ignoring ASCII case.
fn chrome_exe_matches_at(out: &Vec<u8>, pat: &Vec<u8>, i: usize) -> (r: bool)
    requires
        pat@ == chrome_exe(),
        i + 10 <= out@.len(),
    ensures
        r == chrome_exe_at(out@, i as int),
{
    let mut k: usize = 0;
    while k < 10
        invariant
            pat@ == chrome_exe(),
            i + 10 <= out.len(),
            k <= 10,
            forall|m: int| 0 <= m < k ==> #[trigger] ascii_lower(out@[i + m]) == chrome_exe()[m],
        decreases 10 - k,
    {
        let b = out[i + k];
        let lb: u8 = if 65 <= b && b <= 90 {
            b + 32
        } else {
            b
        };
        if lb != pat[k] {
            assert(ascii_lower(out@[i + k]) != chrome_exe()[k as int]);
            return false;
        }
        k = k + 1;
    }
    true
}

/// Whether a process listing (the output of `tasklist`) names
/// `chrome.exe` anywhere, ignoring ASCII case.
pub fn lists_chrome_exe(out: &Vec<u8>) -> (r: bool)
    ensures
        r == exists|i: int| chrome_exe_at(out@, i),
{
    let pat: Vec<u8> = vec![99u8, 104u8, 114u8, 111u8, 109u8, 101u8, 46u8, 101u8, 120u8, 101u8];
    assert(pat@ =~= chrome_exe());
    let n = out.len();
    if n < 10 {
        return false;
    }
    let mut i: usize = 0;
    while i <= n - 10
        invariant
            pat@ == chrome_exe(),
            n == out@.len(),
            10 <= n,
            i <= n - 9,
            forall|j: int| 0 <= j < i ==> !chrome_exe_at(out@, j),
        decreases n - i,
    {
        if chrome_exe_matches_at(out, &pat, i) {
            return true;
        }
        i = i + 1;
    }
    assert forall|j: int| chrome_exe_at(out@, j) implies false by {
        assert(j < i);
    }
    false
}

} // verus!
