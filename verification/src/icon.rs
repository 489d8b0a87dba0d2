//! Extension icons: which file a manifest declares, and the `data:` URI the
//! frontend displays.

use vstd::prelude::*;
use crate::json::JsonValue;
use crate::text::{all_digits, chars_of, decimal_value, trim_start_char, leading_char_count, lemma_leading_char_count, string_of};

verus! {

/// What `str::parse::<u32>` accepts: an optional `+`, then one or more
/// digits whose value fits in a `u32`.
pub open spec fn spec_parse_u32(s: Seq<char>) -> Option<u32> {
    let digits = if s.len() > 0 && s[0] == '+' {
        s.drop_first()
    } else {
        s
    };
    if digits.len() > 0 && all_digits(digits) && decimal_value(digits) <= u32::MAX {
        Some(decimal_value(digits) as u32)
    } else {
        None
    }
}

/// Size key of an icon entry (`"128"` → 128), zero when it is not a number.
pub open spec fn icon_size(k: Seq<char>) -> u32 {
    match spec_parse_u32(k) {
        Some(n) => n,
        None => 0,
    }
}

/// Best string-valued entry of a size map seen after `e`, starting from
/// `best`: a strictly larger size replaces it, so the first of equal sizes
/// wins.
pub open spec fn best_icon_from(e: Seq<(String, JsonValue)>, best: Option<(u32, Seq<char>)>) -> Option<(u32, Seq<char>)>
    decreases e.len(),
{
    if e.len() == 0 {
        best
    } else {
        let next = match e[0].1 {
            JsonValue::Str(p) => {
                let size = icon_size(e[0].0@);
                match best {
                    Some(b) => if size > b.0 {
                        Some((size, p@))
                    } else {
                        best
                    },
                    None => Some((size, p@)),
                }
            },
            _ => best,
        };
        best_icon_from(e.drop_first(), next)
    }
}

/// Path of the largest icon in a size map (`{"16": "a.png", ...}`).
pub open spec fn best_icon(e: Seq<(String, JsonValue)>) -> Option<Seq<char>> {
    match best_icon_from(e, None) {
        Some(b) => Some(b.1),
        None => None,
    }
}

/// The icon file a manifest declares: the largest of `icons`, else the
/// `action` (or, when there is no `action`, `browser_action`)
/// `default_icon`, given as a string or as a size map.
pub open spec fn spec_icon_path(manifest: JsonValue) -> Option<Seq<char>> {
    let from_icons = match manifest.spec_get("icons"@) {
        Some(JsonValue::Object(e)) => best_icon(e@),
        _ => None,
    };
    let action = match manifest.spec_get("action"@) {
        Some(a) => Some(a),
        None => manifest.spec_get("browser_action"@),
    };
    let default_icon = match action {
        Some(a) => a.spec_get("default_icon"@),
        None => None,
    };
    if from_icons is Some {
        from_icons
    } else {
        match default_icon {
            Some(JsonValue::Str(s)) => Some(s@),
            Some(JsonValue::Object(e)) => best_icon(e@),
            _ => None,
        }
    }
}

/// The path entry `i` of a size map holds, when it holds a string.
pub open spec fn entry_path(e: Seq<(String, JsonValue)>, i: int) -> Option<Seq<char>> {
    match e[i].1 {
        JsonValue::Str(p) => Some(p@),
        _ => None,
    }
}

/// Entry `i` of a size map is its largest string entry, and the first of
/// that size.
pub open spec fn is_largest_entry(e: Seq<(String, JsonValue)>, i: int) -> bool {
    &&& 0 <= i < e.len()
    &&& entry_path(e, i) is Some
    &&& forall|j: int| 0 <= j < e.len() && #[trigger] entry_path(e, j) is Some ==> {
        &&& icon_size(e[j].0@) <= icon_size(e[i].0@)
        &&& j < i ==> icon_size(e[j].0@) < icon_size(e[i].0@)
    }
}

proof fn lemma_best_icon_from(e: Seq<(String, JsonValue)>, best: Option<(u32, Seq<char>)>)
    ensures
        best_icon_from(e, best) is None <==> (best is None && forall|j: int| 0 <= j < e.len() ==> #[trigger] entry_path(e, j) is None),
        best_icon_from(e, best) matches Some(r) ==> {
            ||| (best == Some(r) && forall|j: int| 0 <= j < e.len() && #[trigger] entry_path(e, j) is Some ==> icon_size(e[j].0@) <= r.0)
            ||| exists|i: int| {
                &&& 0 <= i < e.len()
                &&& #[trigger] entry_path(e, i) == Some(r.1)
                &&& r.0 == icon_size(e[i].0@)
                &&& (best matches Some(b) ==> b.0 < r.0)
                &&& forall|j: int| 0 <= j < e.len() && #[trigger] entry_path(e, j) is Some ==> {
                    &&& icon_size(e[j].0@) <= r.0
                    &&& j < i ==> icon_size(e[j].0@) < r.0
                }
            }
        },
    decreases e.len(),
{
    if e.len() > 0 {
        let t = e.drop_first();
        let next = match e[0].1 {
            JsonValue::Str(p) => {
                let size = icon_size(e[0].0@);
                match best {
                    Some(b) => if size > b.0 {
                        Some((size, p@))
                    } else {
                        best
                    },
                    None => Some((size, p@)),
                }
            },
            _ => best,
        };
        assert(best_icon_from(e, best) == best_icon_from(t, next));
        lemma_best_icon_from(t, next);
        assert forall|j: int| 1 <= j < e.len() implies #[trigger] entry_path(e, j) == entry_path(t, j - 1) && e[j] == t[j - 1] by {
            assert(e[j] == t[j - 1]);
        }
        if best_icon_from(e, best) is None {
            assert forall|j: int| 0 <= j < e.len() implies #[trigger] entry_path(e, j) is None by {
                if j > 0 {
                    assert(entry_path(t, j - 1) is None);
                }
            }
        } else if best is None && forall|j: int| 0 <= j < e.len() ==> #[trigger] entry_path(e, j) is None {
            assert(entry_path(e, 0) is None);
            assert forall|j: int| 0 <= j < t.len() implies #[trigger] entry_path(t, j) is None by {
                assert(entry_path(e, j + 1) is None);
            }
        }
        if let Some(r) = best_icon_from(e, best) {
            if next == Some(r) && forall|j: int| 0 <= j < t.len() && #[trigger] entry_path(t, j) is Some ==> icon_size(t[j].0@) <= r.0 {
                if next == best {
                    assert forall|j: int| 0 <= j < e.len() && #[trigger] entry_path(e, j) is Some implies icon_size(e[j].0@) <= r.0 by {
                        if j > 0 {
                            assert(entry_path(t, j - 1) is Some);
                        }
                    }
                } else {
                    assert(entry_path(e, 0) == Some(r.1));
                    assert forall|j: int| 0 <= j < e.len() && #[trigger] entry_path(e, j) is Some implies {
                        &&& icon_size(e[j].0@) <= r.0
                        &&& j < 0 ==> icon_size(e[j].0@) < r.0
                    } by {
                        if j > 0 {
                            assert(entry_path(t, j - 1) is Some);
                        }
                    }
                }
            } else {
                let i0 = choose|i: int| {
                    &&& 0 <= i < t.len()
                    &&& #[trigger] entry_path(t, i) == Some(r.1)
                    &&& r.0 == icon_size(t[i].0@)
                    &&& (next matches Some(b) ==> b.0 < r.0)
                    &&& forall|j: int| 0 <= j < t.len() && #[trigger] entry_path(t, j) is Some ==> {
                        &&& icon_size(t[j].0@) <= r.0
                        &&& j < i ==> icon_size(t[j].0@) < r.0
                    }
                };
                let i = i0 + 1;
                assert(entry_path(e, i) == Some(r.1));
                assert forall|j: int| 0 <= j < e.len() && #[trigger] entry_path(e, j) is Some implies {
                    &&& icon_size(e[j].0@) <= r.0
                    &&& j < i ==> icon_size(e[j].0@) < r.0
                } by {
                    if j > 0 {
                        assert(entry_path(t, j - 1) is Some);
                    }
                }
            }
        }
    }
}

/// Icons first, largest wins: when the manifest's `icons` map holds a
/// string entry, the icon is its largest one (the first of that size),
/// whatever `action` or `browser_action` declare.
pub proof fn law_icons_map_wins(manifest: JsonValue)
    requires
        manifest.spec_get("icons"@) matches Some(JsonValue::Object(e))
            && exists|j: int| 0 <= j < e@.len() && #[trigger] entry_path(e@, j) is Some,
    ensures
        manifest.spec_get("icons"@) matches Some(JsonValue::Object(e))
            && exists|i: int| #[trigger] is_largest_entry(e@, i) && spec_icon_path(manifest) == entry_path(e@, i),
{
    if let Some(JsonValue::Object(e)) = manifest.spec_get("icons"@) {
        lemma_best_icon_from(e@, None);
        let r = best_icon_from(e@, None).unwrap();
        let i = choose|i: int| {
            &&& 0 <= i < e@.len()
            &&& #[trigger] entry_path(e@, i) == Some(r.1)
            &&& r.0 == icon_size(e@[i].0@)
            &&& forall|j: int| 0 <= j < e@.len() && #[trigger] entry_path(e@, j) is Some ==> {
                &&& icon_size(e@[j].0@) <= r.0
                &&& j < i ==> icon_size(e@[j].0@) < r.0
            }
        };
        assert(is_largest_entry(e@, i));
        assert(spec_icon_path(manifest) == entry_path(e@, i));
    }
}

/// The `default_icon` of `action`, or of `browser_action` when there is no
/// `action`.
pub open spec fn declared_default_icon(manifest: JsonValue) -> Option<JsonValue> {
    let action = match manifest.spec_get("action"@) {
        Some(a) => Some(a),
        None => manifest.spec_get("browser_action"@),
    };
    match action {
        Some(a) => a.spec_get("default_icon"@),
        None => None,
    }
}

/// Without a string entry in `icons`, the action's `default_icon` decides:
/// a string is the icon itself, and a size map gives its largest string
/// entry (the first of that size).
pub proof fn law_default_icon_without_icons(manifest: JsonValue)
    requires
        !(manifest.spec_get("icons"@) matches Some(JsonValue::Object(e))
            && exists|j: int| 0 <= j < e@.len() && #[trigger] entry_path(e@, j) is Some),
    ensures
        declared_default_icon(manifest) matches Some(JsonValue::Str(s)) ==> spec_icon_path(manifest) == Some(s@),
        declared_default_icon(manifest) matches Some(JsonValue::Object(d)) ==> (
            (exists|j: int| 0 <= j < d@.len() && #[trigger] entry_path(d@, j) is Some)
            ==> exists|i: int| #[trigger] is_largest_entry(d@, i) && spec_icon_path(manifest) == entry_path(d@, i)),
{
    if let Some(JsonValue::Object(e)) = manifest.spec_get("icons"@) {
        lemma_best_icon_from(e@, None);
    }
    if let Some(JsonValue::Object(d)) = declared_default_icon(manifest) {
        if exists|j: int| 0 <= j < d@.len() && #[trigger] entry_path(d@, j) is Some {
            lemma_best_icon_from(d@, None);
            let r = best_icon_from(d@, None).unwrap();
            let i = choose|i: int| {
                &&& 0 <= i < d@.len()
                &&& #[trigger] entry_path(d@, i) == Some(r.1)
                &&& r.0 == icon_size(d@[i].0@)
                &&& forall|j: int| 0 <= j < d@.len() && #[trigger] entry_path(d@, j) is Some ==> {
                    &&& icon_size(d@[j].0@) <= r.0
                    &&& j < i ==> icon_size(d@[j].0@) < r.0
                }
            };
            assert(is_largest_entry(d@, i));
        }
    }
}

/// Parse an icon size key the way `str::parse::<u32>` does.
pub fn parse_u32(s: &str) -> (r: Option<u32>)
    ensures
        r == spec_parse_u32(s@),
{
    let cs = chars_of(s);
    let start: usize = if cs.len() > 0 && cs[0] == '+' { 1 } else { 0 };
    let ghost digits = if s@.len() > 0 && s@[0] == '+' {
        s@.drop_first()
    } else {
        s@
    };
    assert(cs@.subrange(start as int, cs@.len() as int) =~= digits);
    let (ok, value) = crate::version::digits_value_capped(&cs, start, cs.len(), 0x1_0000_0000);
    if start < cs.len() && ok && value <= 0xffff_ffff {
        Some(value as u32)
    } else {
        None
    }
}

fn best_in(e: &Vec<(String, JsonValue)>) -> (r: Option<&str>)
    ensures
        match r {
            Some(p) => best_icon(e@) == Some(p@),
            None => best_icon(e@) is None,
        },
{
    let mut best: Option<(u32, &str)> = None;
    let mut i: usize = 0;
    assert(e@.skip(0) =~= e@);
    while i < e.len()
        invariant
            i <= e@.len(),
            best_icon_from(e@, None) == best_icon_from(
                e@.skip(i as int),
                match best {
                    Some(b) => Some((b.0, b.1@)),
                    None => None,
                },
            ),
        decreases e@.len() - i,
    {
        assert(e@.skip(i as int).drop_first() =~= e@.skip(i + 1));
        match &e[i].1 {
            JsonValue::Str(p) => {
                let size = match parse_u32(e[i].0.as_str()) {
                    Some(n) => n,
                    None => 0,
                };
                let replace = match best {
                    Some(b) => size > b.0,
                    None => true,
                };
                if replace {
                    best = Some((size, p.as_str()));
                }
            },
            _ => {},
        }
        i = i + 1;
    }
    match best {
        Some(b) => Some(b.1),
        None => None,
    }
}

/// Pick the most useful icon file (relative path) declared by a manifest.
/// Prefers `icons` (larger sizes win), then `action.default_icon` /
/// `browser_action.default_icon` (string or size map). Returns None when the
/// manifest declares nothing renderable.
pub fn icon_relative_path(manifest: &JsonValue) -> (r: Option<String>)
    ensures
        match r {
            Some(p) => spec_icon_path(*manifest) == Some(p@),
            None => spec_icon_path(*manifest) is None,
        },
{
    match manifest.get("icons") {
        Some(JsonValue::Object(e)) => {
            match best_in(e) {
                Some(p) => return Some(p.to_owned()),
                None => {},
            }
        },
        _ => {},
    }
    let action = match manifest.get("action") {
        Some(a) => Some(a),
        None => manifest.get("browser_action"),
    };
    let di = match action {
        Some(a) => a.get("default_icon"),
        None => None,
    };
    match di {
        Some(JsonValue::Str(s)) => Some(s.clone()),
        Some(JsonValue::Object(e)) => match best_in(e) {
            Some(p) => Some(p.to_owned()),
            None => None,
        },
        _ => None,
    }
}

/// The icon file, relative to the version directory. Chrome manifests may
/// write `/images/icon.png` to mean "relative to the extension root", so
/// leading `/` are dropped.
pub fn icon_file_path(manifest: &JsonValue) -> (r: Option<String>)
    ensures
        match r {
            Some(p) => spec_icon_path(*manifest) matches Some(q) && p@ == trim_start_char(q, '/'),
            None => spec_icon_path(*manifest) is None,
        },
{
    match icon_relative_path(manifest) {
        Some(rel) => {
            let cs = chars_of(rel.as_str());
            let mut k: usize = 0;
            proof {
                lemma_leading_char_count(cs@, '/');
            }
            while k < cs.len() && cs[k] == '/'
                invariant
                    k <= cs@.len(),
                    k <= leading_char_count(cs@, '/'),
                    leading_char_count(cs@, '/') <= cs@.len(),
                    forall|j: int| 0 <= j < leading_char_count(cs@, '/') ==> #[trigger] cs@[j] == '/',
                    leading_char_count(cs@, '/') < cs@.len() ==> cs@[leading_char_count(cs@, '/') as int] != '/',
                decreases cs@.len() - k,
            {
                k = k + 1;
            }
            assert(k == leading_char_count(cs@, '/'));
            Some(string_of(&cs, k, cs.len()))
        },
        None => None,
    }
}

/// The standard base64 alphabet.
pub open spec fn b64_char(i: int) -> char {
    if i < 26 {
        (('A' as int) + i) as char
    } else if i < 52 {
        (('a' as int) + i - 26) as char
    } else if i < 62 {
        (('0' as int) + i - 52) as char
    } else if i == 62 {
        '+'
    } else {
        '/'
    }
}

/// Standard base64 with `=` padding (RFC 4648 §4), three bytes to four
/// characters.
pub open spec fn base64_standard(b: Seq<u8>) -> Seq<char>
    decreases b.len(),
{
    let x = if b.len() > 0 { b[0] as int } else { 0 };
    let y = if b.len() > 1 { b[1] as int } else { 0 };
    let z = if b.len() > 2 { b[2] as int } else { 0 };
    if b.len() == 0 {
        Seq::<char>::empty()
    } else if b.len() == 1 {
        seq![b64_char(x / 4), b64_char((x % 4) * 16), '=', '=']
    } else if b.len() == 2 {
        seq![b64_char(x / 4), b64_char((x % 4) * 16 + y / 16), b64_char((y % 16) * 4), '=']
    } else {
        seq![
            b64_char(x / 4),
            b64_char((x % 4) * 16 + y / 16),
            b64_char((y % 16) * 4 + z / 64),
            b64_char(z % 64),
        ] + base64_standard(b.subrange(3, b.len() as int))
    }
}

/// `base64::engine::general_purpose::STANDARD.encode(bytes)`: standard
/// alphabet, padded. The contract states the RFC 4648 encoding; the
/// crate's `encode` panics only when the output length overflows `usize`,
/// which the bound on the input excludes.
#[verifier::external_body]
fn base64_encode(bytes: &[u8]) -> (r: String)
    requires
        bytes@.len() <= usize::MAX / 2,
    ensures
        r@ == base64_standard(bytes@),
{
    base64::Engine::encode(&base64::engine::general_purpose::STANDARD, bytes)
}

/// The `data:` URI for an icon file's bytes.
pub fn icon_data_uri(bytes: &Vec<u8>) -> (r: String)
    requires
        bytes@.len() <= usize::MAX / 2,
    ensures
        r@ == "data:image/png;base64,"@ + base64_standard(bytes@),
{
    let mut out = String::from_str("data:image/png;base64,");
    let encoded = base64_encode(bytes.as_slice());
    out.append(encoded.as_str());
    out
}

/// One extension version's icon as a `data:` URI, from its manifest and the
/// bytes of the file that `icon_file_path` names there (`None` when that
/// file could not be read): empty when the manifest declares no icon or the
/// file is unreadable.
pub fn icon_uri(manifest: &JsonValue, file: &Option<Vec<u8>>) -> (r: String)
    requires
        file matches Some(b) ==> b@.len() <= usize::MAX / 2,
    ensures
        r@ == match (spec_icon_path(*manifest), file) {
            (Some(_), Some(b)) => "data:image/png;base64,"@ + base64_standard(b@),
            _ => Seq::<char>::empty(),
        },
{
    match icon_relative_path(manifest) {
        Some(_) => match file {
            Some(b) => icon_data_uri(b),
            None => String::new(),
        },
        None => String::new(),
    }
}

/// A version folder name handed back by the frontend is used only when it
/// is a plain name: no `..`, no `/`, no `\\`.
pub open spec fn is_plain_dir_name(v: Seq<char>) -> bool {
    !crate::text::contains_seq(v, ".."@) && !v.contains('/') && !v.contains('\\')
}

/// Whether `version_dir` is a plain folder name (see `is_plain_dir_name`).
pub fn plain_dir_name(version_dir: &str) -> (r: bool)
    ensures
        r == is_plain_dir_name(version_dir@),
{
    let cs = chars_of(version_dir);
    let dots: Vec<char> = vec!['.', '.'];
    proof {
        reveal_strlit("..");
        assert(dots@ =~= ".."@);
    }
    if crate::text::find_chars(&cs, &dots, 0).is_some() {
        return false;
    }
    let mut i: usize = 0;
    while i < cs.len()
        invariant
            i <= cs@.len(),
            cs@ == version_dir@,
            forall|j: int| 0 <= j < i ==> cs@[j] != '/' && cs@[j] != '\\',
        decreases cs@.len() - i,
    {
        if cs[i] == '/' || cs[i] == '\\' {
            return false;
        }
        i = i + 1;
    }
    true
}

} // verus!
