//! Display names of extensions: locale fallback chains and `__MSG_key__`
//! placeholder substitution from `_locales/<locale>/messages.json`.

use vstd::prelude::*;
use crate::json::JsonValue;
use crate::text::{
    chars_of, contains_seq, find_chars, find_from, lower, lower_chars, matches_at, push_char,
    replace_char, starts_with, string_of, str_eq,
};

verus! {

/// Preferred Chinese variant: traditional locales (TW/HK/MO) prefer `zh_TW`,
/// everything else `zh_CN`.
pub open spec fn zh_variant(lr: Seq<char>) -> Seq<char> {
    if contains_seq(lr, "tw"@) || contains_seq(lr, "hk"@) || contains_seq(lr, "mo"@) {
        "zh_TW"@
    } else {
        "zh_CN"@
    }
}

/// The part of `s` before its first `c` (all of `s` when there is none).
pub open spec fn before_first(s: Seq<char>, c: char) -> Seq<char> {
    match find_from(s, seq![c], 0) {
        Some(i) => s.take(i),
        None => s,
    }
}

/// Locales tried for `requested`, in order, before removing empty and
/// repeated entries: the requested locale (Chinese special-cased), then
/// English, then the extension's own `default_locale`.
pub open spec fn locale_candidates(req: Seq<char>, def: Option<Seq<char>>) -> Seq<Seq<char>> {
    let lr = lower(req);
    let lead = if starts_with(lr, "zh"@) {
        seq![zh_variant(lr), "zh"@]
    } else {
        let norm = replace_char(req, '-', '_');
        seq![norm, before_first(norm, '_'), req]
    };
    let tail = match def {
        Some(d) => seq!["en"@, d],
        None => seq!["en"@],
    };
    lead + tail
}

/// Appends `l` unless it is empty or already present.
pub open spec fn chain_push(chain: Seq<Seq<char>>, l: Seq<char>) -> Seq<Seq<char>> {
    if l.len() > 0 && !chain.contains(l) {
        chain.push(l)
    } else {
        chain
    }
}

/// `s` without empty entries and without repeats, first occurrence kept.
pub open spec fn dedup_nonempty(s: Seq<Seq<char>>) -> Seq<Seq<char>>
    decreases s.len(),
{
    if s.len() == 0 {
        Seq::<Seq<char>>::empty()
    } else {
        chain_push(dedup_nonempty(s.drop_last()), s.last())
    }
}

/// The locale fallback chain.
pub open spec fn spec_locale_chain(req: Seq<char>, def: Option<Seq<char>>) -> Seq<Seq<char>> {
    dedup_nonempty(locale_candidates(req, def))
}

pub open spec fn strings_view(v: Seq<String>) -> Seq<Seq<char>> {
    Seq::new(v.len(), |i: int| v[i]@)
}

/// The `message` text that `messages` holds for placeholder key `raw`:
/// the lowercased key is tried first (Chrome's rule), then the key as
/// written.
pub open spec fn lookup_message(messages: JsonValue, raw: Seq<char>) -> Option<Seq<char>> {
    let entry = match messages.spec_get(lower(raw)) {
        Some(e) => Some(e),
        None => messages.spec_get(raw),
    };
    match entry {
        Some(e) => match e.spec_get("message"@) {
            Some(m) => m.spec_as_str(),
            None => None,
        },
        None => None,
    }
}

/// `s[pos..]` with every `__MSG_key__` placeholder replaced by its message;
/// `None` when a placeholder is unterminated, its key is missing, or its
/// message is empty or itself starts with `__`.
pub open spec fn subst_at(s: Seq<char>, pos: int, messages: JsonValue) -> Option<Seq<char>>
    decreases s.len() + 1 - pos,
{
    if pos < 0 || pos > s.len() {
        None
    } else {
        match find_from(s, "__MSG_"@, pos) {
            None => Some(s.subrange(pos, s.len() as int)),
            Some(start) => match find_from(s, "__"@, start + 6) {
                None => None,
                Some(end) => match lookup_message(messages, s.subrange(start + 6, end)) {
                    None => None,
                    Some(m) => if m.len() == 0 || starts_with(m, "__"@) {
                        None
                    } else if end + 2 <= pos || end + 2 > s.len() {
                        None
                    } else {
                        match subst_at(s, end + 2, messages) {
                            None => None,
                            Some(t) => Some(s.subrange(pos, start) + m + t),
                        }
                    },
                },
            },
        }
    }
}

/// Placeholder substitution of a whole string.
pub open spec fn spec_substitute(s: Seq<char>, messages: JsonValue) -> Option<Seq<char>> {
    subst_at(s, 0, messages)
}

proof fn lemma_find_first(s: Seq<char>, p: Seq<char>, from: int, i: int)
    requires
        0 <= from <= i,
        i + p.len() <= s.len(),
        s.subrange(i, i + p.len()) == p,
        forall|j: int| from <= j < i ==> #[trigger] s.subrange(j, j + p.len()) != p,
    ensures
        find_from(s, p, from) == Some(i),
    decreases i - from,
{
    if from < i {
        lemma_find_first(s, p, from + 1, i);
    }
}

/// Text without a `__MSG_` placeholder is kept as it is, whatever the
/// catalog holds.
pub proof fn law_text_without_placeholder_is_kept(s: Seq<char>, messages: JsonValue)
    requires
        !contains_seq(s, "__MSG_"@),
    ensures
        spec_substitute(s, messages) == Some(s),
{
    assert(s.subrange(0, s.len() as int) =~= s);
}

/// A manifest string that is exactly one placeholder `__MSG_<key>__` (the
/// key holding no `__` and not ending in `_`) becomes the catalog's message
/// for that key, looked up in lower case first, then as written; it fails
/// when the message is missing, empty or itself starts with `__`.
pub proof fn law_single_placeholder_is_its_message(key: Seq<char>, messages: JsonValue)
    requires
        forall|j: int| 0 <= j < key.len() - 1 ==> !(#[trigger] key[j] == '_' && key[j + 1] == '_'),
        key.len() == 0 || key.last() != '_',
    ensures
        spec_substitute("__MSG_"@ + key + "__"@, messages) == match lookup_message(messages, key) {
            Some(m) => if m.len() == 0 || starts_with(m, "__"@) {
                None
            } else {
                Some(m)
            },
            None => None,
        },
{
    reveal_strlit("__MSG_");
    reveal_strlit("__");
    let s = "__MSG_"@ + key + "__"@;
    let n: int = key.len() as int;
    assert(s.len() == n + 8);
    assert(s.subrange(0, 6) =~= "__MSG_"@);
    assert(find_from(s, "__MSG_"@, 0) == Some(0int));
    assert(s.subrange(6 + n, 8 + n) =~= "__"@);
    assert forall|j: int| 6 <= j < 6 + n implies #[trigger] s.subrange(j, j + 2) != "__"@ by {
        if s.subrange(j, j + 2) == "__"@ {
            assert(s[j] == s.subrange(j, j + 2)[0]);
            assert(s[j + 1] == s.subrange(j, j + 2)[1]);
            assert(s[j] == key[j - 6]);
            if j + 1 < 6 + n {
                assert(s[j + 1] == key[j - 5]);
            } else {
                assert(key.last() == key[j - 6]);
            }
        }
    }
    lemma_find_first(s, "__"@, 6, 6 + n);
    assert(s.subrange(6, 6 + n) =~= key);
    assert(s.subrange(0, 0) =~= Seq::<char>::empty());
    assert(find_from(s, "__MSG_"@, n + 8) is None);
    assert(s.subrange(n + 8, n + 8) =~= Seq::<char>::empty());
    assert(subst_at(s, n + 8, messages) == Some(Seq::<char>::empty()));
    assert(lookup_message(messages, s.subrange(6, 6 + n)) == lookup_message(messages, key));
    if let Some(m) = lookup_message(messages, key) {
        assert(Seq::<char>::empty() + m + Seq::<char>::empty() =~= m);
        assert(s.subrange(0, 0) + m + Seq::<char>::empty() =~= m);
    }
}

proof fn lemma_find_from_range(s: Seq<char>, p: Seq<char>, from: int)
    ensures
        find_from(s, p, from) matches Some(i) ==> from <= i && i + p.len() <= s.len()
            && s.subrange(i, i + p.len()) == p,
    decreases s.len() + 1 - from,
{
    if from < 0 || from + p.len() > s.len() {
    } else if s.subrange(from, from + p.len()) == p {
    } else {
        lemma_find_from_range(s, p, from + 1);
    }
}

proof fn lemma_find_shift(p: Seq<char>, b: Seq<char>, pat: Seq<char>, i: int)
    requires
        0 <= i,
    ensures
        find_from(p + b, pat, p.len() + i) == match find_from(b, pat, i) {
            Some(x) => Some(p.len() + x),
            None => None,
        },
    decreases b.len() + 1 - i,
{
    let s = p + b;
    if i + pat.len() <= b.len() {
        assert(s.subrange(p.len() + i, p.len() + i + pat.len()) =~= b.subrange(i, i + pat.len()));
        if b.subrange(i, i + pat.len()) != pat {
            lemma_find_shift(p, b, pat, i + 1);
        }
    }
}

proof fn lemma_subst_shift(p: Seq<char>, b: Seq<char>, pos: int, messages: JsonValue)
    requires
        0 <= pos,
    ensures
        subst_at(p + b, p.len() + pos, messages) == subst_at(b, pos, messages),
    decreases b.len() + 1 - pos,
{
    reveal_strlit("__MSG_");
    reveal_strlit("__");
    let s = p + b;
    let q = p.len() as int;
    if pos <= b.len() {
        lemma_find_shift(p, b, "__MSG_"@, pos);
        assert(s.subrange(q + pos, s.len() as int) =~= b.subrange(pos, b.len() as int));
        if let Some(st) = find_from(b, "__MSG_"@, pos) {
            lemma_find_from_range(b, "__MSG_"@, pos);
            lemma_find_shift(p, b, "__"@, st + 6);
            if let Some(end) = find_from(b, "__"@, st + 6) {
                lemma_find_from_range(b, "__"@, st + 6);
                assert(s.subrange(q + st + 6, q + end) =~= b.subrange(st + 6, end));
                assert(s.subrange(q + pos, q + st) =~= b.subrange(pos, st));
                if end + 2 > pos && end + 2 <= b.len() {
                    lemma_subst_shift(p, b, end + 2, messages);
                    assert(q + (end + 2) == q + end + 2);
                }
            }
        }
    }
}

/// The first placeholder of a string is replaced by its message and the
/// rest is substituted in turn: for `a __MSG_<key>__ b`, where no `__MSG_`
/// starts within `a` and the key holds no `__` and does not end in `_`,
/// the result is `a`, the message, then `b` substituted; it fails when the
/// message is missing, empty or itself starts with `__`, or when `b` fails.
pub proof fn law_first_placeholder_is_replaced(a: Seq<char>, key: Seq<char>, b: Seq<char>, messages: JsonValue)
    requires
        forall|j: int| 0 <= j < a.len() ==> #[trigger] (a + "__MSG_"@).subrange(j, j + 6) != "__MSG_"@,
        forall|j: int| 0 <= j < key.len() - 1 ==> !(#[trigger] key[j] == '_' && key[j + 1] == '_'),
        key.len() == 0 || key.last() != '_',
    ensures
        spec_substitute(a + "__MSG_"@ + key + "__"@ + b, messages) == match lookup_message(messages, key) {
            Some(m) => if m.len() == 0 || starts_with(m, "__"@) {
                None
            } else {
                match spec_substitute(b, messages) {
                    Some(t) => Some(a + m + t),
                    None => None,
                }
            },
            None => None,
        },
{
    reveal_strlit("__MSG_");
    reveal_strlit("__");
    let head = a + "__MSG_"@;
    let pre = head + key + "__"@;
    let s = pre + b;
    let n: int = a.len() as int;
    let kn: int = key.len() as int;
    assert(a + "__MSG_"@ + key + "__"@ + b =~= s);
    assert(s.subrange(n, n + 6) =~= "__MSG_"@);
    assert forall|j: int| 0 <= j < n implies #[trigger] s.subrange(j, j + 6) != "__MSG_"@ by {
        assert(s.subrange(j, j + 6) =~= head.subrange(j, j + 6));
    }
    lemma_find_first(s, "__MSG_"@, 0, n);
    assert(s.subrange(n + 6 + kn, n + 8 + kn) =~= "__"@);
    assert forall|j: int| n + 6 <= j < n + 6 + kn implies #[trigger] s.subrange(j, j + 2) != "__"@ by {
        if s.subrange(j, j + 2) == "__"@ {
            assert(s[j] == s.subrange(j, j + 2)[0]);
            assert(s[j + 1] == s.subrange(j, j + 2)[1]);
            assert(s[j] == key[j - n - 6]);
            if j + 1 < n + 6 + kn {
                assert(s[j + 1] == key[j - n - 5]);
            } else {
                assert(key.last() == key[j - n - 6]);
            }
        }
    }
    lemma_find_first(s, "__"@, n + 6, n + 6 + kn);
    assert(s.subrange(n + 6, n + 6 + kn) =~= key);
    assert(s.subrange(0, n) =~= a);
    lemma_subst_shift(pre, b, 0, messages);
    assert(pre.len() + 0 == n + kn + 8);
}

/// A placeholder that is never closed makes the substitution fail: for
/// `a __MSG_<rest>`, where no `__MSG_` starts within `a` and `rest` holds
/// no `__`, there is no result.
pub proof fn law_unterminated_placeholder_fails(a: Seq<char>, rest: Seq<char>, messages: JsonValue)
    requires
        forall|j: int| 0 <= j < a.len() ==> #[trigger] (a + "__MSG_"@).subrange(j, j + 6) != "__MSG_"@,
        forall|j: int| 0 <= j < rest.len() - 1 ==> !(#[trigger] rest[j] == '_' && rest[j + 1] == '_'),
    ensures
        spec_substitute(a + "__MSG_"@ + rest, messages) is None,
{
    reveal_strlit("__MSG_");
    reveal_strlit("__");
    let head = a + "__MSG_"@;
    let s = head + rest;
    let n: int = a.len() as int;
    assert(s.subrange(n, n + 6) =~= "__MSG_"@);
    assert forall|j: int| 0 <= j < n implies #[trigger] s.subrange(j, j + 6) != "__MSG_"@ by {
        assert(s.subrange(j, j + 6) =~= head.subrange(j, j + 6));
    }
    lemma_find_first(s, "__MSG_"@, 0, n);
    lemma_find_from_range(s, "__"@, n + 6);
    if let Some(e) = find_from(s, "__"@, n + 6) {
        assert(s[e] == s.subrange(e, e + 2)[0]);
        assert(s[e + 1] == s.subrange(e, e + 2)[1]);
        assert(s[e] == rest[e - n - 6]);
        assert(s[e + 1] == rest[e - n - 5]);
    }
}

proof fn lemma_dedup_members(s: Seq<Seq<char>>)
    ensures
        forall|x: Seq<char>| #![trigger dedup_nonempty(s).contains(x)] dedup_nonempty(s).contains(x) ==> s.contains(x) && x.len() > 0,
        forall|x: Seq<char>| #![trigger s.contains(x)] s.contains(x) && x.len() > 0 ==> dedup_nonempty(s).contains(x),
    decreases s.len(),
{
    if s.len() > 0 {
        let prev = dedup_nonempty(s.drop_last());
        lemma_dedup_members(s.drop_last());
        assert forall|x: Seq<char>| dedup_nonempty(s).contains(x) implies s.contains(x) && x.len()
            > 0 by {
            let d = dedup_nonempty(s);
            let i = choose|i: int| 0 <= i < d.len() && d[i] == x;
            if i < prev.len() {
                assert(prev[i] == x);
                assert(prev.contains(x));
                let j = choose|j: int| 0 <= j < s.drop_last().len() && s.drop_last()[j] == x;
                assert(s[j] == x);
            } else {
                assert(x == s.last());
                assert(s[s.len() - 1] == x);
            }
        }
        assert forall|x: Seq<char>| s.contains(x) && x.len() > 0 implies dedup_nonempty(
            s,
        ).contains(x) by {
            let j = choose|j: int| 0 <= j < s.len() && s[j] == x;
            let d = dedup_nonempty(s);
            if j < s.len() - 1 {
                assert(s.drop_last()[j] == x);
                assert(s.drop_last().contains(x));
                assert(prev.contains(x));
                let k = choose|k: int| 0 <= k < prev.len() && prev[k] == x;
                assert(d[k] == x);
            } else if prev.contains(x) {
                let k = choose|k: int| 0 <= k < prev.len() && prev[k] == x;
                assert(d[k] == x);
            } else {
                assert(d[d.len() - 1] == x);
            }
        }
    }
}

proof fn lemma_dedup_first(s: Seq<Seq<char>>)
    requires
        s.len() > 0,
        s[0].len() > 0,
    ensures
        dedup_nonempty(s).len() > 0,
        dedup_nonempty(s)[0] == s[0],
    decreases s.len(),
{
    if s.len() == 1 {
        assert(s.drop_last() =~= Seq::<Seq<char>>::empty());
        assert(dedup_nonempty(s.drop_last()) =~= Seq::<Seq<char>>::empty());
    } else {
        lemma_dedup_first(s.drop_last());
    }
}

proof fn lemma_dedup_no_repeats(s: Seq<Seq<char>>)
    ensures
        forall|i: int, j: int|
            0 <= i < j < dedup_nonempty(s).len() ==> dedup_nonempty(s)[i] != dedup_nonempty(s)[j],
    decreases s.len(),
{
    if s.len() > 0 {
        lemma_dedup_no_repeats(s.drop_last());
        let prev = dedup_nonempty(s.drop_last());
        let d = dedup_nonempty(s);
        assert forall|i: int, j: int| 0 <= i < j < d.len() implies d[i] != d[j] by {
            if j >= prev.len() {
                assert(d[i] == prev[i]);
                assert(prev.contains(prev[i]));
            }
        }
    }
}

/// Every locale in a fallback chain is non-empty and appears only once.
pub proof fn law_chain_entries_unique(req: Seq<char>, def: Option<Seq<char>>)
    ensures
        forall|i: int|
            0 <= i < spec_locale_chain(req, def).len() ==> #[trigger] spec_locale_chain(req, def)[i].len() > 0,
        forall|i: int, j: int|
            0 <= i < j < spec_locale_chain(req, def).len() ==> spec_locale_chain(req, def)[i]
                != spec_locale_chain(req, def)[j],
{
    let cands = locale_candidates(req, def);
    let c = dedup_nonempty(cands);
    lemma_dedup_members(cands);
    lemma_dedup_no_repeats(cands);
    assert forall|i: int| 0 <= i < c.len() implies #[trigger] c[i].len() > 0 by {
        assert(c.contains(c[i]));
        assert(dedup_nonempty(cands).contains(c[i]));
    }
}

/// English is the universal fallback: it is always in the chain, and it
/// comes before the extension's `default_locale` unless that locale is one
/// the requested language itself asks for.
pub proof fn law_english_precedes_default(req: Seq<char>, d: Seq<char>)
    requires
        d.len() > 0,
        d != "en"@,
        !locale_candidates(req, None).contains(d),
    ensures
        exists|i: int, j: int|
            0 <= i < j < spec_locale_chain(req, Some(d)).len() && spec_locale_chain(req, Some(d))[i]
                == "en"@ && spec_locale_chain(req, Some(d))[j] == d,
{
    reveal_strlit("en");
    let with_d = locale_candidates(req, Some(d));
    let without = locale_candidates(req, None);
    assert(with_d.drop_last() =~= without);
    assert(without.last() == "en"@);
    lemma_dedup_members(without);
    assert(without.contains("en"@)) by {
        assert(without[without.len() - 1] == "en"@);
    }
    let a = dedup_nonempty(without);
    assert(a.contains("en"@));
    assert(!a.contains(d));
    assert(with_d.last() == d);
    let c = dedup_nonempty(with_d);
    assert(c == chain_push(a, d));
    assert(c == a.push(d));
    let i = choose|i: int| 0 <= i < a.len() && a[i] == "en"@;
    assert(c[i] == "en"@ && c[a.len() as int] == d);
    assert(spec_locale_chain(req, Some(d)) == c);
}

/// A Chinese UI language starts the chain with its own variant: `zh_TW` for
/// traditional locales (TW/HK/MO), `zh_CN` otherwise, followed by bare `zh`.
pub proof fn law_chinese_variant_first(req: Seq<char>, def: Option<Seq<char>>)
    requires
        starts_with(lower(req), "zh"@),
    ensures
        spec_locale_chain(req, def).len() >= 2,
        spec_locale_chain(req, def)[0] == zh_variant(lower(req)),
        spec_locale_chain(req, def)[1] == "zh"@,
{
    reveal_strlit("zh_TW");
    reveal_strlit("zh_CN");
    reveal_strlit("zh");
    let c = locale_candidates(req, def);
    let v = zh_variant(lower(req));
    assert(v.len() == 5);
    let first2 = c.subrange(0, 2);
    assert(first2 =~= seq![v, "zh"@]);
    assert(first2.drop_last() =~= seq![v]);
    assert(seq![v].drop_last() =~= Seq::<Seq<char>>::empty());
    let one = dedup_nonempty(seq![v]);
    assert(seq![v].last() == v);
    assert(dedup_nonempty(Seq::<Seq<char>>::empty()) == Seq::<Seq<char>>::empty());
    assert(one == chain_push(dedup_nonempty(seq![v].drop_last()), v));
    assert(one == chain_push(Seq::<Seq<char>>::empty(), v));
    assert(one =~= seq![v]);
    assert(v != "zh"@);
    assert(!one.contains("zh"@));
    let two = dedup_nonempty(first2);
    assert(two == chain_push(one, "zh"@));
    assert(two =~= seq![v, "zh"@]);
    lemma_dedup_prefix(c, 2);
    assert(spec_locale_chain(req, def) == dedup_nonempty(c));
}

/// Any other UI language starts the chain with its own tag in Chrome's
/// `_locales` spelling (hyphens become underscores, `pt-BR` → `pt_BR`).
pub proof fn law_requested_locale_first(req: Seq<char>, def: Option<Seq<char>>)
    requires
        !starts_with(lower(req), "zh"@),
        req.len() > 0,
    ensures
        spec_locale_chain(req, def).len() > 0,
        spec_locale_chain(req, def)[0] == replace_char(req, '-', '_'),
{
    lemma_dedup_first(locale_candidates(req, def));
}

/// Outside Chinese, the chain offers the base language of the request (its
/// tag in `_locales` spelling up to the first `_`, `ja` for `ja-JP`), and
/// offers it before falling back to English; the request as written is
/// offered too.
pub proof fn law_base_language_precedes_english(req: Seq<char>, def: Option<Seq<char>>)
    requires
        !starts_with(lower(req), "zh"@),
        before_first(replace_char(req, '-', '_'), '_').len() > 0,
    ensures
        ({
            let base = before_first(replace_char(req, '-', '_'), '_');
            let chain = spec_locale_chain(req, def);
            &&& chain.contains(base)
            &&& req.len() > 0 ==> chain.contains(req)
            &&& base != "en"@ ==> exists|i: int, j: int|
                0 <= i < j < chain.len() && chain[i] == base && chain[j] == "en"@
        }),
{
    reveal_strlit("en");
    let norm = replace_char(req, '-', '_');
    let base = before_first(norm, '_');
    let c = locale_candidates(req, def);
    let lead = seq![norm, base, req];
    assert(c.subrange(0, 3) =~= lead);
    let chain = dedup_nonempty(c);
    let dl = dedup_nonempty(lead);
    lemma_dedup_members(c);
    lemma_dedup_members(lead);
    lemma_dedup_prefix(c, 3);
    assert(c[1] == base);
    assert(c.contains(base));
    assert(lead[1] == base);
    assert(lead.contains(base));
    assert(dl.contains(base));
    let i = choose|i: int| 0 <= i < dl.len() && dl[i] == base;
    assert(chain[i] == base);
    assert(chain.contains(base));
    assert(c[2] == req);
    assert(c.contains(req));
    if base != "en"@ {
        assert(c[3] == "en"@);
        assert(c.contains("en"@));
        assert(chain.contains("en"@));
        let j = choose|j: int| 0 <= j < chain.len() && chain[j] == "en"@;
        assert(!lead.contains("en"@)) by {
            if norm == "en"@ {
                lemma_find_from_range(norm, seq!['_'], 0);
                if let Some(x) = find_from(norm, seq!['_'], 0) {
                    assert(norm[x] == norm.subrange(x, x + 1)[0]);
                }
                assert(base == norm);
            }
            if req == "en"@ {
                assert(norm =~= req);
                lemma_find_from_range(norm, seq!['_'], 0);
                if let Some(x) = find_from(norm, seq!['_'], 0) {
                    assert(norm[x] == norm.subrange(x, x + 1)[0]);
                }
                assert(base == norm);
            }
        }
        assert(!dl.contains("en"@));
        if j < dl.len() {
            assert(chain[j] == dl[j]);
            assert(dl.contains(dl[j]));
        }
        assert(0 <= i < j < chain.len() && chain[i] == base && chain[j] == "en"@);
    }
    assert(chain == spec_locale_chain(req, def));
}

proof fn lemma_dedup_prefix(s: Seq<Seq<char>>, k: int)
    requires
        0 <= k <= s.len(),
    ensures
        dedup_nonempty(s).len() >= dedup_nonempty(s.subrange(0, k)).len(),
        forall|i: int|
            0 <= i < dedup_nonempty(s.subrange(0, k)).len() ==> dedup_nonempty(s)[i]
                == dedup_nonempty(s.subrange(0, k))[i],
    decreases s.len() - k,
{
    if k < s.len() {
        lemma_dedup_prefix(s, k + 1);
        assert(s.subrange(0, k + 1).drop_last() =~= s.subrange(0, k));
    } else {
        assert(s.subrange(0, k) =~= s);
    }
}

/// Appends the locale unless it is empty or already present.
fn push_locale(chain: &mut Vec<String>, l: String)
    ensures
        strings_view(final(chain)@) == chain_push(strings_view(old(chain)@), l@),
{
    let ghost before = strings_view(chain@);
    if l.as_str().is_empty() {
        return;
    }
    let mut i: usize = 0;
    while i < chain.len()
        invariant
            i <= chain@.len(),
            before == strings_view(chain@),
            forall|j: int| 0 <= j < i ==> chain@[j]@ != l@,
        decreases chain@.len() - i,
    {
        if str_eq(chain[i].as_str(), l.as_str()) {
            assert(before[i as int] == l@);
            return;
        }
        i = i + 1;
    }
    assert(!before.contains(l@)) by {
        if before.contains(l@) {
            let j = choose|j: int| 0 <= j < before.len() && before[j] == l@;
            assert(chain@[j]@ == l@);
        }
    }
    chain.push(l);
    assert(strings_view(chain@) =~= before.push(l@));
}

/// Locale fallback chain for extension display names.
///
/// Order: requested locale (full form + base language, both hyphen and
/// underscore spellings) → English → the extension's own `default_locale`.
/// Chinese is special-cased (zh_CN / zh_TW, then bare zh).
pub fn locale_chain(requested: &str, default_locale: Option<&str>) -> (chain: Vec<String>)
    ensures
        strings_view(chain@) == spec_locale_chain(
            requested@,
            match default_locale {
                Some(d) => Some(d@),
                None => None,
            },
        ),
{
    let ghost def = match default_locale {
        Some(d) => Some(d@),
        None => None,
    };
    let ghost cands = locale_candidates(requested@, def);
    let req = chars_of(requested);
    let lr = lower_chars(&req);
    let zh = chars_of("zh");
    let mut chain: Vec<String> = Vec::new();
    let mut lead: Vec<String> = Vec::new();
    if matches_at(&lr, &zh, 0) {
        let tw = chars_of("tw");
        let hk = chars_of("hk");
        let mo = chars_of("mo");
        let traditional = find_chars(&lr, &tw, 0).is_some() || find_chars(&lr, &hk, 0).is_some()
            || find_chars(&lr, &mo, 0).is_some();
        if traditional {
            lead.push(String::from_str("zh_TW"));
        } else {
            lead.push(String::from_str("zh_CN"));
        }
        lead.push(String::from_str("zh"));
        assert(lr@.subrange(0, zh@.len() as int) == zh@ ==> starts_with(lr@, "zh"@));
    } else {
        let mut norm = String::new();
        let mut i: usize = 0;
        while i < req.len()
            invariant
                i <= req@.len(),
                norm@ == replace_char(req@.subrange(0, i as int), '-', '_'),
            decreases req@.len() - i,
        {
            push_char(&mut norm, if req[i] == '-' { '_' } else { req[i] });
            i = i + 1;
            assert(norm@ =~= replace_char(req@.subrange(0, i as int), '-', '_'));
        }
        assert(req@.subrange(0, req@.len() as int) =~= req@);
        let norm_chars = chars_of(norm.as_str());
        let us = vec!['_'];
        let base = match find_chars(&norm_chars, &us, 0) {
            Some(k) => {
                assert(k <= norm_chars@.len()) by {
                    lemma_find_from_range(norm_chars@, us@, 0);
                }
                string_of(&norm_chars, 0, k)
            },
            None => norm.clone(),
        };
        proof {
            assert(us@ =~= seq!['_']);
            assert(base@ == before_first(norm@, '_')) by {
                match find_from(norm@, seq!['_'], 0) {
                    Some(k) => {
                        assert(norm_chars@.subrange(0, k) =~= norm@.take(k));
                    },
                    None => {},
                }
            }
        }
        lead.push(norm);
        lead.push(base);
        lead.push(requested.to_owned());
    }
    lead.push(String::from_str("en"));
    match default_locale {
        Some(d) => lead.push(d.to_owned()),
        None => {},
    }
    assert(strings_view(lead@) =~= cands);
    let mut k: usize = 0;
    while k < lead.len()
        invariant
            k <= lead@.len(),
            strings_view(lead@) == cands,
            strings_view(chain@) == dedup_nonempty(cands.subrange(0, k as int)),
        decreases lead@.len() - k,
    {
        let l = lead[k].clone();
        push_locale(&mut chain, l);
        proof {
            assert(cands.subrange(0, k + 1).drop_last() =~= cands.subrange(0, k as int));
        }
        k = k + 1;
    }
    assert(cands.subrange(0, cands.len() as int) =~= cands);
    chain
}

/// The message for placeholder key `raw`.
fn message_for<'a>(messages: &'a JsonValue, raw: &Vec<char>) -> (r: Option<&'a str>)
    ensures
        match r {
            Some(m) => lookup_message(*messages, raw@) == Some(m@),
            None => lookup_message(*messages, raw@) is None,
        },
{
    let lower_key = lower_chars(raw);
    let lk = string_of(&lower_key, 0, lower_key.len());
    let rk = string_of(raw, 0, raw.len());
    assert(lk@ =~= lower(raw@));
    assert(rk@ =~= raw@);
    let entry = match messages.get(lk.as_str()) {
        Some(e) => Some(e),
        None => messages.get(rk.as_str()),
    };
    match entry {
        Some(e) => match e.get("message") {
            Some(m) => m.as_str(),
            None => None,
        },
        None => None,
    }
}

/// Substitute every `__MSG_key__` placeholder using one locale's messages.
/// Returns None when any key is missing, so the caller tries the next locale.
pub fn substitute_placeholders(s: &str, messages: &JsonValue) -> (r: Option<String>)
    ensures
        match r {
            Some(t) => spec_substitute(s@, *messages) == Some(t@),
            None => spec_substitute(s@, *messages) is None,
        },
{
    let cs = chars_of(s);
    let open_tag = chars_of("__MSG_");
    let close_tag = chars_of("__");
    proof {
        reveal_strlit("__MSG_");
        reveal_strlit("__");
    }
    let mut out = String::new();
    let mut pos: usize = 0;
    let n = cs.len();
    loop
        invariant
            n == cs@.len(),
            pos <= cs@.len(),
            cs@ == s@,
            open_tag@ == "__MSG_"@,
            close_tag@ == "__"@,
            open_tag@.len() == 6,
            close_tag@.len() == 2,
            spec_substitute(s@, *messages) == match subst_at(cs@, pos as int, *messages) {
                Some(t) => Some(out@ + t),
                None => None,
            },
        decreases cs@.len() - pos,
    {
        let start = match find_chars(&cs, &open_tag, pos) {
            Some(st) => st,
            None => {
                let tail = string_of(&cs, pos, cs.len());
                out.append(tail.as_str());
                return Some(out);
            },
        };
        proof {
            lemma_find_from_range(cs@, open_tag@, pos as int);
        }
        let end = match find_chars(&cs, &close_tag, start + 6) {
            Some(e) => e,
            None => return None,
        };
        proof {
            lemma_find_from_range(cs@, close_tag@, start + 6);
        }
        let raw = {
            let mut raw: Vec<char> = Vec::new();
            let mut j = start + 6;
            while j < end
                invariant
                    start + 6 <= j <= end <= cs@.len(),
                    raw@ == cs@.subrange(start + 6, j as int),
                decreases end - j,
            {
                raw.push(cs[j]);
                j = j + 1;
                assert(raw@ =~= cs@.subrange(start + 6, j as int));
            }
            raw
        };
        let message = match message_for(messages, &raw) {
            Some(m) => m,
            None => return None,
        };
        let mc = chars_of(message);
        if mc.len() == 0 || matches_at(&mc, &close_tag, 0) {
            proof {
                if mc.len() != 0 {
                    assert(starts_with(message@, "__"@));
                }
            }
            return None;
        }
        let piece = string_of(&cs, pos, start);
        let ghost before = out@;
        out.append(piece.as_str());
        out.append(message);
        proof {
            assert(!starts_with(message@, "__"@)) by {
                if starts_with(message@, "__"@) {
                    assert(mc@.subrange(0, 2) == close_tag@);
                }
            }
            match subst_at(cs@, end + 2, *messages) {
                Some(t) => {
                    assert(before + (piece@ + message@ + t) =~= out@ + t);
                },
                None => {},
            }
        }
        pos = end + 2;
    }
}

/// Locale catalog recorded for `locale`: the document in its
/// `messages.json` text, `None` when that was not read or is not JSON.
pub open spec fn catalog_for(catalogs: Seq<(String, Option<String>)>, locale: Seq<char>) -> Option<JsonValue>
    decreases catalogs.len(),
{
    if catalogs.len() == 0 {
        None
    } else if catalogs[0].0@ == locale {
        crate::json::parsed_text(catalogs[0].1)
    } else {
        catalog_for(catalogs.drop_first(), locale)
    }
}

/// Localization of `s` along `chain[i..]`: the first locale whose catalog is
/// an object and substitutes `s` into a non-empty string.
pub open spec fn localize_from(
    s: Seq<char>,
    chain: Seq<Seq<char>>,
    catalogs: Seq<(String, Option<String>)>,
    i: int,
) -> Option<Seq<char>>
    decreases chain.len() - i,
{
    if i < 0 || i >= chain.len() {
        None
    } else {
        let hit = match catalog_for(catalogs, chain[i]) {
            Some(m) => if m.spec_entries() is Some {
                match spec_substitute(s, m) {
                    Some(t) => if t.len() > 0 {
                        Some(t)
                    } else {
                        None
                    },
                    None => None,
                }
            } else {
                None
            },
            None => None,
        };
        match hit {
            Some(t) => Some(t),
            None => localize_from(s, chain, catalogs, i + 1),
        }
    }
}

fn catalog_lookup(catalogs: &Vec<(String, Option<String>)>, locale: &str) -> (r: Option<JsonValue>)
    ensures
        r == catalog_for(catalogs@, locale@),
{
    let mut i: usize = 0;
    assert(catalogs@.skip(0) =~= catalogs@);
    while i < catalogs.len()
        invariant
            i <= catalogs@.len(),
            catalog_for(catalogs@, locale@) == catalog_for(catalogs@.skip(i as int), locale@),
        decreases catalogs@.len() - i,
    {
        if str_eq(catalogs[i].0.as_str(), locale) {
            return crate::json::parse_text(&catalogs[i].1);
        }
        assert(catalogs@.skip(i as int).drop_first() =~= catalogs@.skip(i + 1));
        i = i + 1;
    }
    None
}

/// Localize a manifest string (`name`, `default_title`, ...) along `chain`.
pub fn localize_string(s: &str, chain: &Vec<String>, catalogs: &Vec<(String, Option<String>)>) -> (r: Option<String>)
    ensures
        match r {
            Some(t) => localize_from(s@, strings_view(chain@), catalogs@, 0) == Some(t@),
            None => localize_from(s@, strings_view(chain@), catalogs@, 0) is None,
        },
{
    let mut i: usize = 0;
    while i < chain.len()
        invariant
            i <= chain@.len(),
            localize_from(s@, strings_view(chain@), catalogs@, 0) == localize_from(
                s@,
                strings_view(chain@),
                catalogs@,
                i as int,
            ),
        decreases chain@.len() - i,
    {
        assert(strings_view(chain@)[i as int] == chain@[i as int]@);
        match catalog_lookup(catalogs, chain[i].as_str()) {
            Some(m) => {
                if m.is_object() {
                    match substitute_placeholders(s, &m) {
                        Some(t) => {
                            if !t.as_str().is_empty() {
                                return Some(t);
                            }
                        },
                        None => {},
                    }
                }
            },
            None => {},
        }
        i = i + 1;
    }
    None
}

/// Display name shown for an extension, from its active version's
/// manifest: the manifest `name` localized along the chain, else the action
/// title localized, else the name Chrome itself resolved (unless it is an
/// unresolved placeholder), else the raw manifest name, else the id.
pub open spec fn spec_display_name(
    ext_id: Seq<char>,
    manifest: JsonValue,
    pref_name: Option<Seq<char>>,
    lang: Seq<char>,
    catalogs: Seq<(String, Option<String>)>,
) -> Seq<char> {
    let def = crate::prefs::member_str(manifest.spec_get("default_locale"@));
    let chain = spec_locale_chain(lang, def);
    let name = crate::prefs::member_str(manifest.spec_get("name"@));
    let title = crate::prefs::member_str(manifest.spec_get2("action"@, "default_title"@));
    let from_name = match name {
        Some(n) => if n.len() > 0 {
            localize_from(n, chain, catalogs, 0)
        } else {
            None
        },
        None => None,
    };
    let from_title = match title {
        Some(t) => if t.len() > 0 {
            localize_from(t, chain, catalogs, 0)
        } else {
            None
        },
        None => None,
    };
    if from_name is Some {
        from_name.unwrap()
    } else if from_title is Some {
        from_title.unwrap()
    } else if pref_name matches Some(p) && p.len() > 0 && !starts_with(p, "__MSG"@) {
        pref_name.unwrap()
    } else if name matches Some(n) && n.len() > 0 {
        name.unwrap()
    } else {
        ext_id
    }
}

/// Resolve the display name of an extension for UI language `lang`.
/// `catalogs` holds the locale message catalogs of the active version
/// directory that could be read.
pub fn resolve_display_name(
    ext_id: &str,
    manifest: &JsonValue,
    pref_name: Option<&str>,
    lang: &str,
    catalogs: &Vec<(String, Option<String>)>,
) -> (r: String)
    ensures
        r@ == spec_display_name(
            ext_id@,
            *manifest,
            match pref_name {
                Some(p) => Some(p@),
                None => None,
            },
            lang@,
            catalogs@,
        ),
{
    let default_locale = match manifest.get("default_locale") {
        Some(v) => v.as_str(),
        None => None,
    };
    let chain = locale_chain(lang, default_locale);
    let name = match manifest.get("name") {
        Some(v) => v.as_str(),
        None => None,
    };
    match name {
        Some(raw) => {
            if !raw.is_empty() {
                match localize_string(raw, &chain, catalogs) {
                    Some(l) => return l,
                    None => {},
                }
            }
        },
        None => {},
    }
    let title = match manifest.get("action") {
        Some(a) => match a.get("default_title") {
            Some(t) => t.as_str(),
            None => None,
        },
        None => None,
    };
    match title {
        Some(t) => {
            if !t.is_empty() {
                match localize_string(t, &chain, catalogs) {
                    Some(l) => return l,
                    None => {},
                }
            }
        },
        None => {},
    }
    match pref_name {
        Some(p) => {
            let pc = chars_of(p);
            let tag = chars_of("__MSG");
            if !p.is_empty() && !matches_at(&pc, &tag, 0) {
                return p.to_owned();
            }
        },
        None => {},
    }
    match name {
        Some(n) => {
            if !n.is_empty() {
                return n.to_owned();
            }
        },
        None => {},
    }
    ext_id.to_owned()
}

} // verus!
