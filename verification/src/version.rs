//! Chrome extension version type.
//!
//! Chrome versions are 1-4 dot-separated integers, each in 0..=65535.
//! Anything else is rejected (fail closed). On-disk directory names append
//! a numeric suffix: `<version>_<n>` (usually `_0`).

use vstd::prelude::*;
use crate::text::{all_digits, chars_of, dec_digits, decimal_value, digit_value, is_digit};

verus! {

/// A validated Chrome-style version: up to 4 numeric segments, missing
/// segments counting as zero.
#[derive(Debug, Clone, Copy, PartialEq, Eq, Ord, Structural)]
pub struct ChromeVersion {
    pub p0: u16,
    pub p1: u16,
    pub p2: u16,
    pub p3: u16,
}

/// The pieces of `s` between occurrences of `sep`, as `str::split` yields
/// them (an empty string yields one empty piece).
pub open spec fn split_on(s: Seq<char>, sep: char) -> Seq<Seq<char>>
    decreases s.len(),
{
    if s.len() == 0 {
        seq![Seq::<char>::empty()]
    } else {
        let prev = split_on(s.drop_last(), sep);
        if s.last() == sep {
            prev.push(Seq::<char>::empty())
        } else {
            prev.update(prev.len() - 1, prev.last().push(s.last()))
        }
    }
}

/// One accepted version segment: non-empty digits, no leading zero, at most
/// 65535.
pub open spec fn valid_segment(seg: Seq<char>) -> bool {
    &&& seg.len() > 0
    &&& all_digits(seg)
    &&& !(seg.len() > 1 && seg[0] == '0')
    &&& decimal_value(seg) <= 65535
}

/// Value of segment `i`, zero when absent.
pub open spec fn segment_part(segs: Seq<Seq<char>>, i: int) -> u16 {
    if i < segs.len() {
        decimal_value(segs[i]) as u16
    } else {
        0
    }
}

/// What `ChromeVersion::parse` accepts and returns.
pub open spec fn spec_parse(s: Seq<char>) -> Option<ChromeVersion> {
    let segs = split_on(s, '.');
    if 1 <= segs.len() <= 4 && forall|i: int| 0 <= i < segs.len() ==> valid_segment(#[trigger] segs[i]) {
        Some(ChromeVersion::from_parts(
            segment_part(segs, 0),
            segment_part(segs, 1),
            segment_part(segs, 2),
            segment_part(segs, 3),
        ))
    } else {
        None
    }
}

/// Index of the last `c` in `s`, or -1.
pub open spec fn rfind_char(s: Seq<char>, c: char) -> int
    decreases s.len(),
{
    if s.len() == 0 {
        -1
    } else if s.last() == c {
        s.len() - 1
    } else {
        rfind_char(s.drop_last(), c)
    }
}

/// What `split_dir_name` returns: the version before the last `_`, and the
/// numeric suffix after it (non-empty digits that fit in a `u32`).
pub open spec fn spec_split_dir_name(s: Seq<char>) -> Option<(ChromeVersion, u32)> {
    let k = rfind_char(s, '_');
    if k < 0 {
        None
    } else {
        let suffix = s.subrange(k + 1, s.len() as int);
        match spec_parse(s.subrange(0, k)) {
            None => None,
            Some(v) => if suffix.len() > 0 && all_digits(suffix) && decimal_value(suffix)
                <= u32::MAX {
                Some((v, decimal_value(suffix) as u32))
            } else {
                None
            },
        }
    }
}

impl ChromeVersion {
    pub open spec fn from_parts(p0: u16, p1: u16, p2: u16, p3: u16) -> ChromeVersion {
        ChromeVersion { p0, p1, p2, p3 }
    }

    /// The four numeric segments.
    pub open spec fn parts(self) -> (u16, u16, u16, u16) {
        (self.p0, self.p1, self.p2, self.p3)
    }

    /// Numeric, segment-by-segment ordering: `self` is strictly older.
    pub open spec fn older(self, other: ChromeVersion) -> bool {
        ||| self.p0 < other.p0
        ||| (self.p0 == other.p0 && self.p1 < other.p1)
        ||| (self.p0 == other.p0 && self.p1 == other.p1 && self.p2 < other.p2)
        ||| (self.p0 == other.p0 && self.p1 == other.p1 && self.p2 == other.p2 && self.p3
            < other.p3)
    }

    /// Strict parse. Returns `None` for wrong segment counts, non-digit
    /// segments, leading zeros, or values above 65535.
    pub fn parse(s: &str) -> (r: Option<ChromeVersion>)
        ensures
            r == spec_parse(s@),
    {
        let cs = chars_of(s);
        assert(cs@.subrange(0, cs@.len() as int) =~= cs@);
        parse_chars(&cs, 0, cs.len())
    }

    /// Whether `self` is strictly older than `other`.
    pub fn is_older_than(&self, other: &ChromeVersion) -> (r: bool)
        ensures
            r == self.older(*other),
    {
        if self.p0 != other.p0 {
            self.p0 < other.p0
        } else if self.p1 != other.p1 {
            self.p1 < other.p1
        } else if self.p2 != other.p2 {
            self.p2 < other.p2
        } else {
            self.p3 < other.p3
        }
    }

    /// Whether `self` and `other` are the same version.
    pub fn same_as(&self, other: &ChromeVersion) -> (r: bool)
        ensures
            r == (*self == *other),
    {
        self.p0 == other.p0 && self.p1 == other.p1 && self.p2 == other.p2 && self.p3 == other.p3
    }
}

impl PartialOrd for ChromeVersion {
    fn partial_cmp(&self, other: &ChromeVersion) -> (r: Option<core::cmp::Ordering>) {
        if self.is_older_than(other) {
            Some(core::cmp::Ordering::Less)
        } else if self.same_as(other) {
            Some(core::cmp::Ordering::Equal)
        } else {
            Some(core::cmp::Ordering::Greater)
        }
    }
}

impl vstd::std_specs::cmp::PartialOrdSpecImpl for ChromeVersion {
    open spec fn obeys_partial_cmp_spec() -> bool {
        true
    }

    open spec fn partial_cmp_spec(&self, other: &ChromeVersion) -> Option<core::cmp::Ordering> {
        if self.older(*other) {
            Some(core::cmp::Ordering::Less)
        } else if *self == *other {
            Some(core::cmp::Ordering::Equal)
        } else {
            Some(core::cmp::Ordering::Greater)
        }
    }
}

/// Version order is a strict total order: for any two versions exactly one
/// of "older", "equal", "newer" holds, and "older" is transitive.
pub proof fn law_version_order_is_total(a: ChromeVersion, b: ChromeVersion, c: ChromeVersion)
    ensures
        a.older(b) || a == b || b.older(a),
        !(a.older(b) && a == b),
        !(a.older(b) && b.older(a)),
        !a.older(a),
        a.older(b) && b.older(c) ==> a.older(c),
{
}

/// The number a version stands for when its four segments are read as the
/// digits of one base-65536 numeral.
pub open spec fn version_number(v: ChromeVersion) -> int {
    ((v.p0 as int * 65536 + v.p1 as int) * 65536 + v.p2 as int) * 65536 + v.p3 as int
}

/// Versions are ordered by all four segments at once, as numbers: `a` is
/// older than `b` exactly when it stands for the smaller number, so a
/// change in any segment (a patch or build update too) orders them.
pub proof fn law_version_order_is_numeric(a: ChromeVersion, b: ChromeVersion)
    ensures
        a.older(b) <==> version_number(a) < version_number(b),
        a == b <==> version_number(a) == version_number(b),
{
}

proof fn lemma_split_chars(s: Seq<char>, sep: char)
    ensures
        forall|i: int| 0 <= i < s.len() && #[trigger] s[i] != sep ==> exists|p: int|
            0 <= p < split_on(s, sep).len() && (#[trigger] split_on(s, sep)[p]).contains(s[i]),
        split_on(s, sep).len() >= 1,
    decreases s.len(),
{
    if s.len() > 0 {
        let t = s.drop_last();
        lemma_split_chars(t, sep);
        let prev = split_on(t, sep);
        let cur = split_on(s, sep);
        assert forall|i: int| 0 <= i < s.len() && #[trigger] s[i] != sep implies exists|p: int|
            0 <= p < cur.len() && (#[trigger] cur[p]).contains(s[i]) by {
            if i < s.len() - 1 {
                assert(t[i] == s[i]);
                let p = choose|p: int| 0 <= p < prev.len() && (#[trigger] prev[p]).contains(t[i]);
                let w = choose|w: int| 0 <= w < prev[p].len() && prev[p][w] == t[i];
                if s.last() == sep || p < prev.len() - 1 {
                    assert(cur[p] == prev[p]);
                } else {
                    assert(cur[p] == prev[p].push(s.last()));
                    assert(cur[p][w] == s[i]);
                }
            } else {
                let p = prev.len() - 1;
                assert(cur[p] == prev[p].push(s.last()));
                assert(cur[p][prev[p].len() as int] == s[i]);
            }
        }
    }
}

proof fn lemma_valid_text_has_no_underscore(t: Seq<char>)
    requires
        spec_parse(t) is Some,
    ensures
        !t.contains('_'),
{
    lemma_split_chars(t, '.');
    if t.contains('_') {
        let i = choose|i: int| 0 <= i < t.len() && t[i] == '_';
        let segs = split_on(t, '.');
        let p = choose|p: int| 0 <= p < segs.len() && (#[trigger] segs[p]).contains(t[i]);
        assert(valid_segment(segs[p]));
        let w = choose|w: int| 0 <= w < segs[p].len() && segs[p][w] == t[i];
        assert(is_digit(segs[p][w]));
    }
}

proof fn lemma_rfind_after(t: Seq<char>, d: Seq<char>)
    requires
        forall|i: int| 0 <= i < d.len() ==> #[trigger] d[i] != '_',
    ensures
        rfind_char(t + seq!['_'] + d, '_') == t.len(),
    decreases d.len(),
{
    let w = t + seq!['_'] + d;
    if d.len() == 0 {
        assert(w.last() == '_');
    } else {
        assert(w.last() == d.last());
        assert(w.drop_last() =~= t + seq!['_'] + d.drop_last());
        lemma_rfind_after(t, d.drop_last());
    }
}

/// Directory names round-trip: a valid version text followed by `_` and a
/// decimal suffix that fits in a `u32` splits back into that version and
/// that suffix.
pub proof fn law_split_dir_name_round_trip(t: Seq<char>, n: nat)
    requires
        spec_parse(t) is Some,
        n <= u32::MAX,
    ensures
        spec_split_dir_name(t + seq!['_'] + dec_digits(n)) == Some((spec_parse(t).unwrap(), n as u32)),
{
    let d = dec_digits(n);
    let w = t + seq!['_'] + d;
    crate::text::lemma_dec_digits_are_digits(n);
    crate::text::lemma_dec_digits_value(n);
    assert forall|i: int| 0 <= i < d.len() implies #[trigger] d[i] != '_' by {
        assert(is_digit(d[i]));
    }
    lemma_rfind_after(t, d);
    lemma_valid_text_has_no_underscore(t);
    assert(w.subrange(0, t.len() as int) =~= t);
    assert(w.subrange(t.len() as int + 1, w.len() as int) =~= d);
    assert(d.len() > 0);
}

/// Missing trailing segments count as zero: appending `.0` to a version of
/// fewer than four segments names the same version (`1.0` equals `1.0.0`).
pub proof fn law_trailing_zero_segment(s: Seq<char>)
    requires
        spec_parse(s) is Some,
        split_on(s, '.').len() < 4,
    ensures
        spec_parse(s + seq!['.', '0']) == spec_parse(s),
{
    let t = s + seq!['.', '0'];
    let segs = split_on(s, '.');
    assert(t.drop_last() =~= s.push('.'));
    assert(s.push('.').drop_last() =~= s);
    let segs2 = split_on(t, '.');
    assert(split_on(s.push('.'), '.') == segs.push(Seq::<char>::empty()));
    assert(segs2 =~= segs.push(seq!['0']));
    assert(seq!['0'].drop_last() =~= Seq::<char>::empty());
    assert(decimal_value(Seq::<char>::empty()) == 0);
    assert(decimal_value(seq!['0']) == 0);
    assert(valid_segment(seq!['0']));
    assert forall|i: int| 0 <= i < segs2.len() implies valid_segment(#[trigger] segs2[i]) by {
        if i < segs.len() {
            assert(segs2[i] == segs[i]);
        }
    }
    assert(forall|i: int| 0 <= i < 4 ==> segment_part(segs2, i) == segment_part(segs, i));
}

proof fn lemma_split_step(p: Seq<char>, c: char, sep: char)
    ensures
        split_on(p.push(c), sep) == (if c == sep {
            split_on(p, sep).push(Seq::<char>::empty())
        } else {
            let prev = split_on(p, sep);
            prev.update(prev.len() - 1, prev.last().push(c))
        }),
{
    assert(p.push(c).drop_last() =~= p);
}

/// Parses the version written in `cs[lo..hi]`.
pub fn parse_chars(cs: &Vec<char>, lo: usize, hi: usize) -> (r: Option<ChromeVersion>)
    requires
        lo <= hi <= cs@.len(),
    ensures
        r == spec_parse(cs@.subrange(lo as int, hi as int)),
{
    let ghost full = cs@.subrange(lo as int, hi as int);
    let mut count: usize = 0;
    let mut ok = true;
    let mut parts: Vec<u16> = Vec::new();
    let mut cur_len: usize = 0;
    let mut cur_digits = true;
    let mut cur_lead_zero = false;
    let mut cur_val: u32 = 0;
    let mut i = lo;
    assert(cs@.subrange(lo as int, lo as int) =~= Seq::<char>::empty());
    while i < hi
        invariant
            lo <= i <= hi <= cs@.len(),
            full == cs@.subrange(lo as int, hi as int),
            count <= i - lo,
            cur_len <= i - lo,
            ({
                let segs = split_on(cs@.subrange(lo as int, i as int), '.');
                &&& segs.len() == count + 1
                &&& (ok <==> forall|j: int| 0 <= j < count ==> valid_segment(#[trigger] segs[j]))
                &&& parts@.len() == if count < 4 { count } else { 4 }
                &&& (ok ==> forall|j: int| 0 <= j < parts@.len() ==> #[trigger] parts@[j]
                    == decimal_value(segs[j]) as u16)
                &&& cur_len == segs.last().len()
                &&& (cur_digits <==> all_digits(segs.last()))
                &&& (cur_len > 0 ==> (cur_lead_zero <==> segs.last()[0] == '0'))
                &&& (cur_digits ==> cur_val == if decimal_value(segs.last()) < 65536 {
                    decimal_value(segs.last())
                } else {
                    65536
                })
            }),
        decreases hi - i,
    {
        let c = cs[i];
        let ghost prev_prefix = cs@.subrange(lo as int, i as int);
        let ghost prev = split_on(prev_prefix, '.');
        proof {
            assert(cs@.subrange(lo as int, i + 1) =~= prev_prefix.push(c));
            lemma_split_step(prev_prefix, c, '.');
        }
        if c == '.' {
            let seg_ok = cur_len > 0 && cur_digits && !(cur_len > 1 && cur_lead_zero) && cur_val
                <= 65535;
            assert(seg_ok == valid_segment(prev.last()));
            if !seg_ok {
                ok = false;
            }
            if count < 4 {
                parts.push(if seg_ok { cur_val as u16 } else { 0 });
            }
            count = count + 1;
            cur_len = 0;
            cur_digits = true;
            cur_lead_zero = false;
            cur_val = 0;
            proof {
                let segs = split_on(cs@.subrange(lo as int, i + 1), '.');
                assert(segs == prev.push(Seq::<char>::empty()));
                assert(forall|j: int| 0 <= j < count - 1 ==> segs[j] == prev[j]);
                assert(segs[count - 1] == prev.last());
                assert(decimal_value(Seq::<char>::empty()) == 0);
            }
        } else {
            let ghost last = prev.last();
            if cur_len == 0 {
                cur_lead_zero = c == '0';
            }
            cur_len = cur_len + 1;
            if '0' <= c && c <= '9' {
                let d: u32 = (c as u32) - ('0' as u32);
                if cur_val > 65535 {
                    cur_val = 65536;
                } else {
                    let nv = cur_val * 10 + d;
                    cur_val = if nv > 65536 { 65536 } else { nv };
                }
            } else {
                cur_digits = false;
            }
            proof {
                let segs = split_on(cs@.subrange(lo as int, i + 1), '.');
                assert(segs.last() == last.push(c));
                assert(last.push(c).drop_last() =~= last);
                assert(forall|j: int| 0 <= j < count ==> segs[j] == prev[j]);
                if cur_digits {
                    assert(all_digits(last));
                    assert(decimal_value(last.push(c)) == decimal_value(last) * 10 + digit_value(c));
                }
                assert(all_digits(last.push(c)) == (all_digits(last) && is_digit(c))) by {
                    if all_digits(last) && is_digit(c) {
                        assert forall|j: int| 0 <= j < last.push(c).len() implies is_digit(
                            #[trigger] last.push(c)[j],
                        ) by {
                            if j < last.len() {
                                assert(last.push(c)[j] == last[j]);
                            }
                        }
                    }
                    if all_digits(last.push(c)) {
                        assert(is_digit(last.push(c)[last.len() as int]));
                        assert forall|j: int| 0 <= j < last.len() implies is_digit(
                            #[trigger] last[j],
                        ) by {
                            assert(last.push(c)[j] == last[j]);
                        }
                    }
                }
                if cur_len > 1 {
                    assert(last.push(c)[0] == last[0]);
                }
            }
        }
        i = i + 1;
    }
    let ghost segs = split_on(cs@.subrange(lo as int, hi as int), '.');
    let last_ok = cur_len > 0 && cur_digits && !(cur_len > 1 && cur_lead_zero) && cur_val <= 65535;
    assert(last_ok == valid_segment(segs.last()));
    if ok && last_ok && count < 4 {
        let mut vals: [u16; 4] = [0, 0, 0, 0];
        let mut j: usize = 0;
        while j < count
            invariant
                j <= count < 4,
                parts@.len() == count,
                forall|k: int| 0 <= k < j ==> vals@[k] == parts@[k],
                forall|k: int| j <= k < 4 ==> vals@[k] == 0,
            decreases count - j,
        {
            vals[j] = parts[j];
            j = j + 1;
        }
        vals[count] = cur_val as u16;
        let v = ChromeVersion { p0: vals[0], p1: vals[1], p2: vals[2], p3: vals[3] };
        proof {
            assert forall|k: int| 0 <= k < segs.len() implies valid_segment(#[trigger] segs[k]) by {
                if k < count {
                } else {
                    assert(k == count);
                }
            }
            assert(v.p0 == segment_part(segs, 0));
            assert(v.p1 == segment_part(segs, 1));
            assert(v.p2 == segment_part(segs, 2));
            assert(v.p3 == segment_part(segs, 3));
        }
        Some(v)
    } else {
        proof {
            if !(segs.len() > 4) {
                if !ok {
                    let j = choose|j: int| 0 <= j < count && !valid_segment(#[trigger] segs[j]);
                    assert(!valid_segment(segs[j]));
                } else {
                    assert(!valid_segment(segs[count as int]));
                }
            }
        }
        None
    }
}

/// Split `<version>_<n>` into its version and suffix.
/// Returns `None` for anything that does not strictly match.
pub fn split_dir_name(dirname: &str) -> (r: Option<(ChromeVersion, u32)>)
    ensures
        r == spec_split_dir_name(dirname@),
{
    let cs = chars_of(dirname);
    split_dir_chars(&cs)
}

/// `split_dir_name` over a character vector.
pub fn split_dir_chars(cs: &Vec<char>) -> (r: Option<(ChromeVersion, u32)>)
    ensures
        r == spec_split_dir_name(cs@),
{
    let n = cs.len();
    let k = match last_index_of(cs, '_') {
        Some(k) => k,
        None => return None,
    };
    let version = match parse_chars(cs, 0, k) {
        Some(v) => v,
        None => return None,
    };
    let (digits, value) = digits_value_capped(cs, k + 1, n, 0x1_0000_0000);
    if k + 1 < n && digits && value <= 0xffff_ffff {
        Some((version, value as u32))
    } else {
        None
    }
}

/// Index of the last `c` in `cs`.
pub fn last_index_of(cs: &Vec<char>, c: char) -> (r: Option<usize>)
    ensures
        match r {
            Some(k) => rfind_char(cs@, c) == k as int && k < cs@.len(),
            None => rfind_char(cs@, c) < 0,
        },
{
    let n = cs.len();
    let mut k = n;
    assert(cs@.subrange(0, n as int) =~= cs@);
    while k > 0 && cs[k - 1] != c
        invariant
            k <= n == cs@.len(),
            rfind_char(cs@, c) == rfind_char(cs@.subrange(0, k as int), c),
        decreases k,
    {
        proof {
            assert(cs@.subrange(0, k as int).drop_last() =~= cs@.subrange(0, k - 1));
        }
        k = k - 1;
    }
    if k == 0 {
        assert(cs@.subrange(0, 0) =~= Seq::<char>::empty());
        None
    } else {
        assert(cs@.subrange(0, k as int).last() == c);
        Some(k - 1)
    }
}

/// Whether `cs[lo..hi]` is all digits, and its value capped at `cap`.
pub fn digits_value_capped(cs: &Vec<char>, lo: usize, hi: usize, cap: u64) -> (r: (bool, u64))
    requires
        lo <= hi <= cs@.len(),
        0 < cap < u64::MAX / 16,
    ensures
        r.0 == all_digits(cs@.subrange(lo as int, hi as int)),
        r.0 ==> r.1 == if decimal_value(cs@.subrange(lo as int, hi as int)) < cap {
            decimal_value(cs@.subrange(lo as int, hi as int))
        } else {
            cap as nat
        },
{
    let mut i = lo;
    let mut val: u64 = 0;
    assert(cs@.subrange(lo as int, lo as int) =~= Seq::<char>::empty());
    while i < hi
        invariant
            lo <= i <= hi <= cs@.len(),
            0 < cap < u64::MAX / 16,
            all_digits(cs@.subrange(lo as int, i as int)),
            val == if decimal_value(cs@.subrange(lo as int, i as int)) < cap {
                decimal_value(cs@.subrange(lo as int, i as int))
            } else {
                cap as nat
            },
        decreases hi - i,
    {
        let c = cs[i];
        let ghost pre = cs@.subrange(lo as int, i as int);
        assert(cs@.subrange(lo as int, i + 1) =~= pre.push(c));
        assert(pre.push(c).drop_last() =~= pre);
        if !('0' <= c && c <= '9') {
            assert(!is_digit(cs@.subrange(lo as int, hi as int)[i - lo]));
            return (false, 0);
        }
        let d: u64 = (c as u64) - ('0' as u64);
        if val >= cap {
            val = cap;
        } else {
            let nv = val * 10 + d;
            val = if nv > cap { cap } else { nv };
        }
        assert forall|j: int| 0 <= j < pre.push(c).len() implies is_digit(#[trigger] pre.push(c)[j]) by {
            if j < pre.len() {
                assert(pre.push(c)[j] == pre[j]);
            }
        }
        i = i + 1;
    }
    (true, val)
}

proof fn lemma_rfind_found(s: Seq<char>, c: char)
    ensures
        -1 <= rfind_char(s, c) < s.len(),
        rfind_char(s, c) >= 0 ==> s[rfind_char(s, c)] == c,
    decreases s.len(),
{
    if s.len() > 0 && s.last() != c {
        lemma_rfind_found(s.drop_last(), c);
        let k = rfind_char(s.drop_last(), c);
        if k >= 0 {
            assert(s[k] == s.drop_last()[k]);
        }
    }
}

/// `w` is a version text `t`, then `_`, then a non-empty decimal suffix `d`
/// whose value fits in a `u32`.
pub open spec fn dir_name_parts(w: Seq<char>, t: Seq<char>, d: Seq<char>) -> bool {
    &&& w == t + seq!['_'] + d
    &&& spec_parse(t) is Some
    &&& d.len() > 0
    &&& all_digits(d)
    &&& decimal_value(d) <= u32::MAX
}

/// A directory name splits exactly when it is a version text followed by
/// `_` and a decimal suffix that fits in a `u32`, and then into that
/// version and that suffix's value (leading zeros allowed).
pub proof fn law_split_dir_name_exactly(w: Seq<char>)
    ensures
        spec_split_dir_name(w) is Some <==> exists|t: Seq<char>, d: Seq<char>| #[trigger] dir_name_parts(w, t, d),
        forall|t: Seq<char>, d: Seq<char>| #[trigger] dir_name_parts(w, t, d)
            ==> spec_split_dir_name(w) == Some((spec_parse(t).unwrap(), decimal_value(d) as u32)),
{
    assert forall|t: Seq<char>, d: Seq<char>| #[trigger] dir_name_parts(w, t, d)
        implies spec_split_dir_name(w) == Some((spec_parse(t).unwrap(), decimal_value(d) as u32)) by {
        assert forall|i: int| 0 <= i < d.len() implies #[trigger] d[i] != '_' by {
            assert(is_digit(d[i]));
        }
        lemma_rfind_after(t, d);
        assert(w.subrange(0, t.len() as int) =~= t);
        assert(w.subrange(t.len() as int + 1, w.len() as int) =~= d);
    }
    if spec_split_dir_name(w) is Some {
        lemma_rfind_found(w, '_');
        let k = rfind_char(w, '_');
        let t = w.subrange(0, k);
        let d = w.subrange(k + 1, w.len() as int);
        assert(w =~= t + seq!['_'] + d);
        assert(dir_name_parts(w, t, d));
    }
}

} // verus!
