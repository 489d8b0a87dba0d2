//! Orderings used by the inventory: code-point string order and a stable
//! sort.

use vstd::prelude::*;
use crate::text::chars_of;

verus! {

/// Lexicographic order of character sequences (the order `String`'s `Ord`
/// gives, since UTF-8 preserves code point order): `a` sorts strictly
/// before `b`.
pub open spec fn seq_lt(a: Seq<char>, b: Seq<char>) -> bool
    decreases a.len(),
{
    if a.len() == 0 {
        b.len() > 0
    } else if b.len() == 0 {
        false
    } else if a[0] != b[0] {
        a[0] < b[0]
    } else {
        seq_lt(a.drop_first(), b.drop_first())
    }
}

/// Whether `a` sorts strictly before `b`.
pub fn str_less(a: &str, b: &str) -> (r: bool)
    ensures
        r == seq_lt(a@, b@),
{
    let x = chars_of(a);
    let y = chars_of(b);
    let mut i: usize = 0;
    assert(x@.skip(0) =~= x@);
    assert(y@.skip(0) =~= y@);
    while i < x.len() && i < y.len() && x[i] == y[i]
        invariant
            i <= x@.len(),
            i <= y@.len(),
            seq_lt(x@, y@) == seq_lt(x@.skip(i as int), y@.skip(i as int)),
        decreases x@.len() - i,
    {
        assert(x@.skip(i as int).drop_first() =~= x@.skip(i + 1));
        assert(y@.skip(i as int).drop_first() =~= y@.skip(i + 1));
        i = i + 1;
    }
    if i == x.len() {
        i < y.len()
    } else if i == y.len() {
        false
    } else {
        x[i] < y[i]
    }
}

/// `x` inserted into `sorted` just before the first element it strictly
/// precedes (at the end when there is none): equal elements keep their
/// order of arrival.
pub open spec fn insert_stable<T>(sorted: Seq<T>, x: T, before: spec_fn(T, T) -> bool) -> Seq<T>
    decreases sorted.len(),
{
    if sorted.len() == 0 {
        seq![x]
    } else if before(x, sorted[0]) {
        seq![x] + sorted
    } else {
        seq![sorted[0]] + insert_stable(sorted.drop_first(), x, before)
    }
}

/// Stable sort of `s` by the strict order `before`.
pub open spec fn stable_sort<T>(s: Seq<T>, before: spec_fn(T, T) -> bool) -> Seq<T>
    decreases s.len(),
{
    if s.len() == 0 {
        Seq::<T>::empty()
    } else {
        insert_stable(stable_sort(s.drop_last(), before), s.last(), before)
    }
}

/// Position at which `insert_stable` places `x`.
pub open spec fn insert_pos<T>(sorted: Seq<T>, x: T, before: spec_fn(T, T) -> bool) -> int
    decreases sorted.len(),
{
    if sorted.len() == 0 {
        0
    } else if before(x, sorted[0]) {
        0
    } else {
        1 + insert_pos(sorted.drop_first(), x, before)
    }
}

pub proof fn lemma_insert_pos<T>(sorted: Seq<T>, x: T, before: spec_fn(T, T) -> bool)
    ensures
        0 <= insert_pos(sorted, x, before) <= sorted.len(),
        insert_stable(sorted, x, before) == sorted.insert(insert_pos(sorted, x, before), x),
        forall|i: int| 0 <= i < insert_pos(sorted, x, before) ==> !before(x, #[trigger] sorted[i]),
        insert_pos(sorted, x, before) < sorted.len() ==> before(x, sorted[insert_pos(sorted, x, before)]),
    decreases sorted.len(),
{
    if sorted.len() == 0 {
        assert(sorted.insert(0, x) =~= seq![x]);
    } else if before(x, sorted[0]) {
        assert(sorted.insert(0, x) =~= seq![x] + sorted);
    } else {
        let rest = sorted.drop_first();
        lemma_insert_pos(rest, x, before);
        let p = insert_pos(rest, x, before);
        assert(seq![sorted[0]] + rest.insert(p, x) =~= sorted.insert(p + 1, x));
        assert forall|i: int| 0 <= i < p + 1 implies !before(x, #[trigger] sorted[i]) by {
            if i > 0 {
                assert(sorted[i] == rest[i - 1]);
            }
        }
        if p < rest.len() {
            assert(sorted[p + 1] == rest[p]);
        }
    }
}

/// Stable sort by an executable strict order that computes `gb`.
pub fn sort_stable<T, F: Fn(&T, &T) -> bool>(v: Vec<T>, before: F, Ghost(gb): Ghost<spec_fn(T, T) -> bool>) -> (r: Vec<T>)
    requires
        forall|a: &T, b: &T| #[trigger] before.requires((a, b)),
        forall|a: &T, b: &T, o: bool| before.ensures((a, b), o) ==> o == gb(*a, *b),
    ensures
        r@ == stable_sort(v@, gb),
{
    let ghost orig = v@;
    let mut src = v;
    let mut out: Vec<T> = Vec::new();
    let ghost mut n: int = 0;
    assert(orig.skip(0) =~= orig);
    assert(orig.take(0) =~= Seq::<T>::empty());
    while src.len() > 0
        invariant
            0 <= n <= orig.len(),
            src@ == orig.skip(n),
            out@ == stable_sort(orig.take(n), gb),
            forall|a: &T, b: &T| #[trigger] before.requires((a, b)),
            forall|a: &T, b: &T, o: bool| before.ensures((a, b), o) ==> o == gb(*a, *b),
        decreases src@.len(),
    {
        let x = src.remove(0);
        assert(x == orig[n]);
        let mut j: usize = 0;
        while j < out.len() && !before(&x, &out[j])
            invariant
                j <= out@.len(),
                forall|i: int| 0 <= i < j ==> !gb(x, #[trigger] out@[i]),
                forall|a: &T, b: &T| #[trigger] before.requires((a, b)),
                forall|a: &T, b: &T, o: bool| before.ensures((a, b), o) ==> o == gb(*a, *b),
            decreases out@.len() - j,
        {
            j = j + 1;
        }
        proof {
            lemma_insert_pos(out@, x, gb);
            let p = insert_pos(out@, x, gb);
            if (j as int) < p {
                assert(!gb(x, out@[j as int]));
            } else if (j as int) > p {
                assert(!gb(x, out@[p]));
            }
            assert(orig.take(n + 1).drop_last() =~= orig.take(n));
            assert(orig.take(n + 1).last() == x);
        }
        out.insert(j, x);
        proof {
            n = n + 1;
            assert(src@ =~= orig.skip(n));
        }
    }
    assert(orig.take(n) =~= orig);
    out
}

/// Sum of `f` over `s`.
pub open spec fn sum_by<T>(s: Seq<T>, f: spec_fn(T) -> nat) -> nat
    decreases s.len(),
{
    if s.len() == 0 {
        0
    } else {
        sum_by(s.drop_last(), f) + f(s.last())
    }
}

pub proof fn lemma_sum_by_insert<T>(s: Seq<T>, p: int, x: T, f: spec_fn(T) -> nat)
    requires
        0 <= p <= s.len(),
    ensures
        sum_by(s.insert(p, x), f) == sum_by(s, f) + f(x),
    decreases s.len(),
{
    if p == s.len() {
        assert(s.insert(p, x) =~= s.push(x));
        assert(s.push(x).drop_last() =~= s);
    } else {
        lemma_sum_by_insert(s.drop_last(), p, x, f);
        assert(s.insert(p, x).drop_last() =~= s.drop_last().insert(p, x));
        assert(s.insert(p, x).last() == s.last());
    }
}

pub proof fn lemma_sum_by_take<T>(s: Seq<T>, n: int, f: spec_fn(T) -> nat)
    requires
        0 <= n < s.len(),
    ensures
        sum_by(s.take(n + 1), f) == sum_by(s.take(n), f) + f(s[n]),
        sum_by(s.take(n + 1), f) <= sum_by(s, f),
    decreases s.len(),
{
    assert(s.take(n + 1).drop_last() =~= s.take(n));
    lemma_sum_by_prefix(s, n + 1, f);
}

pub proof fn lemma_sum_by_prefix<T>(s: Seq<T>, n: int, f: spec_fn(T) -> nat)
    requires
        0 <= n <= s.len(),
    ensures
        sum_by(s.take(n), f) <= sum_by(s, f),
    decreases s.len(),
{
    if n == s.len() {
        assert(s.take(n) =~= s);
    } else {
        lemma_sum_by_prefix(s.drop_last(), n, f);
        assert(s.drop_last().take(n) =~= s.take(n));
    }
}

/// A stable sort only reorders: every element of the result comes from
/// the input and every element of the input is in the result.
pub proof fn lemma_sort_permutes<T>(s: Seq<T>, before: spec_fn(T, T) -> bool)
    ensures
        stable_sort(s, before).len() == s.len(),
        forall|i: int| 0 <= i < s.len() ==> s.contains(#[trigger] stable_sort(s, before)[i]),
        forall|j: int| 0 <= j < s.len() ==> stable_sort(s, before).contains(#[trigger] s[j]),
    decreases s.len(),
{
    if s.len() > 0 {
        let t = s.drop_last();
        let x = s.last();
        lemma_sort_permutes(t, before);
        let prev = stable_sort(t, before);
        lemma_insert_pos(prev, x, before);
        let p = insert_pos(prev, x, before);
        let r = stable_sort(s, before);
        assert(r == prev.insert(p, x));
        assert forall|i: int| 0 <= i < s.len() implies s.contains(#[trigger] r[i]) by {
            if i < p {
                assert(r[i] == prev[i]);
                assert(t.contains(prev[i]));
                let j = choose|j: int| 0 <= j < t.len() && t[j] == prev[i];
                assert(s[j] == t[j]);
            } else if i == p {
                assert(s[s.len() - 1] == x);
            } else {
                assert(r[i] == prev[i - 1]);
                assert(t.contains(prev[i - 1]));
                let j = choose|j: int| 0 <= j < t.len() && t[j] == prev[i - 1];
                assert(s[j] == t[j]);
            }
        }
        assert forall|j: int| 0 <= j < s.len() implies r.contains(#[trigger] s[j]) by {
            if j == s.len() - 1 {
                assert(r[p] == x);
            } else {
                assert(s[j] == t[j]);
                assert(prev.contains(t[j]));
                let k = choose|k: int| 0 <= k < prev.len() && prev[k] == t[j];
                if k < p {
                    assert(r[k] == prev[k]);
                } else {
                    assert(r[k + 1] == prev[k]);
                }
            }
        }
    }
}

/// No two elements of `s` share a key.
pub open spec fn keys_distinct<T, K>(s: Seq<T>, key: spec_fn(T) -> K) -> bool {
    forall|i: int, j: int| 0 <= i < s.len() && 0 <= j < s.len() && i != j ==> key(#[trigger] s[i]) != key(#[trigger] s[j])
}

/// Sorting keeps keys distinct.
pub proof fn lemma_sort_keys_distinct<T, K>(s: Seq<T>, before: spec_fn(T, T) -> bool, key: spec_fn(T) -> K)
    requires
        keys_distinct(s, key),
    ensures
        keys_distinct(stable_sort(s, before), key),
    decreases s.len(),
{
    if s.len() > 0 {
        let t = s.drop_last();
        let x = s.last();
        assert(keys_distinct(t, key)) by {
            assert forall|i: int, j: int| 0 <= i < t.len() && 0 <= j < t.len() && i != j implies key(#[trigger] t[i]) != key(#[trigger] t[j]) by {
                assert(t[i] == s[i] && t[j] == s[j]);
            }
        }
        lemma_sort_keys_distinct(t, before, key);
        lemma_sort_permutes(t, before);
        let prev = stable_sort(t, before);
        lemma_insert_pos(prev, x, before);
        let p = insert_pos(prev, x, before);
        let r = stable_sort(s, before);
        assert(r == prev.insert(p, x));
        assert forall|i: int| 0 <= i < prev.len() implies key(#[trigger] prev[i]) != key(x) by {
            assert(t.contains(prev[i]));
            let j = choose|j: int| 0 <= j < t.len() && t[j] == prev[i];
            assert(s[j] == prev[i]);
            assert(s[s.len() - 1] == x);
        }
        assert forall|i: int, j: int| 0 <= i < r.len() && 0 <= j < r.len() && i != j implies key(#[trigger] r[i]) != key(#[trigger] r[j]) by {
            let pi = if i < p { i } else { i - 1 };
            let pj = if j < p { j } else { j - 1 };
            if i == p {
                assert(key(prev[pj]) != key(x));
            } else if j == p {
                assert(key(prev[pi]) != key(x));
            } else {
                assert(r[i] == prev[pi]);
                assert(r[j] == prev[pj]);
            }
        }
    }
}

/// A stable sort keeps every element: the length and any sum are unchanged.
pub proof fn lemma_sort_sum<T>(s: Seq<T>, before: spec_fn(T, T) -> bool, f: spec_fn(T) -> nat)
    ensures
        stable_sort(s, before).len() == s.len(),
        sum_by(stable_sort(s, before), f) == sum_by(s, f),
    decreases s.len(),
{
    if s.len() > 0 {
        lemma_sort_sum(s.drop_last(), before, f);
        let sorted = stable_sort(s.drop_last(), before);
        lemma_insert_pos(sorted, s.last(), before);
        lemma_sum_by_insert(sorted, insert_pos(sorted, s.last(), before), s.last(), f);
    }
}

/// `seq_lt` never holds both ways.
pub proof fn lemma_seq_lt_asymmetric(a: Seq<char>, b: Seq<char>)
    ensures
        !(seq_lt(a, b) && seq_lt(b, a)),
    decreases a.len(),
{
    if a.len() > 0 && b.len() > 0 && a[0] == b[0] {
        lemma_seq_lt_asymmetric(a.drop_first(), b.drop_first());
    }
}

/// `seq_lt` is transitive.
pub proof fn lemma_seq_lt_transitive(a: Seq<char>, b: Seq<char>, c: Seq<char>)
    requires
        seq_lt(a, b),
        seq_lt(b, c),
    ensures
        seq_lt(a, c),
    decreases a.len(),
{
    if a.len() > 0 && a[0] == b[0] && b[0] == c[0] {
        lemma_seq_lt_transitive(a.drop_first(), b.drop_first(), c.drop_first());
    }
}

/// A stable sort by an asymmetric, transitive strict order leaves no
/// element after one it strictly precedes.
pub proof fn lemma_sort_sorted<T>(s: Seq<T>, before: spec_fn(T, T) -> bool)
    requires
        forall|a: T, b: T| #[trigger] before(a, b) ==> !before(b, a),
        forall|a: T, b: T, c: T| #[trigger] before(a, b) && #[trigger] before(b, c) ==> before(a, c),
    ensures
        forall|i: int, j: int| 0 <= i < j < stable_sort(s, before).len()
            ==> !before(#[trigger] stable_sort(s, before)[j], #[trigger] stable_sort(s, before)[i]),
    decreases s.len(),
{
    if s.len() > 0 {
        lemma_sort_sorted(s.drop_last(), before);
        let sorted = stable_sort(s.drop_last(), before);
        let x = s.last();
        lemma_insert_pos(sorted, x, before);
        let p = insert_pos(sorted, x, before);
        let r = stable_sort(s, before);
        assert(r == sorted.insert(p, x));
        assert forall|i: int, j: int| 0 <= i < j < r.len() implies !before(#[trigger] r[j], #[trigger] r[i]) by {
            if j < p {
                assert(r[i] == sorted[i] && r[j] == sorted[j]);
            } else if j == p {
                assert(r[i] == sorted[i]);
            } else if i == p {
                assert(r[j] == sorted[j - 1]);
                assert(before(x, sorted[p]));
                if j - 1 > p {
                    assert(!before(sorted[j - 1], sorted[p]));
                }
            } else if i < p {
                assert(r[i] == sorted[i] && r[j] == sorted[j - 1]);
            } else {
                assert(r[i] == sorted[i - 1] && r[j] == sorted[j - 1]);
            }
        }
    }
}

} // verus!
