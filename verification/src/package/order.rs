//! The text order used to put package models in canonical form.
//!
//! Strings order byte-wise, which on UTF-8 text is the order of their characters
//! compared one by one (`lex_lt`).
use vstd::prelude::*;

use crate::host::capability::{
    chars_equal, chars_less, lemma_lex_asymmetric, lemma_lex_irreflexive, lemma_lex_total,
    lemma_lex_transitive, lex_lt,
};
use crate::text::{chars_of, string_views};

verus! {

/// Strictly increasing under `lex_lt`.
pub open spec fn strictly_sorted(s: Seq<Seq<char>>) -> bool {
    forall|i: int, j: int| 0 <= i < j < s.len() ==> lex_lt(#[trigger] s[i], #[trigger] s[j])
}

/// Whether `t` occurs in `s`.
pub open spec fn occurs(s: Seq<Seq<char>>, t: Seq<char>) -> bool {
    exists|k: int| 0 <= k < s.len() && #[trigger] s[k] == t
}

/// Whether `a` orders before `b` as text.
pub fn text_less(a: &str, b: &str) -> (less: bool)
    ensures
        less == lex_lt(a@, b@),
{
    let left = chars_of(a);
    let right = chars_of(b);
    chars_less(&left, &right)
}

/// Whether two texts are equal.
pub fn text_equal(a: &str, b: &str) -> (same: bool)
    ensures
        same == (a@ == b@),
{
    let left = chars_of(a);
    let right = chars_of(b);
    chars_equal(&left, &right)
}

/// Inserting `t` at `p`, where everything before `p` is below `t` and `t` is below
/// everything from `p` on, keeps a sequence strictly sorted.
pub proof fn lemma_insert_sorted(s: Seq<Seq<char>>, p: int, t: Seq<char>)
    requires
        strictly_sorted(s),
        0 <= p <= s.len(),
        forall|q: int| 0 <= q < p ==> lex_lt(#[trigger] s[q], t),
        p < s.len() ==> lex_lt(t, s[p]),
    ensures
        strictly_sorted(s.insert(p, t)),
{
    let r = s.insert(p, t);
    assert forall|i: int, j: int| 0 <= i < j < r.len() implies lex_lt(#[trigger] r[i], #[trigger] r[j]) by {
        if j < p {
            assert(r[i] == s[i] && r[j] == s[j]);
        } else if j == p {
            assert(r[i] == s[i]);
        } else if i == p {
            assert(r[j] == s[j - 1]);
            if j - 1 > p {
                lemma_lex_transitive(t, s[p], s[j - 1]);
            }
        } else if i < p {
            assert(r[j] == s[j - 1]);
            if j - 1 >= p {
                assert(lex_lt(s[i], t));
                assert(lex_lt(t, s[p]));
                lemma_lex_transitive(s[i], t, s[p]);
                if j - 1 > p {
                    lemma_lex_transitive(s[i], s[p], s[j - 1]);
                }
            }
        } else {
            assert(r[i] == s[i - 1] && r[j] == s[j - 1]);
        }
    }
}

/// The distinct texts of `values` in increasing order: what sorting and removing
/// adjacent duplicates gives.
pub fn sorted_unique(values: &Vec<String>) -> (out: Vec<String>)
    ensures
        strictly_sorted(string_views(out@)),
        forall|t: Seq<char>| occurs(string_views(out@), t) <==> occurs(string_views(values@), t),
{
    let ghost all = string_views(values@);
    let mut out: Vec<String> = Vec::new();
    let mut i: usize = 0;
    while i < values.len()
        invariant
            all == string_views(values@),
            i <= values@.len(),
            strictly_sorted(string_views(out@)),
            forall|t: Seq<char>| occurs(string_views(out@), t) <==> occurs(all.take(i as int), t),
        decreases values.len() - i,
    {
        let ghost before = string_views(out@);
        let item = values[i].as_str();
        let mut p: usize = 0;
        while p < out.len() && text_less(out[p].as_str(), item)
            invariant
                before == string_views(out@),
                p <= out@.len(),
                forall|q: int| 0 <= q < p ==> lex_lt(#[trigger] before[q], item@),
            decreases out.len() - p,
        {
            p = p + 1;
        }
        let present = p < out.len() && text_equal(out[p].as_str(), item);
        if !present {
            if p < out.len() {
                assert(!lex_lt(before[p as int], item@));
                assert(before[p as int] != item@);
                proof {
                    lemma_lex_total(before[p as int], item@);
                }
            }
            proof {
                lemma_insert_sorted(before, p as int, item@);
            }
            out.insert(p, values[i].clone());
            assert(string_views(out@) =~= before.insert(p as int, item@));
        }
        assert(all.take(i + 1) =~= all.take(i as int).push(item@));
        assert forall|t: Seq<char>| occurs(string_views(out@), t) <==> occurs(all.take(i + 1), t) by {
            let now = string_views(out@);
            let prefix = all.take(i + 1);
            if occurs(all.take(i + 1), t) {
                let k = choose|k: int| 0 <= k < prefix.len() && prefix[k] == t;
                if k == i {
                    if present {
                        assert(now[p as int] == t);
                    } else {
                        assert(now[p as int] == t);
                    }
                } else {
                    assert(all.take(i as int)[k] == t);
                    assert(occurs(before, t));
                    let m = choose|m: int| 0 <= m < before.len() && before[m] == t;
                    if present {
                        assert(now[m] == t);
                    } else if m < p {
                        assert(now[m] == t);
                    } else {
                        assert(now[m + 1] == t);
                    }
                }
            }
            if occurs(now, t) {
                let m = choose|m: int| 0 <= m < now.len() && now[m] == t;
                if present {
                    assert(occurs(before, t));
                    let k = choose|k: int| 0 <= k < all.take(i as int).len() && all.take(i as int)[k] == t;
                    assert(prefix[k] == t);
                } else if m == p {
                    assert(prefix[i as int] == t);
                } else {
                    if m < p {
                        assert(before[m] == t);
                    } else {
                        assert(before[m - 1] == t);
                    }
                    assert(occurs(before, t));
                    let k = choose|k: int| 0 <= k < all.take(i as int).len() && all.take(i as int)[k] == t;
                    assert(prefix[k] == t);
                }
            }
        }
        i = i + 1;
    }
    assert(all.take(values@.len() as int) =~= all);
    out
}

/// `lex_lt` never holds both ways, nor of equal texts.
pub proof fn lemma_lex_strict(a: Seq<char>, b: Seq<char>)
    ensures
        lex_lt(a, b) ==> !lex_lt(b, a),
        !lex_lt(a, a),
{
    lemma_lex_irreflexive(a);
    if lex_lt(a, b) {
        lemma_lex_asymmetric(a, b);
    }
}

/// A strictly increasing sequence is fixed by the texts it holds.
pub proof fn lemma_sorted_unique(a: Seq<Seq<char>>, b: Seq<Seq<char>>)
    requires
        strictly_sorted(a),
        strictly_sorted(b),
        forall|t: Seq<char>| occurs(a, t) <==> occurs(b, t),
    ensures
        a == b,
    decreases a.len() + b.len(),
{
    if a.len() == 0 {
        if b.len() > 0 {
            assert(occurs(b, b[0]));
        }
        assert(a =~= b);
    } else if b.len() == 0 {
        assert(occurs(a, a[0]));
    } else {
        assert(occurs(b, b[0]));
        assert(occurs(a, a[0]));
        let k = choose|k: int| 0 <= k < a.len() && a[k] == b[0];
        let m = choose|m: int| 0 <= m < b.len() && b[m] == a[0];
        if k > 0 {
            assert(lex_lt(a[0], a[k]));
            if m > 0 {
                assert(lex_lt(b[0], b[m]));
                lemma_lex_asymmetric(a[0], b[0]);
            } else {
                lemma_lex_irreflexive(a[0]);
            }
        }
        assert(a[0] == b[0]);
        let ra = a.drop_first();
        let rb = b.drop_first();
        assert forall|i: int, j: int| 0 <= i < j < ra.len() implies lex_lt(#[trigger] ra[i], #[trigger] ra[j]) by {
            assert(ra[i] == a[i + 1] && ra[j] == a[j + 1]);
        }
        assert forall|i: int, j: int| 0 <= i < j < rb.len() implies lex_lt(#[trigger] rb[i], #[trigger] rb[j]) by {
            assert(rb[i] == b[i + 1] && rb[j] == b[j + 1]);
        }
        assert forall|t: Seq<char>| occurs(ra, t) <==> occurs(rb, t) by {
            if occurs(ra, t) {
                let i = choose|i: int| 0 <= i < ra.len() && ra[i] == t;
                assert(a[i + 1] == t);
                assert(occurs(a, t));
                let j = choose|j: int| 0 <= j < b.len() && b[j] == t;
                assert(lex_lt(a[0], a[i + 1]));
                if j == 0 {
                    lemma_lex_irreflexive(t);
                }
                assert(rb[j - 1] == t);
            }
            if occurs(rb, t) {
                let i = choose|i: int| 0 <= i < rb.len() && rb[i] == t;
                assert(b[i + 1] == t);
                assert(occurs(b, t));
                let j = choose|j: int| 0 <= j < a.len() && a[j] == t;
                assert(lex_lt(b[0], b[i + 1]));
                if j == 0 {
                    lemma_lex_irreflexive(t);
                }
                assert(ra[j - 1] == t);
            }
        }
        lemma_sorted_unique(ra, rb);
        assert(a =~= seq![a[0]] + ra);
        assert(b =~= seq![b[0]] + rb);
    }
}

/// Whether two lists of strings hold the same texts in the same order.
pub fn texts_equal(a: &Vec<String>, b: &Vec<String>) -> (same: bool)
    ensures
        same == (string_views(a@) == string_views(b@)),
{
    if a.len() != b.len() {
        assert(string_views(a@).len() != string_views(b@).len());
        return false;
    }
    let mut i: usize = 0;
    while i < a.len()
        invariant
            a@.len() == b@.len(),
            i <= a@.len(),
            forall|j: int| 0 <= j < i ==> a@[j]@ == b@[j]@,
        decreases a.len() - i,
    {
        if !text_equal(a[i].as_str(), b[i].as_str()) {
            assert(string_views(a@)[i as int] != string_views(b@)[i as int]);
            return false;
        }
        i = i + 1;
    }
    assert(string_views(a@) =~= string_views(b@));
    true
}

} // verus!
