//! Sorted association lists keyed by text: the ordered maps and sets of the
//! tool catalog, iterated in key order like `BTreeMap` and `BTreeSet`.

use vstd::prelude::*;
use crate::text::chars_eq;
use crate::text::chars_lt;
use crate::text::lex_lt;
use crate::text::lemma_lex_irreflexive;
use crate::text::lemma_lex_total;
use crate::text::lemma_lex_transitive;

verus! {

/// Number of leading entries whose key sorts before `k`: where `k` goes.
pub open spec fn sorted_pos<W>(s: Seq<(Seq<char>, W)>, k: Seq<char>) -> int
    decreases s.len(),
{
    if s.len() == 0 {
        0
    } else if lex_lt(s[0].0, k) {
        1 + sorted_pos(s.drop_first(), k)
    } else {
        0
    }
}

/// `s` with `k` mapped to `w`: the entry for `k` replaced in place, or a new
/// entry inserted where `k` sorts.
pub open spec fn assoc_put<W>(s: Seq<(Seq<char>, W)>, k: Seq<char>, w: W) -> Seq<(Seq<char>, W)> {
    let i = sorted_pos(s, k);
    if i < s.len() && s[i].0 == k {
        s.update(i, (k, w))
    } else {
        s.insert(i, (k, w))
    }
}

/// The value of the first entry for `k`.
pub open spec fn lookup<W>(s: Seq<(Seq<char>, W)>, k: Seq<char>) -> Option<W>
    decreases s.len(),
{
    if s.len() == 0 {
        None
    } else if s[0].0 == k {
        Some(s[0].1)
    } else {
        lookup(s.drop_first(), k)
    }
}

/// Number of leading elements that sort before `k`.
pub open spec fn set_pos(s: Seq<Seq<char>>, k: Seq<char>) -> int
    decreases s.len(),
{
    if s.len() == 0 {
        0
    } else if lex_lt(s[0], k) {
        1 + set_pos(s.drop_first(), k)
    } else {
        0
    }
}

/// `s` with `k` added where it sorts, unless it is there already.
pub open spec fn set_put(s: Seq<Seq<char>>, k: Seq<char>) -> Seq<Seq<char>> {
    let i = set_pos(s, k);
    if i < s.len() && s[i] == k {
        s
    } else {
        s.insert(i, k)
    }
}

/// The views of the entries of a list keyed by character vectors.
pub open spec fn ev<V: View>(s: Seq<(Vec<char>, V)>) -> Seq<(Seq<char>, V::V)> {
    s.map_values(|p: (Vec<char>, V)| (p.0@, p.1@))
}

/// The views of a list of character vectors.
pub open spec fn sv(s: Seq<Vec<char>>) -> Seq<Seq<char>> {
    s.map_values(|v: Vec<char>| v@)
}

pub proof fn lemma_sorted_pos_bounds<W>(s: Seq<(Seq<char>, W)>, k: Seq<char>)
    ensures
        0 <= sorted_pos(s, k) <= s.len(),
        forall|j: int| 0 <= j < sorted_pos(s, k) ==> lex_lt(#[trigger] s[j].0, k),
        sorted_pos(s, k) < s.len() ==> !lex_lt(s[sorted_pos(s, k)].0, k),
    decreases s.len(),
{
    if s.len() > 0 && lex_lt(s[0].0, k) {
        lemma_sorted_pos_bounds(s.drop_first(), k);
        assert forall|j: int| 0 <= j < sorted_pos(s, k) implies lex_lt(#[trigger] s[j].0, k) by {
            if j > 0 {
                assert(s[j] == s.drop_first()[j - 1]);
            }
        }
    }
}

pub proof fn lemma_sorted_pos_unique<W>(s: Seq<(Seq<char>, W)>, k: Seq<char>, i: int)
    requires
        0 <= i <= s.len(),
        forall|j: int| 0 <= j < i ==> lex_lt(#[trigger] s[j].0, k),
        i < s.len() ==> !lex_lt(s[i].0, k),
    ensures
        sorted_pos(s, k) == i,
    decreases i,
{
    if i > 0 {
        assert(lex_lt(s[0].0, k));
        assert forall|j: int| 0 <= j < i - 1 implies lex_lt(#[trigger] s.drop_first()[j].0, k) by {
            assert(s.drop_first()[j] == s[j + 1]);
        }
        if i < s.len() {
            assert(s.drop_first()[i - 1] == s[i]);
        }
        lemma_sorted_pos_unique(s.drop_first(), k, i - 1);
    }
}

pub proof fn lemma_set_pos_unique(s: Seq<Seq<char>>, k: Seq<char>, i: int)
    requires
        0 <= i <= s.len(),
        forall|j: int| 0 <= j < i ==> lex_lt(#[trigger] s[j], k),
        i < s.len() ==> !lex_lt(s[i], k),
    ensures
        set_pos(s, k) == i,
    decreases i,
{
    if i > 0 {
        assert(lex_lt(s[0], k));
        assert forall|j: int| 0 <= j < i - 1 implies lex_lt(#[trigger] s.drop_first()[j], k) by {
            assert(s.drop_first()[j] == s[j + 1]);
        }
        if i < s.len() {
            assert(s.drop_first()[i - 1] == s[i]);
        }
        lemma_set_pos_unique(s.drop_first(), k, i - 1);
    }
}

pub proof fn lemma_lookup_index<W>(s: Seq<(Seq<char>, W)>, k: Seq<char>, i: int)
    requires
        0 <= i <= s.len(),
        forall|j: int| 0 <= j < i ==> #[trigger] s[j].0 != k,
    ensures
        i < s.len() && s[i].0 == k ==> lookup(s, k) == Some(s[i].1),
        i == s.len() ==> lookup(s, k) is None,
    decreases i,
{
    if i > 0 {
        assert forall|j: int| 0 <= j < i - 1 implies #[trigger] s.drop_first()[j].0 != k by {
            assert(s.drop_first()[j] == s[j + 1]);
        }
        assert(s[0].0 != k);
        lemma_lookup_index(s.drop_first(), k, i - 1);
        if i < s.len() {
            assert(s.drop_first()[i - 1] == s[i]);
        }
    }
}

/// Index of the entry for `k`, if any.
pub fn find_key<V: View>(s: &Vec<(Vec<char>, V)>, k: &Vec<char>) -> (r: Option<usize>)
    ensures
        match r {
            Some(i) => i < s.len() && ev(s@)[i as int].0 == k@ && lookup(ev(s@), k@) == Some(
                ev(s@)[i as int].1,
            ),
            None => lookup(ev(s@), k@) is None,
        },
{
    let mut i: usize = 0;
    while i < s.len()
        invariant
            i <= s.len(),
            forall|j: int| 0 <= j < i ==> #[trigger] ev(s@)[j].0 != k@,
        decreases s.len() - i,
    {
        if chars_eq(&s[i].0, k) {
            proof {
                lemma_lookup_index(ev(s@), k@, i as int);
            }
            return Some(i);
        }
        i = i + 1;
    }
    proof {
        lemma_lookup_index(ev(s@), k@, i as int);
    }
    None
}

/// Maps `k` to `v` in a sorted list.
pub fn put<V: View>(s: &mut Vec<(Vec<char>, V)>, k: Vec<char>, v: V)
    ensures
        ev(final(s)@) == assoc_put(ev(old(s)@), k@, v@),
{
    let ghost before = ev(s@);
    let mut i: usize = 0;
    while i < s.len() && chars_lt(&s[i].0, &k)
        invariant
            i <= s.len(),
            before == ev(s@),
            forall|j: int| 0 <= j < i ==> lex_lt(#[trigger] before[j].0, k@),
        decreases s.len() - i,
    {
        i = i + 1;
    }
    proof {
        lemma_sorted_pos_unique(before, k@, i as int);
    }
    if i < s.len() && chars_eq(&s[i].0, &k) {
        s[i] = (k, v);
        proof {
            assert(ev(s@) =~= before.update(i as int, (k@, v@)));
        }
    } else {
        s.insert(i, (k, v));
        proof {
            assert(ev(s@) =~= before.insert(i as int, (k@, v@)));
        }
    }
}

/// Adds `k` to a sorted list of names.
pub fn set_insert(s: &mut Vec<Vec<char>>, k: Vec<char>)
    ensures
        sv(final(s)@) == set_put(sv(old(s)@), k@),
{
    let ghost before = sv(s@);
    let mut i: usize = 0;
    while i < s.len() && chars_lt(&s[i], &k)
        invariant
            i <= s.len(),
            before == sv(s@),
            forall|j: int| 0 <= j < i ==> lex_lt(#[trigger] before[j], k@),
        decreases s.len() - i,
    {
        i = i + 1;
    }
    proof {
        lemma_set_pos_unique(before, k@, i as int);
    }
    if i < s.len() && chars_eq(&s[i], &k) {
    } else {
        s.insert(i, k);
        proof {
            assert(sv(s@) =~= before.insert(i as int, k@));
        }
    }
}

/// Whether a list of names holds `k`.
pub fn contains_name(s: &Vec<Vec<char>>, k: &Vec<char>) -> (r: bool)
    ensures
        r == sv(s@).contains(k@),
{
    let mut i: usize = 0;
    while i < s.len()
        invariant
            i <= s.len(),
            forall|j: int| 0 <= j < i ==> #[trigger] sv(s@)[j] != k@,
        decreases s.len() - i,
    {
        if chars_eq(&s[i], k) {
            assert(sv(s@)[i as int] == k@);
            return true;
        }
        i = i + 1;
    }
    false
}

/// No key occurs twice.
pub open spec fn unique_keys<W>(s: Seq<(Seq<char>, W)>) -> bool {
    forall|i: int, j: int| 0 <= i < j < s.len() ==> s[i].0 != s[j].0
}



pub proof fn lemma_lookup_unique<W>(s: Seq<(Seq<char>, W)>, i: int)
    requires
        0 <= i < s.len(),
        unique_keys(s),
    ensures
        lookup(s, s[i].0) == Some(s[i].1),
{
    assert forall|j: int| 0 <= j < i implies #[trigger] s[j].0 != s[i].0 by {}
    lemma_lookup_index(s, s[i].0, i);
}

pub proof fn lemma_lookup_found<W>(s: Seq<(Seq<char>, W)>, k: Seq<char>)
    requires
        lookup(s, k) is Some,
    ensures
        exists|i: int| 0 <= i < s.len() && s[i].0 == k && Some(s[i].1) == lookup(s, k),
    decreases s.len(),
{
    if s[0].0 != k {
        lemma_lookup_found(s.drop_first(), k);
        let i = choose|i: int|
            0 <= i < s.drop_first().len() && s.drop_first()[i].0 == k && Some(s.drop_first()[i].1)
                == lookup(s.drop_first(), k);
        assert(s[i + 1] == s.drop_first()[i]);
    } else {
        assert(s[0].0 == k);
    }
}

/// Keys strictly increasing, as in a `BTreeMap`.
pub open spec fn sorted_keys<W>(s: Seq<(Seq<char>, W)>) -> bool {
    forall|i: int, j: int| 0 <= i < j < s.len() ==> lex_lt(#[trigger] s[i].0, #[trigger] s[j].0)
}

pub proof fn lemma_sorted_unique<W>(s: Seq<(Seq<char>, W)>)
    requires
        sorted_keys(s),
    ensures
        unique_keys(s),
{
    assert forall|i: int, j: int| 0 <= i < j < s.len() implies s[i].0 != s[j].0 by {
        lemma_lex_irreflexive(s[i].0);
    }
}

/// Putting a key into a sorted list keeps it sorted.
pub proof fn lemma_assoc_put_sorted<W>(s: Seq<(Seq<char>, W)>, k: Seq<char>, w: W)
    requires
        sorted_keys(s),
    ensures
        sorted_keys(assoc_put(s, k, w)),
{
    lemma_sorted_pos_bounds(s, k);
    let i = sorted_pos(s, k);
    let r = assoc_put(s, k, w);
    if i < s.len() && s[i].0 == k {
        assert forall|a: int, b: int| 0 <= a < b < r.len() implies lex_lt(#[trigger] r[a].0, #[trigger] r[b].0) by {
            assert(r[a].0 == s[a].0);
            assert(r[b].0 == s[b].0);
        }
    } else {
        if i < s.len() {
            lemma_lex_total(s[i].0, k);
        }
        assert forall|a: int, b: int| 0 <= a < b < r.len() implies lex_lt(#[trigger] r[a].0, #[trigger] r[b].0) by {
            if b < i {
                assert(r[a] == s[a] && r[b] == s[b]);
            } else if b == i {
                assert(r[a] == s[a]);
            } else if a < i {
                assert(r[a] == s[a] && r[b] == s[b - 1]);
                if b - 1 > i {
                    assert(lex_lt(s[i].0, s[b - 1].0));
                    lemma_lex_transitive(k, s[i].0, s[b - 1].0);
                }
                lemma_lex_transitive(s[a].0, k, s[b - 1].0);
            } else if a == i {
                assert(r[b] == s[b - 1]);
                if b - 1 > i {
                    assert(lex_lt(s[i].0, s[b - 1].0));
                    lemma_lex_transitive(k, s[i].0, s[b - 1].0);
                }
            } else {
                assert(r[a] == s[a - 1] && r[b] == s[b - 1]);
            }
        }
    }
}

/// Every entry after a put is an entry from before, or the one put.
pub proof fn lemma_assoc_put_entries<W>(s: Seq<(Seq<char>, W)>, k: Seq<char>, w: W, i: int)
    requires
        0 <= i < assoc_put(s, k, w).len(),
    ensures
        assoc_put(s, k, w)[i] == (k, w) || exists|j: int| 0 <= j < s.len() && s[j] == assoc_put(s, k, w)[i],
{
    lemma_sorted_pos_bounds(s, k);
    let p = sorted_pos(s, k);
    let r = assoc_put(s, k, w);
    if p < s.len() && s[p].0 == k {
        if i != p {
            assert(r[i] == s[i]);
        }
    } else {
        if i < p {
            assert(r[i] == s[i]);
        } else if i > p {
            assert(r[i] == s[i - 1]);
        }
    }
}

/// Every element after adding `k` to a set is an element from before, or
/// `k`.
pub proof fn lemma_set_put_elems(s: Seq<Seq<char>>, k: Seq<char>, i: int)
    requires
        0 <= i < set_put(s, k).len(),
    ensures
        set_put(s, k)[i] == k || s.contains(set_put(s, k)[i]),
{
    let p = set_pos(s, k);
    lemma_set_pos_bounds(s, k);
    let r = set_put(s, k);
    if p < s.len() && s[p] == k {
        assert(r[i] == s[i]);
    } else {
        if i < p {
            assert(r[i] == s[i]);
        } else if i > p {
            assert(r[i] == s[i - 1]);
        }
    }
}

pub proof fn lemma_set_pos_bounds(s: Seq<Seq<char>>, k: Seq<char>)
    ensures
        0 <= set_pos(s, k) <= s.len(),
    decreases s.len(),
{
    if s.len() > 0 && lex_lt(s[0], k) {
        lemma_set_pos_bounds(s.drop_first(), k);
    }
}

/// After a put, the key's value is the one put.
pub proof fn lemma_lookup_assoc_put_same<W>(s: Seq<(Seq<char>, W)>, k: Seq<char>, w: W)
    ensures
        lookup(assoc_put(s, k, w), k) == Some(w),
{
    lemma_sorted_pos_bounds(s, k);
    let p = sorted_pos(s, k);
    let r = assoc_put(s, k, w);
    assert forall|j: int| 0 <= j < p implies #[trigger] r[j].0 != k by {
        assert(r[j] == s[j]);
        lemma_lex_irreflexive(k);
    }
    lemma_lookup_index(r, k, p);
}

/// A put leaves the other keys' values alone.
pub proof fn lemma_lookup_assoc_put_other<W>(s: Seq<(Seq<char>, W)>, k: Seq<char>, w: W, k2: Seq<char>)
    requires
        k2 != k,
    ensures
        lookup(assoc_put(s, k, w), k2) === lookup(s, k2),
    decreases s.len(),
{
    lemma_sorted_pos_bounds(s, k);
    let p = sorted_pos(s, k);
    let r = assoc_put(s, k, w);
    if s.len() == 0 {
        assert(r.len() == 1 && r[0].0 == k);
        assert(r.drop_first().len() == 0);
        assert(lookup(r, k2) === None::<W>);
    } else if p == 0 {
        assert(r[0].0 == k);
        if s[0].0 == k {
            assert(r.drop_first() =~= s.drop_first());
            assert(lookup(r, k2) === lookup(r.drop_first(), k2));
        } else {
            assert(r.drop_first() =~= s);
            assert(lookup(r, k2) === lookup(r.drop_first(), k2));
        }
    } else {
        assert(r[0] == s[0]);
        if s[0].0 != k2 {
            assert(lex_lt(s[0].0, k));
            assert(sorted_pos(s.drop_first(), k) == p - 1);
            lemma_lookup_assoc_put_other(s.drop_first(), k, w, k2);
            if p < s.len() && s[p].0 == k {
                assert(s.drop_first()[p - 1] == s[p]);
            } else {
                if p - 1 < s.drop_first().len() {
                    assert(s.drop_first()[p - 1] == s[p]);
                }
            }
            assert(r.drop_first() =~= assoc_put(s.drop_first(), k, w));
            assert(lookup(r, k2) === lookup(r.drop_first(), k2));
        } else {
            assert(lookup(r, k2) === Some(r[0].1));
        }
    }
}

/// Adding `k` to a set leaves it in, with everything that was there.
pub proof fn lemma_set_put_contains(s: Seq<Seq<char>>, k: Seq<char>)
    ensures
        set_put(s, k).contains(k),
        forall|x: Seq<char>| s.contains(x) ==> #[trigger] set_put(s, k).contains(x),
{
    lemma_set_pos_bounds(s, k);
    let p = set_pos(s, k);
    let r = set_put(s, k);
    if p < s.len() && s[p] == k {
        assert(r[p] == k);
    } else {
        assert(r[p] == k);
        assert forall|x: Seq<char>| s.contains(x) implies #[trigger] r.contains(x) by {
            let j = choose|j: int| 0 <= j < s.len() && s[j] == x;
            if j < p {
                assert(r[j] == x);
            } else {
                assert(r[j + 1] == x);
            }
        }
    }
}

} // verus!
