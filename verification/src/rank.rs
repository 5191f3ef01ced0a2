//! Ranking machinery: a stable sort of row indices by a two-part numeric
//! key, used for every ordered listing and aggregate ranking. The result
//! is a permutation of the row indices, sorted by key with ties left in
//! row order.

use vstd::prelude::*;
use crate::text::str_eq;

verus! {

/// Strict lexicographic order on two-part numeric keys.
pub open spec fn key_lt(a: (u64, u64), b: (u64, u64)) -> bool {
    a.0 < b.0 || (a.0 == b.0 && a.1 < b.1)
}

fn key_lt_exec(a: (u64, u64), b: (u64, u64)) -> (r: bool)
    ensures
        r == key_lt(a, b),
{
    a.0 < b.0 || (a.0 == b.0 && a.1 < b.1)
}

/// An index order that ranks keys descending and breaks ties by the
/// original index ascending.
pub open spec fn ranked_desc(keys: Seq<(u64, u64)>, idx: Seq<usize>) -> bool {
    forall|a: int, b: int|
        0 <= a < b < idx.len() ==> key_lt(keys[#[trigger] idx[b] as int], keys[#[trigger] idx[a] as int])
            || (keys[idx[b] as int] == keys[idx[a] as int] && idx[a] < idx[b])
}

/// An index order that ranks keys ascending and breaks ties by the
/// original index ascending.
pub open spec fn ranked_asc(keys: Seq<(u64, u64)>, idx: Seq<usize>) -> bool {
    forall|a: int, b: int|
        0 <= a < b < idx.len() ==> key_lt(keys[#[trigger] idx[a] as int], keys[#[trigger] idx[b] as int])
            || (keys[idx[b] as int] == keys[idx[a] as int] && idx[a] < idx[b])
}

/// Whether some position of `idx` holds the index `v`.
pub open spec fn contains_index(idx: Seq<usize>, v: int) -> bool {
    exists|a: int| 0 <= a < idx.len() && (#[trigger] idx[a] as int) == v
}

/// A sequence of indices that is exactly a permutation of `0..n`.
pub open spec fn is_index_permutation(n: int, idx: Seq<usize>) -> bool {
    &&& idx.len() == n
    &&& forall|a: int| 0 <= a < idx.len() ==> (#[trigger] idx[a] as int) < n
    &&& forall|v: int| 0 <= v < n ==> #[trigger] contains_index(idx, v)
}

/// Sorts the indices of `keys` descending by key, stable: equal keys keep
/// their original order.
#[verifier::loop_isolation(false)]
pub fn sort_desc_indices(keys: &Vec<(u64, u64)>) -> (idx: Vec<usize>)
    ensures
        is_index_permutation(keys@.len() as int, idx@),
        ranked_desc(keys@, idx@),
{
    let n = keys.len();
    let mut idx: Vec<usize> = Vec::new();
    let mut i: usize = 0;
    while i < n
        invariant
            i <= n,
            idx@.len() == i,
            forall|a: int| 0 <= a < idx@.len() ==> (#[trigger] idx@[a] as int) < i,
            forall|v: int| 0 <= v < i ==> #[trigger] contains_index(idx@, v),
            ranked_desc(keys@, idx@),
        decreases n - i,
    {
        let ki = keys[i];
        let mut p: usize = 0;
        while p < idx.len() && !key_lt_exec(keys[idx[p]], ki)
            invariant
                p <= idx@.len(),
                forall|q: int| 0 <= q < p ==> !key_lt(keys@[#[trigger] idx@[q] as int], keys@[i as int]),
            decreases idx@.len() - p,
        {
            p = p + 1;
        }
        let ghost prev = idx@;
        idx.insert(p, i);
        proof {
            assert(idx@ =~= prev.insert(p as int, i));
            assert(forall|a: int| 0 <= a < p ==> idx@[a] == prev[a]);
            assert(idx@[p as int] == i);
            assert(forall|b: int| p < b < idx@.len() ==> idx@[b] == prev[b - 1]);
            assert forall|a: int, b: int| 0 <= a < b < idx@.len() implies key_lt(
                keys@[#[trigger] idx@[b] as int],
                keys@[#[trigger] idx@[a] as int],
            ) || (keys@[idx@[b] as int] == keys@[idx@[a] as int] && idx@[a] < idx@[b]) by {
                if a < p && b == p {
                    assert(!key_lt(keys@[prev[a] as int], keys@[i as int]));
                } else if a == p && b > p {
                    assert(key_lt(keys@[prev[b - 1] as int], keys@[i as int]));
                }
            }
            assert forall|v: int| 0 <= v < i + 1 implies #[trigger] contains_index(idx@, v) by {
                if v == i {
                    assert(idx@[p as int] as int == v);
                } else {
                    assert(contains_index(prev, v));
                    let a0 = choose|a0: int| 0 <= a0 < prev.len() && (#[trigger] prev[a0] as int) == v;
                    if a0 < p {
                        assert(idx@[a0] as int == v);
                    } else {
                        assert(idx@[a0 + 1] as int == v);
                    }
                }
            }
        }
        i = i + 1;
    }
    idx
}

/// Sorts the indices of `keys` ascending by key, stable: equal keys keep
/// their original order.
#[verifier::loop_isolation(false)]
pub fn sort_asc_indices(keys: &Vec<(u64, u64)>) -> (idx: Vec<usize>)
    ensures
        is_index_permutation(keys@.len() as int, idx@),
        ranked_asc(keys@, idx@),
{
    let n = keys.len();
    let mut idx: Vec<usize> = Vec::new();
    let mut i: usize = 0;
    while i < n
        invariant
            i <= n,
            idx@.len() == i,
            forall|a: int| 0 <= a < idx@.len() ==> (#[trigger] idx@[a] as int) < i,
            forall|v: int| 0 <= v < i ==> #[trigger] contains_index(idx@, v),
            ranked_asc(keys@, idx@),
        decreases n - i,
    {
        let ki = keys[i];
        let mut p: usize = 0;
        while p < idx.len() && !key_lt_exec(ki, keys[idx[p]])
            invariant
                p <= idx@.len(),
                forall|q: int| 0 <= q < p ==> !key_lt(keys@[i as int], keys@[#[trigger] idx@[q] as int]),
            decreases idx@.len() - p,
        {
            p = p + 1;
        }
        let ghost prev = idx@;
        idx.insert(p, i);
        proof {
            assert(idx@ =~= prev.insert(p as int, i));
            assert(forall|a: int| 0 <= a < p ==> idx@[a] == prev[a]);
            assert(idx@[p as int] == i);
            assert(forall|b: int| p < b < idx@.len() ==> idx@[b] == prev[b - 1]);
            assert forall|a: int, b: int| 0 <= a < b < idx@.len() implies key_lt(
                keys@[#[trigger] idx@[a] as int],
                keys@[#[trigger] idx@[b] as int],
            ) || (keys@[idx@[b] as int] == keys@[idx@[a] as int] && idx@[a] < idx@[b]) by {
                if a < p && b == p {
                    assert(!key_lt(keys@[i as int], keys@[prev[a] as int]));
                } else if a == p && b > p {
                    assert(key_lt(keys@[i as int], keys@[prev[b - 1] as int]));
                }
            }
            assert forall|v: int| 0 <= v < i + 1 implies #[trigger] contains_index(idx@, v) by {
                if v == i {
                    assert(idx@[p as int] as int == v);
                } else {
                    assert(contains_index(prev, v));
                    let a0 = choose|a0: int| 0 <= a0 < prev.len() && (#[trigger] prev[a0] as int) == v;
                    if a0 < p {
                        assert(idx@[a0] as int == v);
                    } else {
                        assert(idx@[a0 + 1] as int == v);
                    }
                }
            }
        }
        i = i + 1;
    }
    idx
}

/// The character sequences of a list of strings.
pub open spec fn strs_view(v: Seq<String>) -> Seq<Seq<char>> {
    Seq::new(v.len(), |i: int| v[i]@)
}

/// The predicate of a character sequence equal to the given one.
pub open spec fn str_is(s: Seq<char>) -> spec_fn(Seq<char>) -> bool {
    |x: Seq<char>| x == s
}

/// Whether some string of the list spells the given character sequence.
pub open spec fn str_in(list: Seq<String>, s: Seq<char>) -> bool {
    exists|a: int| 0 <= a < list.len() && (#[trigger] list[a])@ == s
}

/// Groups a list of key strings: the distinct keys in order of first
/// occurrence, each with the number of times it occurs.
#[verifier::loop_isolation(false)]
pub fn group_count_strings(keys: &Vec<String>) -> (r: (Vec<String>, Vec<u64>))
    ensures
        r.0@.len() == r.1@.len(),
        forall|a: int, b: int| 0 <= a < b < r.0@.len() ==> (#[trigger] r.0@[a])@ != (
        #[trigger] r.0@[b])@,
        forall|a: int|
            0 <= a < r.0@.len() ==> (#[trigger] r.1@[a]) as int == crate::seqs::count_where(
                strs_view(keys@),
                str_is(r.0@[a]@),
            ),
        forall|a: int| 0 <= a < r.0@.len() ==> str_in(keys@, (#[trigger] r.0@[a])@),
        forall|i: int| 0 <= i < keys@.len() ==> str_in(r.0@, (#[trigger] keys@[i])@),
        forall|a: int, b: int|
            0 <= a < b < r.0@.len() ==> ({
                let fa = crate::seqs::first_where(strs_view(keys@), str_is((#[trigger] r.0@[a])@));
                let fb = crate::seqs::first_where(strs_view(keys@), str_is((#[trigger] r.0@[b])@));
                fa is Some && fb is Some && fa->0 < fb->0
            }),
{
    let ghost ks = strs_view(keys@);
    let n = keys.len();
    let mut names: Vec<String> = Vec::new();
    let mut counts: Vec<u64> = Vec::new();
    let mut i: usize = 0;
    while i < n
        invariant
            i <= n,
            names@.len() == counts@.len(),
            forall|a: int, b: int| 0 <= a < b < names@.len() ==> (#[trigger] names@[a])@ != (
            #[trigger] names@[b])@,
            forall|a: int|
                0 <= a < names@.len() ==> (#[trigger] counts@[a]) as int
                    == crate::seqs::count_where(ks.take(i as int), str_is(names@[a]@)),
            forall|a: int| 0 <= a < names@.len() ==> str_in(keys@, (#[trigger] names@[a])@),
            forall|k: int| 0 <= k < i ==> str_in(names@, (#[trigger] keys@[k])@),
            forall|a: int|
                0 <= a < names@.len() ==> ({
                    let fa = crate::seqs::first_where(ks, str_is((#[trigger] names@[a])@));
                    fa is Some && fa->0 < i
                }),
            forall|a: int, b: int|
                0 <= a < b < names@.len() ==> ({
                    let fa = crate::seqs::first_where(ks, str_is((#[trigger] names@[a])@));
                    let fb = crate::seqs::first_where(ks, str_is((#[trigger] names@[b])@));
                    fa is Some && fb is Some && fa->0 < fb->0
                }),
        decreases n - i,
    {
        let m = names.len();
        let mut a: usize = 0;
        let mut found: Option<usize> = None;
        while a < m
            invariant
                m == names@.len(),
                a <= m,
                match found {
                    Some(f) => f < m && names@[f as int]@ == keys@[i as int]@,
                    None => forall|b: int| 0 <= b < a ==> (#[trigger] names@[b])@ != keys@[i as int]@,
                },
            decreases m - a,
        {
            if str_eq(names[a].as_str(), keys[i].as_str()) {
                found = Some(a);
                a = m;
            } else {
                a = a + 1;
            }
        }
        proof {
            crate::seqs::lemma_count_bounds(ks.take(i as int), str_is(keys@[i as int]@));
            crate::seqs::lemma_count_take_step(ks, str_is(keys@[i as int]@), i as int);
        }
        match found {
            Some(f) => {
                proof {
                    crate::seqs::lemma_count_bounds(ks.take(i as int), str_is(names@[f as int]@));
                }
                let c = counts[f];
                counts[f] = c + 1;
                proof {
                    assert forall|x: int| 0 <= x < names@.len() implies (#[trigger] counts@[x])
                        as int == crate::seqs::count_where(
                        ks.take(i as int + 1),
                        str_is(names@[x]@),
                    ) by {
                        crate::seqs::lemma_count_take_step(ks, str_is(names@[x]@), i as int);
                        if x != f {
                            assert(names@[x]@ != keys@[i as int]@);
                            assert(!str_is(names@[x]@)(ks[i as int]));
                        }
                    }
                    assert(str_in(names@, keys@[i as int]@));
                }
            },
            None => {
                let ghost prev_names = names@;
                names.push(keys[i].clone());
                counts.push(1);
                proof {
                    assert(names@ =~= prev_names.push(keys@[i as int]));
                    assert forall|k: int| 0 <= k < i implies !str_is(keys@[i as int]@)(
                        ks[k],
                    ) by {
                        assert(str_in(prev_names, keys@[k]@));
                        let b = choose|b: int|
                            0 <= b < prev_names.len() && (#[trigger] prev_names[b])@ == keys@[k]@;
                        assert(prev_names[b]@ != keys@[i as int]@);
                    }
                    crate::seqs::lemma_count_zero(ks.take(i as int), str_is(keys@[i as int]@));
                    crate::seqs::lemma_first_where_is(ks, str_is(keys@[i as int]@), i as int);
                    assert forall|x: int| 0 <= x < names@.len() implies (#[trigger] counts@[x])
                        as int == crate::seqs::count_where(
                        ks.take(i as int + 1),
                        str_is(names@[x]@),
                    ) by {
                        crate::seqs::lemma_count_take_step(ks, str_is(names@[x]@), i as int);
                        if x < prev_names.len() {
                            assert(names@[x] == prev_names[x]);
                            assert(names@[x]@ != keys@[i as int]@);
                            assert(!str_is(names@[x]@)(ks[i as int]));
                        }
                    }
                    assert(names@[names@.len() - 1]@ == keys@[i as int]@);
                    assert(str_in(names@, keys@[i as int]@));
                    assert forall|k: int| 0 <= k < i + 1 implies str_in(
                        names@,
                        (#[trigger] keys@[k])@,
                    ) by {
                        if k < i {
                            assert(str_in(prev_names, keys@[k]@));
                            let b = choose|b: int|
                                0 <= b < prev_names.len() && (#[trigger] prev_names[b])@
                                    == keys@[k]@;
                            assert(names@[b]@ == keys@[k]@);
                        }
                    }
                }
            },
        }
        i = i + 1;
    }
    proof {
        assert(ks.take(n as int) =~= ks);
    }
    (names, counts)
}

/// The predicate of a numeric key equal to the given one.
pub open spec fn u64_is(v: u64) -> spec_fn(u64) -> bool {
    |x: u64| x == v
}

/// Whether the list holds the given numeric key.
pub open spec fn u64_in(list: Seq<u64>, v: u64) -> bool {
    exists|a: int| 0 <= a < list.len() && #[trigger] list[a] == v
}

/// Groups a list of numeric keys: the distinct keys in order of first
/// occurrence, each with the number of times it occurs.
#[verifier::loop_isolation(false)]
pub fn group_count_u64(keys: &Vec<u64>) -> (r: (Vec<u64>, Vec<u64>))
    ensures
        r.0@.len() == r.1@.len(),
        forall|a: int, b: int| 0 <= a < b < r.0@.len() ==> #[trigger] r.0@[a] != #[trigger] r.0@[b],
        forall|a: int|
            0 <= a < r.0@.len() ==> (#[trigger] r.1@[a]) as int == crate::seqs::count_where(
                keys@,
                u64_is(r.0@[a]),
            ),
        forall|a: int| 0 <= a < r.0@.len() ==> u64_in(keys@, #[trigger] r.0@[a]),
        forall|i: int| 0 <= i < keys@.len() ==> u64_in(r.0@, #[trigger] keys@[i]),
{
    let n = keys.len();
    let mut names: Vec<u64> = Vec::new();
    let mut counts: Vec<u64> = Vec::new();
    let mut i: usize = 0;
    while i < n
        invariant
            i <= n,
            names@.len() == counts@.len(),
            forall|a: int, b: int| 0 <= a < b < names@.len() ==> #[trigger] names@[a]
                != #[trigger] names@[b],
            forall|a: int|
                0 <= a < names@.len() ==> (#[trigger] counts@[a]) as int
                    == crate::seqs::count_where(keys@.take(i as int), u64_is(names@[a])),
            forall|a: int| 0 <= a < names@.len() ==> u64_in(keys@, #[trigger] names@[a]),
            forall|k: int| 0 <= k < i ==> u64_in(names@, #[trigger] keys@[k]),
        decreases n - i,
    {
        let m = names.len();
        let mut a: usize = 0;
        let mut found: Option<usize> = None;
        while a < m
            invariant
                m == names@.len(),
                a <= m,
                match found {
                    Some(f) => f < m && names@[f as int] == keys@[i as int],
                    None => forall|b: int| 0 <= b < a ==> #[trigger] names@[b] != keys@[i as int],
                },
            decreases m - a,
        {
            if names[a] == keys[i] {
                found = Some(a);
                a = m;
            } else {
                a = a + 1;
            }
        }
        proof {
            crate::seqs::lemma_count_bounds(keys@.take(i as int), u64_is(keys@[i as int]));
            crate::seqs::lemma_count_take_step(keys@, u64_is(keys@[i as int]), i as int);
        }
        match found {
            Some(f) => {
                proof {
                    crate::seqs::lemma_count_bounds(keys@.take(i as int), u64_is(names@[f as int]));
                }
                let c = counts[f];
                counts[f] = c + 1;
                proof {
                    assert forall|x: int| 0 <= x < names@.len() implies (#[trigger] counts@[x])
                        as int == crate::seqs::count_where(
                        keys@.take(i as int + 1),
                        u64_is(names@[x]),
                    ) by {
                        crate::seqs::lemma_count_take_step(keys@, u64_is(names@[x]), i as int);
                    }
                    assert(u64_in(names@, keys@[i as int]));
                }
            },
            None => {
                let ghost prev_names = names@;
                names.push(keys[i]);
                counts.push(1);
                proof {
                    assert(names@ =~= prev_names.push(keys@[i as int]));
                    assert forall|k: int| 0 <= k < i implies !u64_is(keys@[i as int])(
                        keys@[k],
                    ) by {
                        assert(u64_in(prev_names, keys@[k]));
                        let b = choose|b: int|
                            0 <= b < prev_names.len() && #[trigger] prev_names[b] == keys@[k];
                    }
                    crate::seqs::lemma_count_zero(keys@.take(i as int), u64_is(keys@[i as int]));
                    assert forall|x: int| 0 <= x < names@.len() implies (#[trigger] counts@[x])
                        as int == crate::seqs::count_where(
                        keys@.take(i as int + 1),
                        u64_is(names@[x]),
                    ) by {
                        crate::seqs::lemma_count_take_step(keys@, u64_is(names@[x]), i as int);
                        if x < prev_names.len() {
                            assert(names@[x] == prev_names[x]);
                        }
                    }
                    assert(names@[names@.len() - 1] == keys@[i as int]);
                    assert(u64_in(names@, keys@[i as int]));
                    assert forall|k: int| 0 <= k < i + 1 implies u64_in(
                        names@,
                        #[trigger] keys@[k],
                    ) by {
                        if k < i {
                            assert(u64_in(prev_names, keys@[k]));
                            let b = choose|b: int|
                                0 <= b < prev_names.len() && #[trigger] prev_names[b] == keys@[k];
                            assert(names@[b] == keys@[k]);
                        }
                    }
                }
            },
        }
        i = i + 1;
    }
    proof {
        assert(keys@.take(n as int) =~= keys@);
    }
    (names, counts)
}

} // verus!
