//! Search helpers over the ledger: a case-insensitive contains search over
//! article names ranked by frequency and recency, and the most recent
//! non-blank description for an exact article name.

use vstd::prelude::*;
use crate::dates::{total_ms, valid_timestamp, lemma_total_ms_bound};
use crate::model::OrderRowV;
use crate::rank::{sort_desc_indices, key_lt, is_index_permutation, ranked_desc, contains_index,
    group_count_strings, strs_view, str_is, str_in};
use crate::seqs::{first_where, count_where, lemma_first_where, lemma_count_bounds,
    lemma_count_congruent};
use crate::store::{Store, store_inv};
use crate::text::{contains_ci, contains_ci_exec, trim_seq, trim_str};

verus! {

/// The predicate of a row carrying exactly the given article name.
pub open spec fn article_is(name: Seq<char>) -> spec_fn(OrderRowV) -> bool {
    |o: OrderRowV| o.article_name == name
}

/// The latest creation instant among rows carrying the given article name,
/// in total milliseconds; zero where none does.
pub open spec fn max_created_ms(orders: Seq<OrderRowV>, name: Seq<char>) -> int
    decreases orders.len(),
{
    if orders.len() == 0 {
        0
    } else {
        let rest = max_created_ms(orders.drop_last(), name);
        if orders.last().article_name == name && total_ms(orders.last().created_at) > rest {
            total_ms(orders.last().created_at)
        } else {
            rest
        }
    }
}

/// How search ranks one article name against another: more orders first,
/// then the more recently used, then the one first seen in the ledger.
pub open spec fn search_ranked_before(orders: Seq<OrderRowV>, n1: Seq<char>, n2: Seq<char>) -> bool {
    let c1 = count_where(orders, article_is(n1));
    let c2 = count_where(orders, article_is(n2));
    let m1 = max_created_ms(orders, n1);
    let m2 = max_created_ms(orders, n2);
    ||| c1 > c2
    ||| (c1 == c2 && m1 > m2)
    ||| (c1 == c2 && m1 == m2 && ({
        let f1 = first_where(orders, article_is(n1));
        let f2 = first_where(orders, article_is(n2));
        f1 is Some && f2 is Some && f1->0 < f2->0
    }))
}

/// The effective result cap: the caller's limit, at least one, or ten.
pub open spec fn search_limit(limit: Option<i64>) -> int {
    match limit {
        Some(l) => if l < 1 {
            1
        } else {
            l as int
        },
        None => 10,
    }
}

/// Whether some row of the ledger carries the given article name.
pub open spec fn article_in(orders: Seq<OrderRowV>, name: Seq<char>) -> bool {
    exists|i: int| 0 <= i < orders.len() && (#[trigger] orders[i]).article_name == name
}

impl Store {
    /// Article names containing the query, compared without regard to
    /// ASCII case, ranked by how often they occur, then by most recent
    /// use, then by first appearance, capped at the given limit (at least
    /// one, ten when absent).
    #[verifier::loop_isolation(false)]
    #[verifier::rlimit(50)]
    pub fn search_article_names(&self, query: &str, limit: Option<i64>) -> (r: Vec<String>)
        requires
            store_inv(self@),
        ensures
            r@.len() <= search_limit(limit),
            forall|a: int|
                0 <= a < r@.len() ==> contains_ci((#[trigger] r@[a])@, query@) && article_in(
                    self@.orders,
                    r@[a]@,
                ),
            forall|a: int, b: int| 0 <= a < b < r@.len() ==> (#[trigger] r@[a])@ != (
            #[trigger] r@[b])@,
            forall|a: int, b: int|
                0 <= a < b < r@.len() ==> search_ranked_before(
                    self@.orders,
                    (#[trigger] r@[a])@,
                    (#[trigger] r@[b])@,
                ),
            r@.len() < search_limit(limit) ==> forall|i: int|
                0 <= i < self@.orders.len() && contains_ci(
                    (#[trigger] self@.orders[i]).article_name,
                    query@,
                ) ==> str_in(r@, self@.orders[i].article_name),
    {
        let orders_n = self.orders.len();
        let mut all_names: Vec<String> = Vec::new();
        let mut i: usize = 0;
        while i < orders_n
            invariant
                orders_n == self.orders.len(),
                i <= orders_n,
                all_names@.len() == i,
                forall|k: int| 0 <= k < i ==> (#[trigger] all_names@[k])@
                    == self@.orders[k].article_name,
            decreases orders_n - i,
        {
            all_names.push(self.orders[i].article_name.clone());
            i = i + 1;
        }
        proof {
            assert forall|nm: Seq<char>| true implies count_where(
                strs_view(all_names@),
                str_is(nm),
            ) == count_where(self@.orders, #[trigger] article_is(nm)) by {
                lemma_count_where_names(self@.orders, all_names@, nm);
            }
        }
        let (names, counts) = group_count_strings(&all_names);
        let mut kept: Vec<String> = Vec::new();
        let mut kept_counts: Vec<u64> = Vec::new();
        let m = names.len();
        let mut g: usize = 0;
        while g < m
            invariant
                m == names@.len(),
                m == counts@.len(),
                g <= m,
                kept@.len() == kept_counts@.len(),
                forall|a: int| 0 <= a < kept@.len() ==> contains_ci((#[trigger] kept@[a])@, query@),
                forall|a: int|
                    0 <= a < kept@.len() ==> exists|k: int|
                        0 <= k < g && (#[trigger] kept@[a])@ == names@[k]@,
                forall|a: int|
                    0 <= a < kept@.len() ==> str_in(all_names@, (#[trigger] kept@[a])@),
                forall|a: int, b: int| 0 <= a < b < kept@.len() ==> (#[trigger] kept@[a])@ != (
                #[trigger] kept@[b])@,
                forall|a: int|
                    0 <= a < kept@.len() ==> (#[trigger] kept_counts@[a]) as int == count_where(
                        self@.orders,
                        article_is(kept@[a]@),
                    ),
                forall|a: int, b: int|
                    0 <= a < b < kept@.len() ==> ({
                        let fa = first_where(strs_view(all_names@), str_is((#[trigger] kept@[a])@));
                        let fb = first_where(strs_view(all_names@), str_is((#[trigger] kept@[b])@));
                        fa is Some && fb is Some && fa->0 < fb->0
                    }),
                forall|k: int|
                    0 <= k < g && contains_ci((#[trigger] names@[k])@, query@) ==> str_in(
                        kept@,
                        names@[k]@,
                    ),
            decreases m - g,
        {
            if contains_ci_exec(names[g].as_str(), query) {
                let ghost prev = kept@;
                kept.push(names[g].clone());
                kept_counts.push(counts[g]);
                proof {
                    let last = kept@.len() - 1;
                    assert(kept@.len() == prev.len() + 1);
                    assert(forall|a: int| 0 <= a < prev.len() ==> #[trigger] kept@[a] == prev[a]);
                    assert(kept@[last]@ == names@[g as int]@);
                    assert forall|a: int| 0 <= a < kept@.len() implies exists|k: int|
                        0 <= k < g + 1 && (#[trigger] kept@[a])@ == names@[k]@ by {
                        if a < prev.len() {
                            let k0 = choose|k0: int|
                                0 <= k0 < g && (#[trigger] prev[a])@ == names@[k0]@;
                            assert(kept@[a]@ == names@[k0]@);
                        } else {
                            assert(kept@[a]@ == names@[g as int]@);
                        }
                    }
                    assert forall|a: int, b: int|
                        0 <= a < b < kept@.len() implies ({
                        let fa = first_where(strs_view(all_names@), str_is((#[trigger] kept@[a])@));
                        let fb = first_where(strs_view(all_names@), str_is((#[trigger] kept@[b])@));
                        fa is Some && fb is Some && fa->0 < fb->0
                    }) by {
                        if b == last {
                            let k0 = choose|k0: int|
                                0 <= k0 < g && (#[trigger] kept@[a])@ == names@[k0]@;
                            assert(names@[k0]@ == kept@[a]@);
                            let fka = first_where(strs_view(all_names@), str_is(names@[k0]@));
                            let fkb = first_where(strs_view(all_names@), str_is(names@[g as int]@));
                            assert(fka is Some && fkb is Some && fka->0 < fkb->0);
                        }
                    }
                    assert forall|a: int, b: int| 0 <= a < b < kept@.len() implies (
                    #[trigger] kept@[a])@ != (#[trigger] kept@[b])@ by {
                        let fa = first_where(strs_view(all_names@), str_is(kept@[a]@));
                        let fb = first_where(strs_view(all_names@), str_is(kept@[b]@));
                        assert(fa is Some && fb is Some && fa->0 < fb->0);
                    }
                    assert forall|k: int|
                        0 <= k < g + 1 && contains_ci((#[trigger] names@[k])@, query@) implies str_in(
                        kept@,
                        names@[k]@,
                    ) by {
                        if k < g {
                            assert(str_in(prev, names@[k]@));
                            let b = choose|b: int|
                                0 <= b < prev.len() && (#[trigger] prev[b])@ == names@[k]@;
                            assert(kept@[b]@ == names@[k]@);
                        } else {
                            assert(kept@[last]@ == names@[k]@);
                        }
                    }
                    assert(str_in(all_names@, kept@[last]@));
                }
            } else {
                proof {
                    assert forall|k: int|
                        0 <= k < g + 1 && contains_ci((#[trigger] names@[k])@, query@) implies str_in(
                        kept@,
                        names@[k]@,
                    ) by {
                        if k == g {
                            assert(!contains_ci(names@[g as int]@, query@));
                        }
                    }
                }
            }
            g = g + 1;
        }
        let kn = kept.len();
        let mut skeys: Vec<(u64, u64)> = Vec::new();
        let mut a: usize = 0;
        while a < kn
            invariant
                kn == kept@.len(),
                kn == kept_counts@.len(),
                a <= kn,
                skeys@.len() == a,
                forall|x: int|
                    0 <= x < a ==> #[trigger] skeys@[x] == (
                        kept_counts@[x],
                        max_created_ms(self@.orders, kept@[x]@) as u64,
                    ),
            decreases kn - a,
        {
            let mx = self.max_created_for(kept[a].as_str());
            skeys.push((kept_counts[a], mx));
            a = a + 1;
        }
        let idx = sort_desc_indices(&skeys);
        let want: u64 = match limit {
            Some(l) => if l < 1 {
                1
            } else {
                l as u64
            },
            None => 10,
        };
        proof {
            assert(want as int == search_limit(limit));
        }
        let cap: usize = if want >= kn as u64 {
            kn
        } else {
            want as usize
        };
        let mut out: Vec<String> = Vec::new();
        let mut b: usize = 0;
        while b < cap
            invariant
                kn == kept@.len(),
                kn == kept_counts@.len(),
                kn == skeys@.len(),
                cap <= kn,
                is_index_permutation(kn as int, idx@),
                ranked_desc(skeys@, idx@),
                forall|x: int|
                    0 <= x < kn ==> #[trigger] skeys@[x] == (
                        kept_counts@[x],
                        max_created_ms(self@.orders, kept@[x]@) as u64,
                    ),
                b <= cap,
                out@.len() == b,
                forall|l: int| 0 <= l < b ==> (#[trigger] out@[l])@ == kept@[idx@[l] as int]@,
            decreases cap - b,
        {
            let j = idx[b];
            out.push(kept[j].clone());
            b = b + 1;
        }
        proof {
            assert(out@.len() == cap);
            assert(out@.len() <= search_limit(limit));
            assert forall|x: int, y: int| 0 <= x < y < out@.len() implies search_ranked_before(
                self@.orders,
                (#[trigger] out@[x])@,
                (#[trigger] out@[y])@,
            ) by {
                let ix = idx@[x] as int;
                let iy = idx@[y] as int;
                assert(out@[x]@ == kept@[ix]@ && out@[y]@ == kept@[iy]@);
                lemma_max_created_bound(self@.orders, kept@[ix]@);
                lemma_max_created_bound(self@.orders, kept@[iy]@);
                lemma_count_bounds(self@.orders, article_is(kept@[ix]@));
                lemma_count_bounds(self@.orders, article_is(kept@[iy]@));
                if skeys@[ix] == skeys@[iy] {
                    assert(ix < iy);
                    let fa = first_where(strs_view(all_names@), str_is(kept@[ix]@));
                    let fb = first_where(strs_view(all_names@), str_is(kept@[iy]@));
                    assert(fa is Some && fb is Some && fa->0 < fb->0);
                    lemma_first_where_names(self@.orders, all_names@, kept@[ix]@);
                    lemma_first_where_names(self@.orders, all_names@, kept@[iy]@);
                    assert(count_where(self@.orders, article_is(kept@[ix]@)) == count_where(
                        self@.orders,
                        article_is(kept@[iy]@),
                    ));
                    assert(max_created_ms(self@.orders, kept@[ix]@) == max_created_ms(
                        self@.orders,
                        kept@[iy]@,
                    ));
                } else {
                    assert(key_lt(skeys@[iy], skeys@[ix]));
                    assert(kept_counts@[ix] == count_where(self@.orders, article_is(kept@[ix]@)));
                    assert(kept_counts@[iy] == count_where(self@.orders, article_is(kept@[iy]@)));
                }
            }
            assert forall|x: int, y: int| 0 <= x < y < out@.len() implies (#[trigger] out@[x])@
                != (#[trigger] out@[y])@ by {
                let ix = idx@[x] as int;
                let iy = idx@[y] as int;
                if ix < iy {
                    assert(kept@[ix]@ != kept@[iy]@);
                } else if iy < ix {
                    assert(kept@[iy]@ != kept@[ix]@);
                }
            }
            assert forall|x: int| 0 <= x < out@.len() implies contains_ci(
                (#[trigger] out@[x])@,
                query@,
            ) && article_in(self@.orders, out@[x]@) by {
                let ix = idx@[x] as int;
                assert(out@[x]@ == kept@[ix]@);
                assert(str_in(all_names@, kept@[ix]@));
                let k = choose|k: int|
                    0 <= k < all_names@.len() && (#[trigger] all_names@[k])@ == kept@[ix]@;
                assert(self@.orders[k].article_name == out@[x]@);
            }
            if out@.len() < search_limit(limit) {
                assert(cap < want);
                assert(out@.len() == kn);
                assert forall|i2: int|
                    0 <= i2 < self@.orders.len() && contains_ci(
                        (#[trigger] self@.orders[i2]).article_name,
                        query@,
                    ) implies str_in(out@, self@.orders[i2].article_name) by {
                    assert(all_names@[i2]@ == self@.orders[i2].article_name);
                    assert(str_in(names@, all_names@[i2]@));
                    let k = choose|k: int|
                        0 <= k < names@.len() && (#[trigger] names@[k])@ == all_names@[i2]@;
                    assert(contains_ci(names@[k]@, query@));
                    assert(str_in(kept@, names@[k]@));
                    let c = choose|c: int|
                        0 <= c < kept@.len() && (#[trigger] kept@[c])@ == names@[k]@;
                    assert(contains_index(idx@, c));
                    let l = choose|l: int| 0 <= l < idx@.len() && (#[trigger] idx@[l] as int) == c;
                    assert(out@[l]@ == self@.orders[i2].article_name);
                }
            }
        }
        out
    }

    /// The latest creation instant among rows with this exact article
    /// name, in total milliseconds.
    #[verifier::loop_isolation(false)]
    fn max_created_for(&self, name: &str) -> (r: u64)
        requires
            store_inv(self@),
        ensures
            r as int == max_created_ms(self@.orders, name@),
    {
        let n = self.orders.len();
        let mut best: u64 = 0;
        let mut i: usize = 0;
        while i < n
            invariant
                n == self.orders.len(),
                i <= n,
                best as int == max_created_ms(self@.orders.take(i as int), name@),
            decreases n - i,
        {
            proof {
                assert(self@.orders.take(i as int + 1).drop_last() =~= self@.orders.take(i as int));
                assert(valid_timestamp(self@.orders[i as int].created_at));
                lemma_total_ms_bound(self@.orders[i as int].created_at);
            }
            if crate::text::str_eq(self.orders[i].article_name.as_str(), name) {
                let ms = crate::dates::total_ms_exec(&self.orders[i].created_at);
                if ms > best {
                    best = ms;
                }
            }
            i = i + 1;
        }
        proof {
            assert(self@.orders.take(n as int) =~= self@.orders);
        }
        best
    }

    /// The most recent non-blank description among rows with this exact
    /// article name — latest creation instant first, ties broken by the
    /// higher id.
    #[verifier::loop_isolation(false)]
    pub fn get_latest_description_for_article(&self, name: &str) -> (r: Option<String>)
        requires
            store_inv(self@),
        ensures
            match r {
                Some(d) => exists|i: int|
                    0 <= i < self@.orders.len() && #[trigger] described_with(
                        self@.orders,
                        i,
                        name@,
                        d@,
                    ),
                None => forall|i: int|
                    0 <= i < self@.orders.len() ==> !desc_candidate(name@)(
                        #[trigger] self@.orders[i],
                    ),
            },
    {
        let n = self.orders.len();
        let mut best: Option<usize> = None;
        let mut i: usize = 0;
        while i < n
            invariant
                n == self.orders.len(),
                i <= n,
                match best {
                    Some(bi) => bi < i && desc_candidate(name@)(self@.orders[bi as int]) && (
                    forall|j: int|
                        0 <= j < i && j != bi && desc_candidate(name@)(
                            #[trigger] self@.orders[j],
                        ) ==> later_row(self@.orders, bi as int, j)),
                    None => forall|j: int|
                        0 <= j < i ==> !desc_candidate(name@)(#[trigger] self@.orders[j]),
                },
            decreases n - i,
        {
            let is_cand = if crate::text::str_eq(self.orders[i].article_name.as_str(), name) {
                match &self.orders[i].description {
                    Some(d) => !trim_str(d.as_str()).as_str().is_empty(),
                    None => false,
                }
            } else {
                false
            };
            proof {
                assert(is_cand == desc_candidate(name@)(self@.orders[i as int]));
            }
            if is_cand {
                proof {
                    assert(valid_timestamp(self@.orders[i as int].created_at));
                    lemma_total_ms_bound(self@.orders[i as int].created_at);
                }
                match best {
                    None => {
                        best = Some(i);
                    },
                    Some(bi) => {
                        proof {
                            assert(valid_timestamp(self@.orders[bi as int].created_at));
                            lemma_total_ms_bound(self@.orders[bi as int].created_at);
                        }
                        let ms_i = crate::dates::total_ms_exec(&self.orders[i].created_at);
                        let ms_b = crate::dates::total_ms_exec(&self.orders[bi].created_at);
                        if ms_i > ms_b || (ms_i == ms_b && self.orders[i].id > self.orders[bi].id) {
                            best = Some(i);
                        }
                    },
                }
            }
            i = i + 1;
        }
        match best {
            None => None,
            Some(bi) => {
                let d = match &self.orders[bi].description {
                    Some(d) => d.clone(),
                    None => {
                        proof {
                            assert(false);
                        }
                        String::new()
                    },
                };
                proof {
                    assert(described_with(self@.orders, bi as int, name@, d@));
                }
                Some(d)
            },
        }
    }
}

/// A row that can pre-fill a description: the exact article name and a
/// description that is not blank.
pub open spec fn desc_candidate(name: Seq<char>) -> spec_fn(OrderRowV) -> bool {
    |o: OrderRowV| o.article_name == name && (o.description matches Some(d) && trim_seq(d).len()
        > 0)
}

/// Row `i` was created strictly after row `j`, or at the same instant with
/// the greater id.
pub open spec fn later_row(orders: Seq<OrderRowV>, i: int, j: int) -> bool {
    total_ms(orders[i].created_at) > total_ms(orders[j].created_at) || (total_ms(
        orders[i].created_at,
    ) == total_ms(orders[j].created_at) && orders[i].id > orders[j].id)
}

/// Row `i` carries the name and the description, and every other candidate
/// row is older.
pub open spec fn described_with(
    orders: Seq<OrderRowV>,
    i: int,
    name: Seq<char>,
    d: Seq<char>,
) -> bool {
    &&& desc_candidate(name)(orders[i])
    &&& orders[i].description == Some(d)
    &&& forall|j: int|
        0 <= j < orders.len() && j != i && desc_candidate(name)(#[trigger] orders[j])
            ==> later_row(orders, i, j)
}

proof fn lemma_max_created_bound(orders: Seq<OrderRowV>, name: Seq<char>)
    requires
        forall|i: int| 0 <= i < orders.len() ==> valid_timestamp(#[trigger] orders[i].created_at),
    ensures
        0 <= max_created_ms(orders, name) < 320000000000000,
    decreases orders.len(),
{
    if orders.len() > 0 {
        lemma_max_created_bound(orders.drop_last(), name);
        lemma_total_ms_bound(orders.last().created_at);
    }
}

proof fn lemma_first_where_names(orders: Seq<OrderRowV>, names: Seq<String>, nm: Seq<char>)
    requires
        names.len() == orders.len(),
        forall|k: int| 0 <= k < names.len() ==> (#[trigger] names[k])@ == orders[k].article_name,
    ensures
        first_where(strs_view(names), str_is(nm)) == first_where(orders, article_is(nm)),
    decreases orders.len(),
{
    if orders.len() > 0 {
        assert(strs_view(names)[0] == names[0]@);
        if names[0]@ == nm {
        } else {
            let names1 = names.drop_first();
            let orders1 = orders.drop_first();
            assert(forall|k: int| 0 <= k < names1.len() ==> (#[trigger] names1[k])@
                == orders1[k].article_name);
            lemma_first_where_names(orders1, names1, nm);
            assert(strs_view(names).drop_first() =~= strs_view(names1));
        }
    }
}

proof fn lemma_count_where_names(orders: Seq<OrderRowV>, names: Seq<String>, nm: Seq<char>)
    requires
        names.len() == orders.len(),
        forall|k: int| 0 <= k < names.len() ==> (#[trigger] names[k])@ == orders[k].article_name,
    ensures
        count_where(strs_view(names), str_is(nm)) == count_where(orders, article_is(nm)),
    decreases orders.len(),
{
    if orders.len() > 0 {
        let names1 = names.drop_last();
        let orders1 = orders.drop_last();
        assert(forall|k: int| 0 <= k < names1.len() ==> (#[trigger] names1[k])@
            == orders1[k].article_name);
        lemma_count_where_names(orders1, names1, nm);
        assert(strs_view(names).drop_last() =~= strs_view(names1));
        assert(strs_view(names).last() == names.last()@);
        assert(str_is(nm)(strs_view(names).last()) == article_is(nm)(orders.last()));
    }
}

} // verus!
