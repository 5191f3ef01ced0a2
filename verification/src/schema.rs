//! The schema lifecycle: one idempotent step that puts every table,
//! column, index and trigger in place and backfills the company directory
//! from pre-existing free-text company values, then resolves each order's
//! company reference by case-insensitive name match where it is unset.

use vstd::prelude::*;
use crate::directory::{company_ci_is, find_company_ci};
use crate::model::{CompanyRow, CompanyRowV, OrderRowV};
use crate::seqs::{first_where, lemma_first_where, lemma_first_where_is};
use crate::store::{Store, StoreV, store_inv, companies_ok, canonical_name, full_schema,
    lemma_inv_same_core, same_order_skeleton};
use crate::text::{lower_seq, trim_seq, trim_str, lemma_trim_idempotent};

verus! {

/// The company directory after the backfill pass: every distinct trimmed,
/// non-blank company text of the ledger, in first-appearance order, added
/// under the next free ids unless a case-insensitive match already exists.
pub open spec fn backfill_dir(
    companies: Seq<CompanyRowV>,
    next: int,
    orders: Seq<OrderRowV>,
) -> (Seq<CompanyRowV>, int)
    decreases orders.len(),
{
    if orders.len() == 0 {
        (companies, next)
    } else {
        let prior = backfill_dir(companies, next, orders.drop_last());
        let t = trim_seq(orders.last().delivery_company);
        if t.len() > 0 && first_where(prior.0, company_ci_is(t)) is None {
            (prior.0.push(CompanyRowV { id: prior.1, name: t, active: true }), prior.1 + 1)
        } else {
            prior
        }
    }
}

/// An order whose company reference the backfill may touch: the reference
/// unset or zero and the company text not blank.
pub open spec fn backfill_applies(o: OrderRowV) -> bool {
    (o.delivery_company_id is None || o.delivery_company_id == Some(0int)) && trim_seq(
        o.delivery_company,
    ).len() > 0
}

/// The ledger after the reference backfill: each touched row takes the id
/// of the directory row matching its raw company text under case folding,
/// or stays unresolved where none matches.
pub open spec fn backfill_orders(
    orders: Seq<OrderRowV>,
    companies: Seq<CompanyRowV>,
) -> Seq<OrderRowV> {
    Seq::new(
        orders.len(),
        |k: int|
            if backfill_applies(orders[k]) {
                OrderRowV {
                    delivery_company_id: match first_where(
                        companies,
                        company_ci_is(orders[k].delivery_company),
                    ) {
                        Some(j) => Some(companies[j].id),
                        None => None,
                    },
                    ..orders[k]
                }
            } else {
                orders[k]
            },
    )
}

/// The whole store after one schema-lifecycle step.
pub open spec fn ensured_schema(s: StoreV) -> StoreV {
    let bf = backfill_dir(s.companies, s.next_company_id, s.orders);
    StoreV {
        schema: full_schema(),
        companies: bf.0,
        next_company_id: bf.1,
        orders: backfill_orders(s.orders, bf.0),
        ..s
    }
}

/// The directory backfill only appends, keeps ids increasing from the
/// given next id, keeps names canonical and case-insensitively distinct,
/// and leaves every processed order's trimmed non-blank name matched.
proof fn lemma_backfill_dir_props(companies: Seq<CompanyRowV>, next: int, orders: Seq<OrderRowV>)
    requires
        forall|i: int, j: int|
            0 <= i < j < companies.len() ==> #[trigger] companies[i].id < #[trigger] companies[j].id,
        forall|i: int| 0 <= i < companies.len() ==> 1 <= #[trigger] companies[i].id < next,
        forall|i: int| 0 <= i < companies.len() ==> canonical_name(#[trigger] companies[i].name),
        forall|i: int, j: int|
            0 <= i < j < companies.len() ==> lower_seq(#[trigger] companies[i].name) != lower_seq(
                #[trigger] companies[j].name,
            ),
        1 <= next,
    ensures
        ({
            let bf = backfill_dir(companies, next, orders);
            &&& bf.0.len() >= companies.len()
            &&& forall|i: int| 0 <= i < companies.len() ==> #[trigger] bf.0[i] == companies[i]
            &&& next <= bf.1
            &&& forall|i: int, j: int|
                0 <= i < j < bf.0.len() ==> #[trigger] bf.0[i].id < #[trigger] bf.0[j].id
            &&& forall|i: int| 0 <= i < bf.0.len() ==> 1 <= #[trigger] bf.0[i].id < bf.1
            &&& forall|i: int| 0 <= i < bf.0.len() ==> canonical_name(#[trigger] bf.0[i].name)
            &&& forall|i: int, j: int|
                0 <= i < j < bf.0.len() ==> lower_seq(#[trigger] bf.0[i].name) != lower_seq(
                    #[trigger] bf.0[j].name,
                )
            &&& forall|k: int|
                0 <= k < orders.len() && trim_seq(
                    (#[trigger] orders[k]).delivery_company,
                ).len() > 0 ==> first_where(
                    bf.0,
                    company_ci_is(trim_seq(orders[k].delivery_company)),
                ) is Some
        }),
    decreases orders.len(),
{
    if orders.len() > 0 {
        lemma_backfill_dir_props(companies, next, orders.drop_last());
        let prior = backfill_dir(companies, next, orders.drop_last());
        let t = trim_seq(orders.last().delivery_company);
        let bf = backfill_dir(companies, next, orders);
        lemma_first_where(prior.0, company_ci_is(t));
        if t.len() > 0 && first_where(prior.0, company_ci_is(t)) is None {
            lemma_trim_idempotent(orders.last().delivery_company);
            assert forall|i: int, j: int| 0 <= i < j < bf.0.len() implies lower_seq(
                #[trigger] bf.0[i].name,
            ) != lower_seq(#[trigger] bf.0[j].name) by {
                if j == bf.0.len() - 1 {
                    assert(!company_ci_is(t)(prior.0[i]));
                }
            }
        }
        assert forall|k: int|
            0 <= k < orders.len() && trim_seq((#[trigger] orders[k]).delivery_company).len() > 0
                implies first_where(
            bf.0,
            company_ci_is(trim_seq(orders[k].delivery_company)),
        ) is Some by {
            let tk = trim_seq(orders[k].delivery_company);
            if k < orders.len() - 1 {
                assert(orders.drop_last()[k] == orders[k]);
                lemma_first_where(prior.0, company_ci_is(tk));
                let fi = first_where(prior.0, company_ci_is(tk));
                assert(fi is Some);
                assert(company_ci_is(tk)(prior.0[fi->0]));
                assert(bf.0[fi->0] == prior.0[fi->0]);
                lemma_first_where(bf.0, company_ci_is(tk));
                if first_where(bf.0, company_ci_is(tk)) is None {
                    assert(!company_ci_is(tk)(bf.0[fi->0]));
                }
            } else {
                lemma_first_where(bf.0, company_ci_is(tk));
                if first_where(bf.0, company_ci_is(tk)) is None {
                    if first_where(prior.0, company_ci_is(t)) is Some {
                        let fi = first_where(prior.0, company_ci_is(t));
                        assert(company_ci_is(t)(prior.0[fi->0]));
                        assert(!company_ci_is(tk)(bf.0[fi->0]));
                    } else {
                        assert(company_ci_is(t)(bf.0[bf.0.len() - 1]));
                        assert(!company_ci_is(tk)(bf.0[bf.0.len() - 1]));
                    }
                }
            }
        }
    }
}

/// A directory in which every processed name already matches gains
/// nothing from another backfill pass.
proof fn lemma_backfill_dir_stable(companies: Seq<CompanyRowV>, next: int, orders: Seq<OrderRowV>)
    requires
        forall|k: int|
            0 <= k < orders.len() && trim_seq((#[trigger] orders[k]).delivery_company).len() > 0
                ==> first_where(
                companies,
                company_ci_is(trim_seq(orders[k].delivery_company)),
            ) is Some,
    ensures
        backfill_dir(companies, next, orders) == (companies, next),
    decreases orders.len(),
{
    if orders.len() > 0 {
        lemma_backfill_dir_stable(companies, next, orders.drop_last());
    }
}

impl Store {
    /// Ensures every schema piece exists and backfills the company
    /// directory and the orders' company references, idempotently: a
    /// second run leaves the store exactly as it stands.
    #[verifier::loop_isolation(false)]
    #[verifier::rlimit(100)]
    pub fn ensure_schema(&mut self)
        requires
            store_inv(old(self)@),
            old(self)@.next_company_id + old(self)@.orders.len() <= i64::MAX,
        ensures
            store_inv(final(self)@),
            final(self)@ == ensured_schema(old(self)@),
    {
        let ghost prior = self@;
        self.schema = crate::store::full_schema_exec();
        let n = self.orders.len();
        let mut i: usize = 0;
        while i < n
            invariant
                n == self.orders.len(),
                i <= n,
                self@.orders == prior.orders,
                self@.opened == prior.opened,
                self@.settings == prior.settings,
                self@.theme == prior.theme,
                self@.next_order_id == prior.next_order_id,
                self@.schema == full_schema(),
                1 <= self@.next_company_id,
                self@.next_company_id <= prior.next_company_id + i,
                (self@.companies, self@.next_company_id) == backfill_dir(
                    prior.companies,
                    prior.next_company_id,
                    prior.orders.take(i as int),
                ),
                forall|a: int, b: int|
                    0 <= a < b < self@.companies.len() ==> #[trigger] self@.companies[a].id
                        < #[trigger] self@.companies[b].id,
                forall|a: int|
                    0 <= a < self@.companies.len() ==> 1 <= #[trigger] self@.companies[a].id
                        && self@.companies[a].id < self@.next_company_id,
                forall|a: int| 0 <= a < self@.companies.len() ==> canonical_name(
                    #[trigger] self@.companies[a].name,
                ),
                forall|a: int, b: int|
                    0 <= a < b < self@.companies.len() ==> lower_seq(
                        #[trigger] self@.companies[a].name,
                    ) != lower_seq(#[trigger] self@.companies[b].name),
            decreases n - i,
        {
            proof {
                assert(prior.orders.take(i as int + 1).drop_last() =~= prior.orders.take(i as int));
                assert(prior.orders.take(i as int + 1).last() == prior.orders[i as int]);
            }
            let t = trim_str(self.orders[i].delivery_company.as_str());
            if !t.as_str().is_empty() {
                match find_company_ci(&self.companies, t.as_str()) {
                    Some(_) => {
                    },
                    None => {
                        let ghost before = self@.companies;
                        let id = self.next_company_id;
                        proof {
                            lemma_trim_idempotent(self@.orders[i as int].delivery_company);
                            lemma_first_where(before, company_ci_is(t@));
                        }
                        self.companies.push(CompanyRow { id, name: t, active: true });
                        self.next_company_id = id + 1;
                        proof {
                            assert(self@.companies =~= before.push(
                                CompanyRowV {
                                    id: id as int,
                                    name: trim_seq(prior.orders[i as int].delivery_company),
                                    active: true,
                                },
                            ));
                            assert forall|a: int, b: int|
                                0 <= a < b < self@.companies.len() implies lower_seq(
                                #[trigger] self@.companies[a].name,
                            ) != lower_seq(#[trigger] self@.companies[b].name) by {
                                if b == before.len() as int {
                                    assert(!company_ci_is(
                                        trim_seq(prior.orders[i as int].delivery_company),
                                    )(before[a]));
                                }
                            }
                        }
                    },
                }
            }
            i = i + 1;
        }
        proof {
            assert(prior.orders.take(n as int) =~= prior.orders);
        }
        let ghost dir = self@.companies;
        let mut k: usize = 0;
        while k < n
            invariant
                n == self.orders.len(),
                k <= n,
                self@.companies == dir,
                self@.opened == prior.opened,
                self@.settings == prior.settings,
                self@.theme == prior.theme,
                self@.next_order_id == prior.next_order_id,
                self@.schema == full_schema(),
                self@.next_company_id == backfill_dir(
                    prior.companies,
                    prior.next_company_id,
                    prior.orders,
                ).1,
                self@.orders.len() == prior.orders.len(),
                forall|l: int|
                    0 <= l < k ==> #[trigger] self@.orders[l] == backfill_orders(
                        prior.orders,
                        dir,
                    )[l],
                forall|l: int| k <= l < n ==> #[trigger] self@.orders[l] == prior.orders[l],
            decreases n - k,
        {
            let ghost before = self@.orders;
            proof {
                assert(self@.orders[k as int] == prior.orders[k as int]);
            }
            let applies = match self.orders[k].delivery_company_id {
                None => true,
                Some(c) => c == 0,
            } && !trim_str(self.orders[k].delivery_company.as_str()).as_str().is_empty();
            proof {
                assert(applies == backfill_applies(prior.orders[k as int]));
            }
            if applies {
                let resolved: Option<i64> = match find_company_ci(
                    &self.companies,
                    self.orders[k].delivery_company.as_str(),
                ) {
                    Some(j) => {
                        proof {
                            lemma_first_where(
                                dir,
                                company_ci_is(prior.orders[k as int].delivery_company),
                            );
                        }
                        Some(self.companies[j].id)
                    },
                    None => None,
                };
                self.orders[k].delivery_company_id = resolved;
                proof {
                    assert(self@.orders =~= before.update(
                        k as int,
                        backfill_orders(prior.orders, dir)[k as int],
                    ));
                }
            }
            proof {
                assert(self@.orders[k as int] == backfill_orders(prior.orders, dir)[k as int]);
                assert(forall|l: int| 0 <= l < n && l != k ==> self@.orders[l] == before[l]);
            }
            k = k + 1;
        }
        proof {
            assert(self@.orders =~= backfill_orders(prior.orders, dir));
            assert(self@ =~= ensured_schema(prior));
            assert(same_order_skeleton(prior.orders, self@.orders));
            assert(companies_ok(self@));
            lemma_inv_same_core(prior, self@);
        }
    }
}

/// Running the schema-lifecycle step twice leaves exactly the store that
/// one run produces: the step is idempotent.
pub proof fn lemma_ensure_schema_idempotent(s: StoreV)
    requires
        store_inv(s),
    ensures
        ensured_schema(ensured_schema(s)) == ensured_schema(s),
{
    let s1 = ensured_schema(s);
    let bf = backfill_dir(s.companies, s.next_company_id, s.orders);
    lemma_backfill_dir_props(s.companies, s.next_company_id, s.orders);
    assert forall|k: int|
        0 <= k < s1.orders.len() && trim_seq((#[trigger] s1.orders[k]).delivery_company).len() > 0
            implies first_where(
        s1.companies,
        company_ci_is(trim_seq(s1.orders[k].delivery_company)),
    ) is Some by {
        assert(s1.orders[k].delivery_company == s.orders[k].delivery_company);
    }
    lemma_backfill_dir_stable(s1.companies, s1.next_company_id, s1.orders);
    let s2 = ensured_schema(s1);
    assert(s2.companies == s1.companies && s2.next_company_id == s1.next_company_id);
    assert forall|k: int| 0 <= k < s2.orders.len() implies #[trigger] s2.orders[k]
        == s1.orders[k] by {
        let o1 = s1.orders[k];
        let o0 = s.orders[k];
        if backfill_applies(o0) {
            lemma_first_where(bf.0, company_ci_is(o0.delivery_company));
            match first_where(bf.0, company_ci_is(o0.delivery_company)) {
                Some(j) => {
                    assert(1 <= bf.0[j].id);
                    assert(o1.delivery_company_id == Some(bf.0[j].id));
                    assert(!backfill_applies(o1));
                },
                None => {
                    assert(o1.delivery_company_id is None);
                    assert(backfill_applies(o1));
                    assert(o1.delivery_company == o0.delivery_company);
                },
            }
        } else {
            assert(o1 == o0);
            if backfill_applies(o1) {
                assert(false);
            }
        }
    }
    assert(s2.orders =~= s1.orders);
    assert(s2 =~= s1);
}

} // verus!
