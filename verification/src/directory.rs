//! The company directory: a canonical, case-insensitively unique set of
//! delivery-company names with get-or-create resolution, activation, and
//! renaming that propagates the new name to every order pointing at the
//! renamed company.

use vstd::prelude::*;
use crate::StoreError;
use crate::model::{CompanyRow, CompanyRowV, OrderRowV, DeliveryCompany};
use crate::seqs::{first_where, lemma_first_where, lemma_first_where_is, lemma_first_where_congruent};
use crate::store::{Store, StoreV, store_inv, companies_ok, lemma_inv_same_core, canonical_name};
use crate::text::{lower_seq, trim_seq, trim_str, eq_ci, lemma_trim_idempotent};

verus! {

/// The predicate of a directory row whose name equals the given one under
/// ASCII case folding.
pub open spec fn company_ci_is(name: Seq<char>) -> spec_fn(CompanyRowV) -> bool {
    |c: CompanyRowV| lower_seq(c.name) == lower_seq(name)
}

/// The predicate of a directory row carrying the given id.
pub open spec fn company_id_is(id: int) -> spec_fn(CompanyRowV) -> bool {
    |c: CompanyRowV| c.id == id
}

/// What resolving a free-text company name does to the store: blank input
/// is rejected; a case-insensitive match returns the stored row untouched;
/// anything else appends a new company under the trimmed name. The result
/// is the resolved id and the canonical (first-seen-cased) name.
pub open spec fn resolve_company(s: StoreV, name: Seq<char>) -> (StoreV, Result<
    (int, Seq<char>),
    StoreError,
>) {
    let t = trim_seq(name);
    if t.len() == 0 {
        (s, Err(StoreError::InvalidCompanyName))
    } else {
        match first_where(s.companies, company_ci_is(t)) {
            Some(i) => (s, Ok((s.companies[i].id, s.companies[i].name))),
            None => (
                StoreV {
                    companies: s.companies.push(
                        CompanyRowV { id: s.next_company_id, name: t, active: true },
                    ),
                    next_company_id: s.next_company_id + 1,
                    ..s
                },
                Ok((s.next_company_id, t)),
            ),
        }
    }
}

/// The index of the first directory row matching the given name under case
/// folding, if any.
#[verifier::loop_isolation(false)]
pub(crate) fn find_company_ci(companies: &Vec<CompanyRow>, name: &str) -> (r: Option<usize>)
    ensures
        r matches Some(i) ==> first_where(
            crate::store::companies_view(companies@),
            company_ci_is(name@),
        ) == Some(i as int),
        r is None ==> first_where(
            crate::store::companies_view(companies@),
            company_ci_is(name@),
        ) is None,
{
    let ghost cs = crate::store::companies_view(companies@);
    let ghost p = company_ci_is(name@);
    proof {
        lemma_first_where(cs, p);
    }
    let n = companies.len();
    let mut i: usize = 0;
    while i < n
        invariant
            i <= n,
            forall|k: int| 0 <= k < i ==> !p(cs[k]),
        decreases n - i,
    {
        if eq_ci(companies[i].name.as_str(), name) {
            assert(p(cs[i as int]));
            proof {
                lemma_first_where_is(cs, p, i as int);
            }
            return Some(i);
        }
        i = i + 1;
    }
    None
}

/// The index of the directory row carrying the given id, if any.
#[verifier::loop_isolation(false)]
pub(crate) fn find_company_by_id(companies: &Vec<CompanyRow>, id: i64) -> (r: Option<usize>)
    ensures
        r matches Some(i) ==> first_where(
            crate::store::companies_view(companies@),
            company_id_is(id as int),
        ) == Some(i as int),
        r is None ==> first_where(
            crate::store::companies_view(companies@),
            company_id_is(id as int),
        ) is None,
{
    let ghost cs = crate::store::companies_view(companies@);
    let ghost p = company_id_is(id as int);
    proof {
        lemma_first_where(cs, p);
    }
    let n = companies.len();
    let mut i: usize = 0;
    while i < n
        invariant
            i <= n,
            forall|k: int| 0 <= k < i ==> !p(cs[k]),
        decreases n - i,
    {
        if companies[i].id == id {
            assert(p(cs[i as int]));
            proof {
                lemma_first_where_is(cs, p, i as int);
            }
            return Some(i);
        }
        i = i + 1;
    }
    None
}

impl Store {
    /// Resolves a free-text company name to its directory row, creating the
    /// row under the trimmed, first-seen casing when no case-insensitive
    /// match exists; blank input is rejected rather than stored.
    pub fn get_or_create_delivery_company(&mut self, name: &str) -> (r: Result<
        (i64, String),
        StoreError,
    >)
        requires
            store_inv(old(self)@),
            old(self)@.next_company_id < i64::MAX,
        ensures
            store_inv(final(self)@),
            final(self)@ == resolve_company(old(self)@, name@).0,
            match r {
                Ok((id, nm)) => resolve_company(old(self)@, name@).1 == Ok::<_, StoreError>(
                    (id as int, nm@),
                ),
                Err(e) => resolve_company(old(self)@, name@).1 == Err::<(int, Seq<char>), _>(e),
            },
    {
        let trimmed = trim_str(name);
        if trimmed.as_str().is_empty() {
            return Err(StoreError::InvalidCompanyName);
        }
        proof {
            lemma_trim_idempotent(name@);
        }
        match find_company_ci(&self.companies, trimmed.as_str()) {
            Some(i) => {
                proof {
                    lemma_first_where(self@.companies, company_ci_is(trimmed@));
                }
                Ok((self.companies[i].id, self.companies[i].name.clone()))
            },
            None => {
                let id = self.next_company_id;
                let nm = trimmed.clone();
                let ghost prior = self@;
                proof {
                    lemma_first_where(prior.companies, company_ci_is(trimmed@));
                }
                self.companies.push(CompanyRow { id, name: trimmed, active: true });
                self.next_company_id = id + 1;
                proof {
                    let added = CompanyRowV { id: id as int, name: trim_seq(name@), active: true };
                    assert(self@.companies =~= prior.companies.push(added));
                    assert forall|a: int, b: int|
                        0 <= a < b < self@.companies.len() implies lower_seq(
                        (#[trigger] self@.companies[a]).name,
                    ) != lower_seq((#[trigger] self@.companies[b]).name) by {
                        if b == prior.companies.len() as int {
                            assert(!company_ci_is(trim_seq(name@))(prior.companies[a]));
                        }
                    }
                    assert(companies_ok(self@));
                    assert(self@.orders =~= prior.orders);
                    assert(self@.opened =~= prior.opened);
                    assert(self@.settings =~= prior.settings);
                    assert(self@.theme =~= prior.theme);
                    lemma_inv_same_core(prior, self@);
                }
                Ok((id, nm))
            },
        }
    }

    /// Adds a company by name with get-or-create semantics, returning the
    /// id of the existing or newly created row.
    pub fn add_delivery_company(&mut self, name: &str) -> (r: Result<i64, StoreError>)
        requires
            store_inv(old(self)@),
            old(self)@.next_company_id < i64::MAX,
        ensures
            store_inv(final(self)@),
            final(self)@ == resolve_company(old(self)@, name@).0,
            match r {
                Ok(id) => resolve_company(old(self)@, name@).1 matches Ok(p) && p.0 == id as int,
                Err(e) => resolve_company(old(self)@, name@).1 == Err::<(int, Seq<char>), _>(e),
            },
    {
        match self.get_or_create_delivery_company(name) {
            Ok((id, _)) => Ok(id),
            Err(e) => Err(e),
        }
    }

    /// Flips a company's active flag; a missing id changes nothing, as a
    /// write that matched no row.
    pub fn set_delivery_company_active(&mut self, id: i64, active: bool)
        requires
            store_inv(old(self)@),
        ensures
            store_inv(final(self)@),
            match first_where(old(self)@.companies, company_id_is(id as int)) {
                Some(i) => final(self)@ == (StoreV {
                    companies: old(self)@.companies.update(
                        i,
                        CompanyRowV { active, ..old(self)@.companies[i] },
                    ),
                    ..old(self)@
                }),
                None => final(self)@ == old(self)@,
            },
    {
        let ghost prior = self@;
        match find_company_by_id(&self.companies, id) {
            Some(i) => {
                proof {
                    lemma_first_where(prior.companies, company_id_is(id as int));
                }
                let row = CompanyRow {
                    id: self.companies[i].id,
                    name: self.companies[i].name.clone(),
                    active,
                };
                self.companies[i] = row;
                proof {
                    let updated = prior.companies.update(
                        i as int,
                        CompanyRowV { active, ..prior.companies[i as int] },
                    );
                    assert(self@.companies =~= updated);
                    assert forall|a: int, b: int|
                        0 <= a < b < self@.companies.len() implies lower_seq(
                        (#[trigger] self@.companies[a]).name,
                    ) != lower_seq((#[trigger] self@.companies[b]).name) by {
                        assert(self@.companies[a].name == prior.companies[a].name);
                        assert(self@.companies[b].name == prior.companies[b].name);
                    }
                    assert forall|a: int, b: int|
                        0 <= a < b < self@.companies.len() implies (
                        #[trigger] self@.companies[a]).id < (#[trigger] self@.companies[b]).id by {
                        assert(self@.companies[a].id == prior.companies[a].id);
                        assert(self@.companies[b].id == prior.companies[b].id);
                    }
                    assert forall|a: int| 0 <= a < self@.companies.len() implies canonical_name(
                        (#[trigger] self@.companies[a]).name,
                    ) && 1 <= self@.companies[a].id && self@.companies[a].id
                        < self@.next_company_id by {
                        assert(self@.companies[a].name == prior.companies[a].name);
                        assert(self@.companies[a].id == prior.companies[a].id);
                    }
                    assert(companies_ok(self@));
                    assert(self@.orders =~= prior.orders);
                    assert(self@.opened =~= prior.opened);
                    assert(self@.settings =~= prior.settings);
                    assert(self@.theme =~= prior.theme);
                    lemma_inv_same_core(prior, self@);
                }
            },
            None => {
                proof {
                    assert(self@ =~= prior);
                }
            },
        }
    }
    /// Renames a company to the trimmed new name and rewrites the
    /// denormalized company text of every order pointing at it, in one
    /// step, so the sync invariant between directory and ledger holds for
    /// that company. Blank names are rejected; a name already taken by
    /// another company under case folding is a uniqueness violation; a
    /// missing id changes nothing, as a write that matched no row.
    #[verifier::loop_isolation(false)]
    pub fn rename_delivery_company(&mut self, id: i64, new_name: &str) -> (r: Result<
        (),
        StoreError,
    >)
        requires
            store_inv(old(self)@),
        ensures
            store_inv(final(self)@),
            trim_seq(new_name@).len() == 0 ==> r == Err::<(), _>(StoreError::InvalidCompanyName)
                && final(self)@ == old(self)@,
            trim_seq(new_name@).len() > 0 && first_where(
                old(self)@.companies,
                company_id_is(id as int),
            ) is None ==> r == Ok::<_, StoreError>(()) && final(self)@ == old(self)@,
            (trim_seq(new_name@).len() > 0 && first_where(
                old(self)@.companies,
                company_id_is(id as int),
            ) is Some) ==> {
                let t = trim_seq(new_name@);
                let i = first_where(old(self)@.companies, company_id_is(id as int))->0;
                if exists|j: int|
                    0 <= j < old(self)@.companies.len() && j != i && lower_seq(
                        #[trigger] old(self)@.companies[j].name,
                    ) == lower_seq(t) {
                    r == Err::<(), _>(StoreError::ConstraintViolation) && final(self)@ == old(
                        self,
                    )@
                } else {
                    r == Ok::<_, StoreError>(()) && final(self)@ == (StoreV {
                        companies: old(self)@.companies.update(
                            i,
                            CompanyRowV { name: t, ..old(self)@.companies[i] },
                        ),
                        orders: propagate_rename(old(self)@.orders, id as int, t),
                        ..old(self)@
                    })
                }
            },
            ({
                let s2 = final(self)@;
                (r == Ok::<_, StoreError>(()) && first_where(
                    old(self)@.companies,
                    company_id_is(id as int),
                ) is Some) ==> forall|k: int|
                    0 <= k < s2.orders.len() && (#[trigger] s2.orders[k]).delivery_company_id
                        == Some(id as int) ==> s2.orders[k].delivery_company == trim_seq(new_name@)
            }),
    {
        let trimmed = trim_str(new_name);
        if trimmed.as_str().is_empty() {
            return Err(StoreError::InvalidCompanyName);
        }
        proof {
            lemma_trim_idempotent(new_name@);
        }
        let ghost prior = self@;
        let i = match find_company_by_id(&self.companies, id) {
            None => {
                return Ok(());
            },
            Some(i) => i,
        };
        proof {
            lemma_first_where(prior.companies, company_id_is(id as int));
        }
        let n = self.companies.len();
        let mut j: usize = 0;
        while j < n
            invariant
                i < n,
                n == self.companies.len(),
                j <= n,
                *self == *old(self),
                forall|k: int|
                    0 <= k < j && k != i ==> lower_seq(#[trigger] prior.companies[k].name)
                        != lower_seq(trimmed@),
            decreases n - j,
        {
            if j != i && eq_ci(self.companies[j].name.as_str(), trimmed.as_str()) {
                proof {
                    let oc = old(self)@.companies;
                    let t = trim_seq(new_name@);
                    assert(lower_seq(oc[j as int].name) == lower_seq(t));
                    assert(exists|jj: int|
                        0 <= jj < oc.len() && jj != i as int && lower_seq(#[trigger] oc[jj].name)
                            == lower_seq(t));
                }
                return Err(StoreError::ConstraintViolation);
            }
            j = j + 1;
        }
        let row = CompanyRow {
            id: self.companies[i].id,
            name: trimmed.clone(),
            active: self.companies[i].active,
        };
        self.companies[i] = row;
        proof {
            assert(self@.companies =~= prior.companies.update(
                i as int,
                CompanyRowV { name: trim_seq(new_name@), ..prior.companies[i as int] },
            ));
        }
        let m = self.orders.len();
        let mut k: usize = 0;
        while k < m
            invariant
                m == self.orders.len(),
                self@.companies == prior.companies.update(
                    i as int,
                    CompanyRowV { name: trim_seq(new_name@), ..prior.companies[i as int] },
                ),
                self@.opened == prior.opened,
                self@.settings == prior.settings,
                self@.theme == prior.theme,
                self@.next_order_id == prior.next_order_id,
                self@.next_company_id == prior.next_company_id,
                self@.schema == prior.schema,
                k <= m,
                self@.orders.len() == prior.orders.len(),
                forall|l: int|
                    0 <= l < k ==> #[trigger] self@.orders[l] == propagate_rename(
                        prior.orders,
                        id as int,
                        trim_seq(new_name@),
                    )[l],
                forall|l: int| k <= l < m ==> #[trigger] self@.orders[l] == prior.orders[l],
            decreases m - k,
        {
            let ghost before = self@.orders;
            if match self.orders[k].delivery_company_id {
                Some(cid) => cid == id,
                None => false,
            } {
                self.orders[k].delivery_company = trimmed.clone();
                proof {
                    assert(self@.orders =~= before.update(
                        k as int,
                        OrderRowV { delivery_company: trimmed@, ..before[k as int] },
                    ));
                }
            }
            proof {
                let pr = propagate_rename(prior.orders, id as int, trim_seq(new_name@));
                assert(self@.orders[k as int] == pr[k as int]);
                assert(forall|l: int| 0 <= l < m && l != k ==> self@.orders[l] == before[l]);
            }
            k = k + 1;
        }
        proof {
            let t = trim_seq(new_name@);
            assert(self@.orders =~= propagate_rename(prior.orders, id as int, t));
            assert forall|a: int, b: int| 0 <= a < b < self@.companies.len() implies lower_seq(
                (#[trigger] self@.companies[a]).name,
            ) != lower_seq((#[trigger] self@.companies[b]).name) by {
                if a != i {
                    assert(self@.companies[a] == prior.companies[a]);
                }
                if b != i {
                    assert(self@.companies[b] == prior.companies[b]);
                }
            }
            assert forall|a: int, b: int| 0 <= a < b < self@.companies.len() implies (
            #[trigger] self@.companies[a]).id < (#[trigger] self@.companies[b]).id by {
                assert(self@.companies[a].id == prior.companies[a].id);
                assert(self@.companies[b].id == prior.companies[b].id);
            }
            assert forall|a: int| 0 <= a < self@.companies.len() implies canonical_name(
                (#[trigger] self@.companies[a]).name,
            ) && 1 <= self@.companies[a].id && self@.companies[a].id < self@.next_company_id by {
                if a != i {
                    assert(self@.companies[a] == prior.companies[a]);
                }
                assert(self@.companies[a].id == prior.companies[a].id);
            }
            assert(companies_ok(self@));
            assert(crate::store::same_order_skeleton(prior.orders, self@.orders));
            lemma_inv_same_core(prior, self@);
        }
        Ok(())
    }
}

/// The ledger after a company rename: every row pointing at the renamed
/// company carries the new name as its display text; every other row is
/// untouched.
pub open spec fn propagate_rename(orders: Seq<OrderRowV>, id: int, nm: Seq<char>) -> Seq<
    OrderRowV,
> {
    Seq::new(
        orders.len(),
        |k: int|
            if orders[k].delivery_company_id == Some(id) {
                OrderRowV { delivery_company: nm, ..orders[k] }
            } else {
                orders[k]
            },
    )
}

/// After a rename propagates, every order referencing the renamed company
/// shows exactly the new name.
pub proof fn lemma_rename_propagates(orders: Seq<OrderRowV>, id: int, nm: Seq<char>)
    ensures
        forall|k: int|
            0 <= k < orders.len() && (#[trigger] propagate_rename(
                orders,
                id,
                nm,
            )[k]).delivery_company_id == Some(id) ==> propagate_rename(
                orders,
                id,
                nm,
            )[k].delivery_company == nm,
{
}

/// Whether the listing holds a line with exactly the given id, name and
/// active flag.
pub open spec fn company_listed(r: Seq<DeliveryCompany>, c: CompanyRowV) -> bool {
    exists|a: int|
        0 <= a < r.len() && (#[trigger] r[a]).id as int == c.id && r[a].name@ == c.name
            && r[a].active == c.active
}

/// Whether a listing line reproduces some directory row exactly.
pub open spec fn line_of_some_company(cs: Seq<CompanyRowV>, e: DeliveryCompany) -> bool {
    exists|i: int|
        0 <= i < cs.len() && (#[trigger] cs[i]).id == e.id as int && cs[i].name == e.name@
            && cs[i].active == e.active
}

impl Store {
    /// Every company of the directory, active ones first and names in
    /// lexicographic order within each group.
    #[verifier::loop_isolation(false)]
    #[verifier::rlimit(100)]
    pub fn list_delivery_companies(&self) -> (r: Vec<DeliveryCompany>)
        requires
            store_inv(self@),
        ensures
            r@.len() == self@.companies.len(),
            forall|a: int|
                0 <= a < r@.len() ==> line_of_some_company(self@.companies, #[trigger] r@[a]),
            forall|i: int|
                0 <= i < self@.companies.len() ==> company_listed(
                    r@,
                    #[trigger] self@.companies[i],
                ),
            forall|a: int, b: int|
                0 <= a < b < r@.len() ==> ((#[trigger] r@[a]).active && !(#[trigger] r@[b]).active)
                    || (r@[a].active == r@[b].active && crate::text::lex_lt(
                    r@[a].name@,
                    r@[b].name@,
                )),
    {
        let n = self.companies.len();
        let mut keys: Vec<u64> = Vec::new();
        let mut names: Vec<String> = Vec::new();
        let mut i: usize = 0;
        while i < n
            invariant
                n == self.companies.len(),
                i <= n,
                keys@.len() == i,
                names@.len() == i,
                forall|k: int|
                    0 <= k < i ==> #[trigger] keys@[k] == (if self@.companies[k].active {
                        0u64
                    } else {
                        1u64
                    }) && names@[k]@ == self@.companies[k].name,
            decreases n - i,
        {
            keys.push(
                if self.companies[i].active {
                    0
                } else {
                    1
                },
            );
            names.push(self.companies[i].name.clone());
            i = i + 1;
        }
        let idx = crate::dashboard::sort_sched_indices(&keys, &names);
        let mut out: Vec<DeliveryCompany> = Vec::new();
        let mut a: usize = 0;
        while a < n
            invariant
                n == self.companies.len(),
                a <= n,
                out@.len() == a,
                forall|l: int|
                    0 <= l < a ==> {
                        let e = #[trigger] out@[l];
                        &&& e.id as int == self@.companies[idx@[l] as int].id
                        &&& e.name@ == self@.companies[idx@[l] as int].name
                        &&& e.active == self@.companies[idx@[l] as int].active
                    },
            decreases n - a,
        {
            let j = idx[a];
            let c = &self.companies[j];
            out.push(DeliveryCompany { id: c.id, name: c.name.clone(), active: c.active });
            a = a + 1;
        }
        proof {
            assert forall|x: int| 0 <= x < out@.len() implies line_of_some_company(
                self@.companies,
                #[trigger] out@[x],
            ) by {
                let j = idx@[x] as int;
                assert((#[trigger] self@.companies[j]).id == out@[x].id as int && self@.companies[
                    j
                ].name == out@[x].name@ && self@.companies[j].active == out@[x].active);
            }
            assert forall|i2: int| 0 <= i2 < self@.companies.len() implies company_listed(
                out@,
                #[trigger] self@.companies[i2],
            ) by {
                assert(crate::rank::contains_index(idx@, i2));
                let l = choose|l: int| 0 <= l < idx@.len() && (#[trigger] idx@[l] as int) == i2;
                assert(out@[l].id as int == self@.companies[i2].id && out@[l].name@
                    == self@.companies[i2].name && out@[l].active == self@.companies[i2].active);
            }
            assert forall|x: int, y: int| 0 <= x < y < out@.len() implies ((
            #[trigger] out@[x]).active && !(#[trigger] out@[y]).active) || (out@[x].active
                == out@[y].active && crate::text::lex_lt(out@[x].name@, out@[y].name@)) by {
                let jx = idx@[x] as int;
                let jy = idx@[y] as int;
                if !crate::dashboard::sched_lt(keys@[jx], names@[jx]@, keys@[jy], names@[jy]@) {
                    assert(!crate::dashboard::sched_lt(
                        keys@[jy],
                        names@[jy]@,
                        keys@[jx],
                        names@[jx]@,
                    ));
                    crate::text::lemma_lex_trichotomy(names@[jx]@, names@[jy]@);
                    assert(names@[jx]@ == names@[jy]@);
                    if jx < jy {
                        assert(lower_seq(self@.companies[jx].name) != lower_seq(
                            self@.companies[jy].name,
                        ));
                    } else if jy < jx {
                        assert(lower_seq(self@.companies[jy].name) != lower_seq(
                            self@.companies[jx].name,
                        ));
                    }
                    assert(false);
                }
            }
        }
        out
    }
}

/// Resolving two names that differ only in letter case, one after the
/// other, yields the same company id and the same canonical stored name,
/// and the second resolution changes nothing.
pub proof fn lemma_get_or_create_case_insensitive(s: StoreV, a: Seq<char>, b: Seq<char>)
    requires
        store_inv(s),
        lower_seq(trim_seq(a)) == lower_seq(trim_seq(b)),
        trim_seq(a).len() > 0,
    ensures
        ({
            let (s1, r1) = resolve_company(s, a);
            let (s2, r2) = resolve_company(s1, b);
            &&& s2 == s1
            &&& r1 matches Ok(p1) && r2 matches Ok(p2) && p1 == p2
        }),
{
    let ta = trim_seq(a);
    let tb = trim_seq(b);
    assert(lower_seq(ta).len() == lower_seq(tb).len());
    assert(tb.len() > 0);
    let (s1, r1) = resolve_company(s, a);
    lemma_first_where_congruent(s.companies, company_ci_is(ta), company_ci_is(tb));
    lemma_first_where(s.companies, company_ci_is(ta));
    match first_where(s.companies, company_ci_is(ta)) {
        Some(i) => {
            assert(s1 == s);
        },
        None => {
            let added = CompanyRowV { id: s.next_company_id, name: ta, active: true };
            assert(s1.companies =~= s.companies.push(added));
            assert(company_ci_is(tb)(added));
            assert forall|k: int| 0 <= k < s.companies.len() implies !company_ci_is(tb)(
                #[trigger] s1.companies[k],
            ) by {
                assert(s1.companies[k] == s.companies[k]);
            }
            lemma_first_where_is(s1.companies, company_ci_is(tb), s.companies.len() as int);
        },
    }
}

} // verus!
