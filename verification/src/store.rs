//! The store: the in-memory state of the whole data layer — order ledger,
//! company directory, opened-orders list, key/value settings and theme
//! tables, and the schema bookkeeping — together with its well-formedness
//! invariant and the key/value operations.

use vstd::prelude::*;
use crate::dates::{Timestamp, valid_timestamp};
use crate::model::{OrderRow, OrderRowV, CompanyRow, CompanyRowV, OpenedEntry, OpenedEntryV, KvRow,
    KvRowV};
use crate::seqs::{first_where, lemma_first_where};
use crate::text::{lower_seq, trim_seq, str_eq};

verus! {

/// Which pieces of the relational schema are known to exist: base tables,
/// additively migrated columns, indexes, and the two name-sync triggers.
#[derive(Clone, Copy, Debug, PartialEq, Eq, Structural)]
pub struct SchemaState {
    pub orders_table: bool,
    pub opened_orders_table: bool,
    pub theme_table: bool,
    pub companies_table: bool,
    pub settings_table: bool,
    pub col_delivery_company_id: bool,
    pub col_article_name: bool,
    pub col_done: bool,
    pub idx_companies_active_name: bool,
    pub idx_orders_company: bool,
    pub idx_orders_article: bool,
    pub idx_orders_done_created: bool,
    pub trg_company_rename_sync: bool,
    pub trg_order_company_text: bool,
}

/// The schema state with every piece in place.
pub open spec fn full_schema() -> SchemaState {
    SchemaState {
        orders_table: true,
        opened_orders_table: true,
        theme_table: true,
        companies_table: true,
        settings_table: true,
        col_delivery_company_id: true,
        col_article_name: true,
        col_done: true,
        idx_companies_active_name: true,
        idx_orders_company: true,
        idx_orders_article: true,
        idx_orders_done_created: true,
        trg_company_rename_sync: true,
        trg_order_company_text: true,
    }
}

/// The whole data layer held in memory.
pub struct Store {
    pub orders: Vec<OrderRow>,
    pub companies: Vec<CompanyRow>,
    pub opened: Vec<OpenedEntry>,
    pub settings: Vec<KvRow>,
    pub theme: Vec<KvRow>,
    pub next_order_id: i64,
    pub next_company_id: i64,
    pub schema: SchemaState,
}

/// The mathematical value of the whole store.
#[verifier::ext_equal]
pub struct StoreV {
    pub orders: Seq<OrderRowV>,
    pub companies: Seq<CompanyRowV>,
    pub opened: Seq<OpenedEntryV>,
    pub settings: Seq<KvRowV>,
    pub theme: Seq<KvRowV>,
    pub next_order_id: int,
    pub next_company_id: int,
    pub schema: SchemaState,
}

pub open spec fn orders_view(v: Seq<OrderRow>) -> Seq<OrderRowV> {
    Seq::new(v.len(), |i: int| v[i]@)
}

pub open spec fn companies_view(v: Seq<CompanyRow>) -> Seq<CompanyRowV> {
    Seq::new(v.len(), |i: int| v[i]@)
}

pub open spec fn opened_view(v: Seq<OpenedEntry>) -> Seq<OpenedEntryV> {
    Seq::new(v.len(), |i: int| v[i]@)
}

pub open spec fn kv_view(v: Seq<KvRow>) -> Seq<KvRowV> {
    Seq::new(v.len(), |i: int| v[i]@)
}

impl View for Store {
    type V = StoreV;

    open spec fn view(&self) -> StoreV {
        StoreV {
            orders: orders_view(self.orders@),
            companies: companies_view(self.companies@),
            opened: opened_view(self.opened@),
            settings: kv_view(self.settings@),
            theme: kv_view(self.theme@),
            next_order_id: self.next_order_id as int,
            next_company_id: self.next_company_id as int,
            schema: self.schema,
        }
    }
}

/// A canonical directory name: trimmed and not blank.
pub open spec fn canonical_name(n: Seq<char>) -> bool {
    n.len() > 0 && trim_seq(n) == n
}

/// Well-formedness of the order ledger: ids positive, strictly increasing
/// and below the next id to assign, and every creation instant valid.
pub open spec fn orders_ok(s: StoreV) -> bool {
    &&& forall|i: int, j: int|
        0 <= i < j < s.orders.len() ==> #[trigger] s.orders[i].id < #[trigger] s.orders[j].id
    &&& forall|i: int|
        0 <= i < s.orders.len() ==> 1 <= #[trigger] s.orders[i].id && s.orders[i].id
            < s.next_order_id
    &&& forall|i: int| 0 <= i < s.orders.len() ==> valid_timestamp(#[trigger] s.orders[i].created_at)
    &&& 1 <= s.next_order_id <= i64::MAX
}

/// Well-formedness of the company directory: ids positive, strictly
/// increasing and below the next id, names canonical and pairwise distinct
/// under case folding.
pub open spec fn companies_ok(s: StoreV) -> bool {
    &&& forall|i: int, j: int|
        0 <= i < j < s.companies.len() ==> #[trigger] s.companies[i].id
            < #[trigger] s.companies[j].id
    &&& forall|i: int|
        0 <= i < s.companies.len() ==> 1 <= #[trigger] s.companies[i].id && s.companies[i].id
            < s.next_company_id
    &&& forall|i: int| 0 <= i < s.companies.len() ==> canonical_name(#[trigger] s.companies[i].name)
    &&& forall|i: int, j: int|
        0 <= i < j < s.companies.len() ==> lower_seq(#[trigger] s.companies[i].name) != lower_seq(
            #[trigger] s.companies[j].name,
        )
    &&& 1 <= s.next_company_id <= i64::MAX
}

/// Whether some order carries the given id.
pub open spec fn has_order(s: StoreV, id: int) -> bool {
    exists|i: int| 0 <= i < s.orders.len() && #[trigger] s.orders[i].id == id
}

/// Well-formedness of the opened-orders list: positions are exactly the
/// dense sequence 1..N in list order, entries name pairwise distinct
/// orders, and each names an order of the ledger.
pub open spec fn opened_ok(s: StoreV) -> bool {
    &&& forall|k: int| 0 <= k < s.opened.len() ==> (#[trigger] s.opened[k]).position == k + 1
    &&& forall|k: int, l: int|
        0 <= k < l < s.opened.len() ==> (#[trigger] s.opened[k]).order_id
            != (#[trigger] s.opened[l]).order_id
    &&& forall|k: int| 0 <= k < s.opened.len() ==> has_order(s, (#[trigger] s.opened[k]).order_id)
    &&& s.opened.len() <= i64::MAX - 1
}

/// Well-formedness of a key/value table: keys pairwise distinct.
pub open spec fn kv_ok(rows: Seq<KvRowV>) -> bool {
    forall|i: int, j: int|
        0 <= i < j < rows.len() ==> (#[trigger] rows[i]).key != (#[trigger] rows[j]).key
}

/// The store's invariant: every constructor establishes it and every
/// operation preserves it.
pub open spec fn store_inv(s: StoreV) -> bool {
    &&& orders_ok(s)
    &&& companies_ok(s)
    &&& opened_ok(s)
    &&& kv_ok(s.settings)
    &&& kv_ok(s.theme)
}

/// The predicate of an order row carrying the given id.
pub open spec fn order_id_is(id: int) -> spec_fn(OrderRowV) -> bool {
    |o: OrderRowV| o.id == id
}

/// The index of the order row carrying the given id, if any.
#[verifier::loop_isolation(false)]
pub(crate) fn find_order(orders: &Vec<OrderRow>, id: i64) -> (r: Option<usize>)
    ensures
        r matches Some(i) ==> first_where(orders_view(orders@), order_id_is(id as int)) == Some(
            i as int,
        ),
        r is None ==> first_where(orders_view(orders@), order_id_is(id as int)) is None,
{
    let ghost os = orders_view(orders@);
    let ghost p = order_id_is(id as int);
    let n = orders.len();
    let mut i: usize = 0;
    while i < n
        invariant
            i <= n,
            forall|k: int| 0 <= k < i ==> !p(os[k]),
        decreases n - i,
    {
        if orders[i].id == id {
            assert(p(os[i as int]));
            proof {
                crate::seqs::lemma_first_where_is(os, p, i as int);
            }
            return Some(i);
        }
        i = i + 1;
    }
    proof {
        lemma_first_where(os, p);
    }
    None
}

/// The predicate of a row carrying exactly the given key.
pub open spec fn kv_key_is(key: Seq<char>) -> spec_fn(KvRowV) -> bool {
    |r: KvRowV| r.key == key
}

/// A key/value table after writing `value` under `key`: the first row with
/// that key is replaced, or a new row is appended when none carries it.
pub open spec fn upsert_kv(rows: Seq<KvRowV>, key: Seq<char>, value: Seq<char>, now: Timestamp)
    -> Seq<KvRowV> {
    let row = KvRowV { key, value, updated_at: now };
    match first_where(rows, kv_key_is(key)) {
        Some(i) => rows.update(i, row),
        None => rows.push(row),
    }
}

/// Writing one key leaves a key/value table's keys pairwise distinct.
pub proof fn lemma_kv_upsert_ok(rows: Seq<KvRowV>, key: Seq<char>, value: Seq<char>, now: Timestamp)
    requires
        kv_ok(rows),
    ensures
        kv_ok(upsert_kv(rows, key, value, now)),
{
    let p = kv_key_is(key);
    let out = upsert_kv(rows, key, value, now);
    lemma_first_where(rows, p);
    match first_where(rows, p) {
        Some(i) => {
            assert forall|a: int, b: int| 0 <= a < b < out.len() implies (#[trigger] out[a]).key
                != (#[trigger] out[b]).key by {
                if a != i {
                    assert(out[a] == rows[a]);
                }
                if b != i {
                    assert(out[b] == rows[b]);
                }
                if a == i {
                    assert(out[a].key == rows[i].key);
                }
                if b == i {
                    assert(out[b].key == rows[i].key);
                }
            }
        },
        None => {
            assert forall|a: int, b: int| 0 <= a < b < out.len() implies (#[trigger] out[a]).key
                != (#[trigger] out[b]).key by {
                if b < rows.len() {
                    assert(out[a] == rows[a] && out[b] == rows[b]);
                } else {
                    assert(out[a] == rows[a] && out[b].key == key);
                    assert(!p(rows[a]));
                }
            }
        },
    }
}

/// Order rows that keep their ids and creation instants row for row.
pub open spec fn same_order_skeleton(a: Seq<OrderRowV>, b: Seq<OrderRowV>) -> bool {
    &&& b.len() == a.len()
    &&& forall|k: int|
        0 <= k < a.len() ==> (#[trigger] b[k]).id == (#[trigger] a[k]).id && b[k].created_at
            == a[k].created_at
}

/// The invariant carries over to a store whose ledger keeps its ids and
/// creation instants, whose opened list is unchanged, and whose directory
/// and key/value tables stay well formed.
pub proof fn lemma_inv_same_core(a: StoreV, b: StoreV)
    requires
        store_inv(a),
        b.orders == a.orders || same_order_skeleton(a.orders, b.orders),
        b.opened == a.opened,
        b.next_order_id == a.next_order_id,
        kv_ok(b.settings),
        kv_ok(b.theme),
        (b.companies == a.companies && b.next_company_id == a.next_company_id) || companies_ok(b),
    ensures
        store_inv(b),
{
    if b.orders != a.orders {
        assert forall|i: int, j: int| 0 <= i < j < b.orders.len() implies (
        #[trigger] b.orders[i]).id < (#[trigger] b.orders[j]).id by {
            assert(a.orders[i].id < a.orders[j].id);
        }
        assert forall|i: int| 0 <= i < b.orders.len() implies 1 <= (#[trigger] b.orders[i]).id
            && b.orders[i].id < b.next_order_id && valid_timestamp(b.orders[i].created_at) by {
            assert(b.orders[i].id == a.orders[i].id);
            assert(b.orders[i].created_at == a.orders[i].created_at);
        }
    }
    assert forall|k: int| 0 <= k < b.opened.len() implies has_order(
        b,
        (#[trigger] b.opened[k]).order_id,
    ) by {
        let id = b.opened[k].order_id;
        assert(has_order(a, id));
        let i = choose|i: int| 0 <= i < a.orders.len() && #[trigger] a.orders[i].id == id;
        assert(b.orders[i].id == id);
    }
}

/// The schema state with every piece in place, built at run time.
pub(crate) fn full_schema_exec() -> (r: SchemaState)
    ensures
        r == full_schema(),
{
    SchemaState {
        orders_table: true,
        opened_orders_table: true,
        theme_table: true,
        companies_table: true,
        settings_table: true,
        col_delivery_company_id: true,
        col_article_name: true,
        col_done: true,
        idx_companies_active_name: true,
        idx_orders_company: true,
        idx_orders_article: true,
        idx_orders_done_created: true,
        trg_company_rename_sync: true,
        trg_order_company_text: true,
    }
}

impl Store {
    /// A fresh, empty store with the schema fully in place — what opening a
    /// new storage file and ensuring the schema yields.
    pub fn new() -> (r: Store)
        ensures
            store_inv(r@),
            r@.orders =~= Seq::<OrderRowV>::empty(),
            r@.companies =~= Seq::<CompanyRowV>::empty(),
            r@.opened =~= Seq::<OpenedEntryV>::empty(),
            r@.settings =~= Seq::<KvRowV>::empty(),
            r@.theme =~= Seq::<KvRowV>::empty(),
            r@.next_order_id == 1,
            r@.next_company_id == 1,
            r@.schema == full_schema(),
    {
        Store {
            orders: Vec::new(),
            companies: Vec::new(),
            opened: Vec::new(),
            settings: Vec::new(),
            theme: Vec::new(),
            next_order_id: 1,
            next_company_id: 1,
            schema: SchemaState {
                orders_table: true,
                opened_orders_table: true,
                theme_table: true,
                companies_table: true,
                settings_table: true,
                col_delivery_company_id: true,
                col_article_name: true,
                col_done: true,
                idx_companies_active_name: true,
                idx_orders_company: true,
                idx_orders_article: true,
                idx_orders_done_created: true,
                trg_company_rename_sync: true,
                trg_order_company_text: true,
            },
        }
    }

    /// The stored value under a settings key, if any.
    pub fn get_setting(&self, key: &str) -> (r: Option<String>)
        ensures
            match first_where(self@.settings, kv_key_is(key@)) {
                Some(i) => r is Some && r->0@ == self@.settings[i].value,
                None => r is None,
            },
    {
        proof {
            lemma_first_where(self@.settings, kv_key_is(key@));
        }
        match find_kv(&self.settings, key) {
            Some(i) => Some(self.settings[i].value.clone()),
            None => None,
        }
    }

    /// Writes a settings value under a key, replacing any earlier value and
    /// stamping the write time.
    #[verifier::rlimit(50)]
    pub fn set_setting(&mut self, key: &str, value: &str, now: Timestamp)
        requires
            store_inv(old(self)@),
        ensures
            store_inv(final(self)@),
            final(self)@.settings == upsert_kv(old(self)@.settings, key@, value@, now),
            final(self)@.orders == old(self)@.orders,
            final(self)@.companies == old(self)@.companies,
            final(self)@.opened == old(self)@.opened,
            final(self)@.theme == old(self)@.theme,
            final(self)@.next_order_id == old(self)@.next_order_id,
            final(self)@.next_company_id == old(self)@.next_company_id,
            final(self)@.schema == old(self)@.schema,
    {
        let row = KvRow { key: key.to_owned(), value: value.to_owned(), updated_at: now };
        proof {
            lemma_kv_upsert_ok(old(self)@.settings, key@, value@, now);
            lemma_first_where(old(self)@.settings, kv_key_is(key@));
        }
        match find_kv(&self.settings, key) {
            Some(i) => {
                self.settings[i] = row;
                proof {
                    assert(self@.settings =~= upsert_kv(old(self)@.settings, key@, value@, now));
                }
            },
            None => {
                self.settings.push(row);
                proof {
                    assert(self@.settings =~= upsert_kv(old(self)@.settings, key@, value@, now));
                }
            },
        }
        proof {
            assert(self@.orders =~= old(self)@.orders);
            assert(self@.companies =~= old(self)@.companies);
            assert(self@.opened =~= old(self)@.opened);
            assert(self@.theme =~= old(self)@.theme);
            lemma_inv_same_core(old(self)@, self@);
        }
    }
}

/// The index of the first row carrying exactly the given key, if any.
#[verifier::loop_isolation(false)]
pub(crate) fn find_kv(rows: &Vec<KvRow>, key: &str) -> (r: Option<usize>)
    ensures
        r matches Some(i) ==> first_where(kv_view(rows@), kv_key_is(key@)) == Some(i as int),
        r is None ==> first_where(kv_view(rows@), kv_key_is(key@)) is None,
{
    let ghost p = kv_key_is(key@);
    proof {
        lemma_first_where(kv_view(rows@), p);
    }
    let n = rows.len();
    let mut i: usize = 0;
    while i < n
        invariant
            i <= n,
            forall|k: int| 0 <= k < i ==> !p(kv_view(rows@)[k]),
        decreases n - i,
    {
        if str_eq(rows[i].key.as_str(), key) {
            assert(p(kv_view(rows@)[i as int]));
            return Some(i);
        }
        i = i + 1;
    }
    None
}

} // verus!
