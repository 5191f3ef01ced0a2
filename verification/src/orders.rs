//! The order store: creation, read, full-replace update, completion
//! toggle, deletion with cascade into the opened-orders list, and the
//! order listing sorted by creation time.

use vstd::prelude::*;
use crate::StoreError;
use crate::dates::{Timestamp, valid_timestamp, total_ms};
use crate::directory::resolve_company;
use crate::model::{OrderRow, OrderRowV, OrderInputV, NewOrderInput, UpdateOrderInput,
    OrderListItem, OrderListItemV, OrderWithId, OrderWithIdV};
use crate::opened::close_opened;
use crate::rank::{sort_desc_indices, key_lt, is_index_permutation, ranked_desc, contains_index};
use crate::seqs::{first_where, lemma_first_where};
use crate::store::{Store, StoreV, store_inv, has_order, order_id_is, find_order,
    lemma_inv_same_core, same_order_skeleton};

verus! {

/// The stored row that creating an order writes: the business fields, the
/// resolved company id and canonical display text, the completion flag
/// down, and the server-assigned creation instant.
pub open spec fn new_order_row(
    input: OrderInputV,
    id: int,
    cid: int,
    cname: Seq<char>,
    now: Timestamp,
) -> OrderRowV {
    OrderRowV {
        id,
        client_name: input.client_name,
        article_name: input.article_name,
        phone: input.phone,
        city: input.city,
        address: input.address,
        delivery_company: cname,
        delivery_company_id: Some(cid),
        delivery_date: input.delivery_date,
        description: input.description,
        done: input.done_flag(),
        created_at: now,
    }
}

/// A stored row after a full-replace update: every business field is
/// replaced, the company is re-resolved, and the id, completion flag and
/// creation instant stay.
pub open spec fn replaced_order_row(
    prev: OrderRowV,
    input: OrderInputV,
    cid: int,
    cname: Seq<char>,
) -> OrderRowV {
    OrderRowV {
        id: prev.id,
        client_name: input.client_name,
        article_name: input.article_name,
        phone: input.phone,
        city: input.city,
        address: input.address,
        delivery_company: cname,
        delivery_company_id: Some(cid),
        delivery_date: input.delivery_date,
        description: input.description,
        done: prev.done,
        created_at: prev.created_at,
    }
}

impl OrderInputV {
    /// A new order starts not done.
    pub open spec fn done_flag(self) -> bool {
        false
    }
}

/// The read-back value of a stored row.
pub open spec fn order_with_id_of(o: OrderRowV) -> OrderWithIdV {
    OrderWithIdV {
        id: o.id,
        client_name: o.client_name,
        article_name: o.article_name,
        phone: o.phone,
        city: o.city,
        address: o.address,
        delivery_company: o.delivery_company,
        delivery_date: o.delivery_date,
        description: o.description,
        done: o.done,
    }
}

/// The listing line of a stored row.
pub open spec fn list_item_of(o: OrderRowV) -> OrderListItemV {
    OrderListItemV { id: o.id, article_name: o.article_name, done: o.done }
}

/// Whether the listing holds the given line.
pub open spec fn has_list_item(r: Seq<OrderListItem>, item: OrderListItemV) -> bool {
    exists|a: int| 0 <= a < r.len() && (#[trigger] r[a])@ == item
}

/// Whether the given line is the listing line of some stored row.
pub open spec fn is_line_of_some_row(orders: Seq<OrderRowV>, item: OrderListItemV) -> bool {
    exists|i: int| 0 <= i < orders.len() && list_item_of(#[trigger] orders[i]) == item
}

/// The listing order: the row with `id1` was created strictly after the
/// row with `id2`, or at the same instant with the greater id.
pub open spec fn listed_before(orders: Seq<OrderRowV>, id1: int, id2: int) -> bool {
    exists|i: int, j: int|
        0 <= i < orders.len() && 0 <= j < orders.len() && (#[trigger] orders[i]).id == id1 && (
        #[trigger] orders[j]).id == id2 && (total_ms(orders[i].created_at) > total_ms(
            orders[j].created_at,
        ) || (total_ms(orders[i].created_at) == total_ms(orders[j].created_at) && orders[i].id
            > orders[j].id))
}

impl Store {
    /// Creates an order: resolves the company, inserts the row with the
    /// completion flag down and the given creation instant, and returns
    /// the assigned id. A blank company name is rejected and nothing is
    /// written.
    pub fn save_order(&mut self, order: NewOrderInput, now: Timestamp) -> (r: Result<
        i64,
        StoreError,
    >)
        requires
            store_inv(old(self)@),
            valid_timestamp(now),
            old(self)@.next_order_id < i64::MAX,
            old(self)@.next_company_id < i64::MAX,
        ensures
            store_inv(final(self)@),
            ({
                let resolved = resolve_company(old(self)@, order@.delivery_company);
                match r {
                    Ok(id) => id as int == old(self)@.next_order_id && (resolved.1 matches Ok(p)
                        && final(self)@ == (StoreV {
                        orders: resolved.0.orders.push(
                            new_order_row(order@, id as int, p.0, p.1, now),
                        ),
                        next_order_id: old(self)@.next_order_id + 1,
                        ..resolved.0
                    })),
                    Err(e) => resolved.1 == Err::<(int, Seq<char>), _>(e) && final(self)@ == old(
                        self,
                    )@,
                }
            }),
    {
        let ghost input = order@;
        let (cid, cname) = match self.get_or_create_delivery_company(
            order.delivery_company.as_str(),
        ) {
            Ok(p) => p,
            Err(e) => {
                return Err(e);
            },
        };
        let ghost mid = self@;
        let id = self.next_order_id;
        let row = OrderRow {
            id,
            client_name: order.client_name.clone(),
            article_name: order.article_name.clone(),
            phone: order.phone.clone(),
            city: order.city.clone(),
            address: order.address.clone(),
            delivery_company: cname,
            delivery_company_id: Some(cid),
            delivery_date: order.delivery_date.clone(),
            description: match &order.description {
                Some(d) => Some(d.clone()),
                None => None,
            },
            done: false,
            created_at: now,
        };
        self.orders.push(row);
        self.next_order_id = id + 1;
        proof {
            let resolved = resolve_company(old(self)@, input.delivery_company);
            let added = new_order_row(input, id as int, cid as int, resolved.1->Ok_0.1, now);
            assert(self@.orders =~= mid.orders.push(added));
            assert(self@.companies =~= mid.companies);
            assert(self@.opened =~= mid.opened);
            assert(self@.settings =~= mid.settings);
            assert(self@.theme =~= mid.theme);
            assert forall|k: int| 0 <= k < self@.opened.len() implies has_order(
                self@,
                (#[trigger] self@.opened[k]).order_id,
            ) by {
                assert(has_order(mid, mid.opened[k].order_id));
                let i = choose|i: int|
                    0 <= i < mid.orders.len() && #[trigger] mid.orders[i].id
                        == mid.opened[k].order_id;
                assert(self@.orders[i].id == self@.opened[k].order_id);
            }
            assert(store_inv(self@));
            assert(final(self)@ == (StoreV {
                orders: resolved.0.orders.push(
                    new_order_row(input, id as int, resolved.1->Ok_0.0, resolved.1->Ok_0.1, now),
                ),
                next_order_id: old(self)@.next_order_id + 1,
                ..resolved.0
            }));
        }
        Ok(id)
    }

    /// Reads one order by id.
    pub fn get_order(&self, id: i64) -> (r: Result<OrderWithId, StoreError>)
        ensures
            match first_where(self@.orders, order_id_is(id as int)) {
                Some(i) => r matches Ok(o) && o@ == order_with_id_of(self@.orders[i]),
                None => r == Err::<OrderWithId, _>(StoreError::NotFound),
            },
    {
        match find_order(&self.orders, id) {
            None => Err(StoreError::NotFound),
            Some(i) => {
                proof {
                    lemma_first_where(self@.orders, order_id_is(id as int));
                }
                let o = &self.orders[i];
                Ok(
                    OrderWithId {
                        id: o.id,
                        client_name: o.client_name.clone(),
                        article_name: o.article_name.clone(),
                        phone: o.phone.clone(),
                        city: o.city.clone(),
                        address: o.address.clone(),
                        delivery_company: o.delivery_company.clone(),
                        delivery_date: o.delivery_date.clone(),
                        description: match &o.description {
                            Some(d) => Some(d.clone()),
                            None => None,
                        },
                        done: o.done,
                    },
                )
            },
        }
    }

    /// Replaces every business field of an order, re-resolving the company
    /// exactly as creation does; the id, completion flag and creation
    /// instant stay. The company is resolved first, as on every write
    /// path, so a new name is recorded even when the order turns out to be
    /// missing.
    pub fn update_order(&mut self, id: i64, order: UpdateOrderInput) -> (r: Result<
        (),
        StoreError,
    >)
        requires
            store_inv(old(self)@),
            old(self)@.next_company_id < i64::MAX,
        ensures
            store_inv(final(self)@),
            ({
                let resolved = resolve_company(old(self)@, order@.delivery_company);
                match r {
                    Ok(()) => resolved.1 matches Ok(p) && first_where(
                        old(self)@.orders,
                        order_id_is(id as int),
                    ) matches Some(i) && final(self)@ == (StoreV {
                        orders: resolved.0.orders.update(
                            i,
                            replaced_order_row(old(self)@.orders[i], order@, p.0, p.1),
                        ),
                        ..resolved.0
                    }),
                    Err(e) => if resolved.1 is Ok {
                        e == StoreError::NotFound && first_where(
                            old(self)@.orders,
                            order_id_is(id as int),
                        ) is None && final(self)@ == resolved.0
                    } else {
                        resolved.1 == Err::<(int, Seq<char>), _>(e) && final(self)@ == old(self)@
                    },
                }
            }),
    {
        let ghost input = order@;
        let (cid, cname) = match self.get_or_create_delivery_company(
            order.delivery_company.as_str(),
        ) {
            Ok(p) => p,
            Err(e) => {
                return Err(e);
            },
        };
        let ghost mid = self@;
        let i = match find_order(&self.orders, id) {
            None => {
                return Err(StoreError::NotFound);
            },
            Some(i) => i,
        };
        proof {
            lemma_first_where(mid.orders, order_id_is(id as int));
            assert(first_where(old(self)@.orders, order_id_is(id as int)) == Some(i as int));
        }
        let row = OrderRow {
            id: self.orders[i].id,
            client_name: order.client_name.clone(),
            article_name: order.article_name.clone(),
            phone: order.phone.clone(),
            city: order.city.clone(),
            address: order.address.clone(),
            delivery_company: cname,
            delivery_company_id: Some(cid),
            delivery_date: order.delivery_date.clone(),
            description: match &order.description {
                Some(d) => Some(d.clone()),
                None => None,
            },
            done: self.orders[i].done,
            created_at: self.orders[i].created_at,
        };
        self.orders[i] = row;
        proof {
            let resolved = resolve_company(old(self)@, input.delivery_company);
            assert(self@.orders =~= mid.orders.update(
                i as int,
                replaced_order_row(old(self)@.orders[i as int], input, cid as int, cname@),
            ));
            assert(self@.companies =~= mid.companies);
            assert(self@.opened =~= mid.opened);
            assert(self@.settings =~= mid.settings);
            assert(self@.theme =~= mid.theme);
            assert(same_order_skeleton(mid.orders, self@.orders));
            lemma_inv_same_core(mid, self@);
            assert(final(self)@ == (StoreV {
                orders: resolved.0.orders.update(
                    i as int,
                    replaced_order_row(
                        old(self)@.orders[i as int],
                        input,
                        resolved.1->Ok_0.0,
                        resolved.1->Ok_0.1,
                    ),
                ),
                ..resolved.0
            }));
        }
        Ok(())
    }

    /// Sets or clears an order's completion flag — the only operation that
    /// touches it; every other field stays.
    pub fn set_order_done(&mut self, id: i64, done: bool) -> (r: Result<(), StoreError>)
        requires
            store_inv(old(self)@),
        ensures
            store_inv(final(self)@),
            match first_where(old(self)@.orders, order_id_is(id as int)) {
                Some(i) => r == Ok::<_, StoreError>(()) && final(self)@ == (StoreV {
                    orders: old(self)@.orders.update(
                        i,
                        OrderRowV { done, ..old(self)@.orders[i] },
                    ),
                    ..old(self)@
                }),
                None => r == Err::<(), _>(StoreError::NotFound) && final(self)@ == old(self)@,
            },
    {
        let ghost prior = self@;
        let i = match find_order(&self.orders, id) {
            None => {
                return Err(StoreError::NotFound);
            },
            Some(i) => i,
        };
        proof {
            lemma_first_where(prior.orders, order_id_is(id as int));
        }
        let row = OrderRow {
            id: self.orders[i].id,
            client_name: self.orders[i].client_name.clone(),
            article_name: self.orders[i].article_name.clone(),
            phone: self.orders[i].phone.clone(),
            city: self.orders[i].city.clone(),
            address: self.orders[i].address.clone(),
            delivery_company: self.orders[i].delivery_company.clone(),
            delivery_company_id: self.orders[i].delivery_company_id,
            delivery_date: self.orders[i].delivery_date.clone(),
            description: match &self.orders[i].description {
                Some(d) => Some(d.clone()),
                None => None,
            },
            done,
            created_at: self.orders[i].created_at,
        };
        self.orders[i] = row;
        proof {
            assert(self@.orders =~= prior.orders.update(
                i as int,
                OrderRowV { done, ..prior.orders[i as int] },
            ));
            assert(self@.companies =~= prior.companies);
            assert(self@.opened =~= prior.opened);
            assert(self@.settings =~= prior.settings);
            assert(self@.theme =~= prior.theme);
            assert(same_order_skeleton(prior.orders, self@.orders));
            lemma_inv_same_core(prior, self@);
            assert(self@ == (StoreV { orders: self@.orders, ..prior }));
        }
        Ok(())
    }

    /// Deletes an order and cascades the removal into the opened-orders
    /// list, whose remaining entries are renumbered densely in the same
    /// step.
    pub fn delete_order(&mut self, id: i64) -> (r: Result<(), StoreError>)
        requires
            store_inv(old(self)@),
        ensures
            store_inv(final(self)@),
            match first_where(old(self)@.orders, order_id_is(id as int)) {
                Some(i) => r == Ok::<_, StoreError>(()) && final(self)@ == (StoreV {
                    orders: old(self)@.orders.remove(i),
                    opened: close_opened(old(self)@.opened, id as int),
                    ..old(self)@
                }),
                None => r == Err::<(), _>(StoreError::NotFound) && final(self)@ == old(self)@,
            },
    {
        let ghost prior = self@;
        let i = match find_order(&self.orders, id) {
            None => {
                return Err(StoreError::NotFound);
            },
            Some(i) => i,
        };
        proof {
            lemma_first_where(prior.orders, order_id_is(id as int));
        }
        self.orders.remove(i);
        let ghost mid = self@;
        proof {
            assert(mid.orders =~= prior.orders.remove(i as int));
        }
        self.remove_opened_order_for_delete(id, Ghost(prior), Ghost(i as int));
        proof {
            assert(final(self)@ == (StoreV {
                orders: prior.orders.remove(i as int),
                opened: close_opened(prior.opened, id as int),
                ..prior
            }));
        }
        Ok(())
    }

    /// The cascade step of deletion: closes the opened entry of the
    /// removed order against the already-shrunk ledger.
    #[verifier::loop_isolation(false)]
    fn remove_opened_order_for_delete(
        &mut self,
        id: i64,
        Ghost(prior): Ghost<StoreV>,
        Ghost(i): Ghost<int>,
    )
        requires
            store_inv(prior),
            0 <= i < prior.orders.len(),
            prior.orders[i].id == id as int,
            old(self)@ == (StoreV { orders: prior.orders.remove(i), ..prior }),
        ensures
            store_inv(final(self)@),
            final(self)@ == (StoreV {
                orders: prior.orders.remove(i),
                opened: close_opened(prior.opened, id as int),
                ..prior
            }),
    {
        let ghost removed_orders = prior.orders.remove(i);
        let k = match crate::opened::find_opened(&self.opened, id) {
            None => {
                proof {
                    lemma_first_where(prior.opened, crate::opened::opened_id_is(id as int));
                    assert forall|a: int| 0 <= a < self@.opened.len() implies has_order(
                        self@,
                        (#[trigger] self@.opened[a]).order_id,
                    ) by {
                        assert(!crate::opened::opened_id_is(id as int)(prior.opened[a]));
                        assert(has_order(prior, prior.opened[a].order_id));
                        let j = choose|j: int|
                            0 <= j < prior.orders.len() && #[trigger] prior.orders[j].id
                                == prior.opened[a].order_id;
                        if j < i {
                            assert(self@.orders[j].id == self@.opened[a].order_id);
                        } else {
                            assert(prior.orders[j].id != id as int);
                            assert(j != i);
                            assert(self@.orders[j - 1].id == self@.opened[a].order_id);
                        }
                    }
                    assert(store_inv(self@));
                    assert(self@ =~= (StoreV {
                        orders: removed_orders,
                        opened: close_opened(prior.opened, id as int),
                        ..prior
                    }));
                }
                return ;
            },
            Some(k) => k,
        };
        proof {
            lemma_first_where(prior.opened, crate::opened::opened_id_is(id as int));
        }
        self.opened.remove(k);
        let ghost removed = prior.opened.remove(k as int);
        proof {
            assert(self@.opened =~= removed);
        }
        let n = self.opened.len();
        let mut l: usize = k;
        while l < n
            invariant
                n == self.opened.len(),
                k <= l <= n,
                n == removed.len(),
                n <= i64::MAX - 1,
                self@.companies == prior.companies,
                self@.orders == removed_orders,
                self@.settings == prior.settings,
                self@.theme == prior.theme,
                self@.next_order_id == prior.next_order_id,
                self@.next_company_id == prior.next_company_id,
                self@.schema == prior.schema,
                forall|a: int| 0 <= a < l ==> #[trigger] self@.opened[a] == crate::opened::renumber(
                    removed,
                )[a],
                forall|a: int| l <= a < n ==> #[trigger] self@.opened[a] == removed[a],
            decreases n - l,
        {
            let ghost before = self@.opened;
            let pos: i64 = (l as i64) + 1;
            self.opened[l].position = pos;
            proof {
                assert(self@.opened =~= before.update(
                    l as int,
                    crate::model::OpenedEntryV {
                        order_id: before[l as int].order_id,
                        position: l as int + 1,
                    },
                ));
                assert(self@.opened[l as int] == crate::opened::renumber(removed)[l as int]);
            }
            l = l + 1;
        }
        proof {
            assert(self@.opened =~= crate::opened::renumber(removed));
            assert forall|a: int, b: int| 0 <= a < b < self@.opened.len() implies (
            #[trigger] self@.opened[a]).order_id != (#[trigger] self@.opened[b]).order_id by {
                let sa: int = if a < k {
                    a
                } else {
                    a + 1
                };
                let sb: int = if b < k {
                    b
                } else {
                    b + 1
                };
                assert(self@.opened[a].order_id == prior.opened[sa].order_id);
                assert(self@.opened[b].order_id == prior.opened[sb].order_id);
            }
            assert forall|a: int| 0 <= a < self@.opened.len() implies has_order(
                self@,
                (#[trigger] self@.opened[a]).order_id,
            ) by {
                let sa: int = if a < k {
                    a
                } else {
                    a + 1
                };
                assert(self@.opened[a].order_id == prior.opened[sa].order_id);
                assert(prior.opened[sa].order_id != prior.opened[k as int].order_id);
                assert(prior.opened[sa].order_id != id as int);
                assert(has_order(prior, prior.opened[sa].order_id));
                let j = choose|j: int|
                    0 <= j < prior.orders.len() && #[trigger] prior.orders[j].id
                        == prior.opened[sa].order_id;
                if j < i {
                    assert(self@.orders[j].id == self@.opened[a].order_id);
                } else {
                    assert(j != i);
                    assert(self@.orders[j - 1].id == self@.opened[a].order_id);
                }
            }
            assert(store_inv(self@));
            assert(self@ =~= (StoreV {
                orders: removed_orders,
                opened: close_opened(prior.opened, id as int),
                ..prior
            }));
        }
    }

    /// Every order as a listing line, newest creation instant first and
    /// ties broken by the higher id first, so the order is deterministic
    /// even with identical timestamps.
    #[verifier::loop_isolation(false)]
    pub fn list_orders(&self) -> (r: Vec<OrderListItem>)
        requires
            store_inv(self@),
        ensures
            r@.len() == self@.orders.len(),
            forall|a: int|
                0 <= a < r@.len() ==> is_line_of_some_row(self@.orders, (#[trigger] r@[a])@),
            forall|i: int|
                0 <= i < self@.orders.len() ==> has_list_item(
                    r@,
                    list_item_of(#[trigger] self@.orders[i]),
                ),
            forall|a: int, b: int|
                0 <= a < b < r@.len() ==> listed_before(self@.orders, r@[a]@.id, r@[b]@.id),
    {
        let n = self.orders.len();
        let mut keys: Vec<(u64, u64)> = Vec::new();
        let mut i: usize = 0;
        while i < n
            invariant
                n == self.orders.len(),
                i <= n,
                keys@.len() == i,
                forall|k: int|
                    0 <= k < i ==> #[trigger] keys@[k] == (
                        total_ms(self@.orders[k].created_at) as u64,
                        self@.orders[k].id as u64,
                    ),
            decreases n - i,
        {
            proof {
                assert(valid_timestamp(self@.orders[i as int].created_at));
            }
            let ms = crate::dates::total_ms_exec(&self.orders[i].created_at);
            let idk = self.orders[i].id as u64;
            keys.push((ms, idk));
            i = i + 1;
        }
        let idx = sort_desc_indices(&keys);
        let mut out: Vec<OrderListItem> = Vec::new();
        let mut a: usize = 0;
        while a < n
            invariant
                n == self.orders.len(),
                idx@.len() == n,
                keys@.len() == n,
                forall|k: int|
                    0 <= k < n ==> #[trigger] keys@[k] == (
                        total_ms(self@.orders[k].created_at) as u64,
                        self@.orders[k].id as u64,
                    ),
                is_index_permutation(n as int, idx@),
                ranked_desc(keys@, idx@),
                a <= n,
                out@.len() == a,
                forall|l: int|
                    0 <= l < a ==> (#[trigger] out@[l])@ == list_item_of(
                        self@.orders[idx@[l] as int],
                    ),
            decreases n - a,
        {
            let i = idx[a];
            let o = &self.orders[i];
            out.push(
                OrderListItem { id: o.id, article_name: o.article_name.clone(), done: o.done },
            );
            a = a + 1;
        }
        proof {
            assert forall|l: int| 0 <= l < out@.len() implies is_line_of_some_row(
                self@.orders,
                (#[trigger] out@[l])@,
            ) by {
                assert(list_item_of(self@.orders[idx@[l] as int]) == out@[l]@);
            }
            assert forall|i: int| 0 <= i < self@.orders.len() implies has_list_item(
                out@,
                list_item_of(#[trigger] self@.orders[i]),
            ) by {
                assert(contains_index(idx@, i));
                let l = choose|l: int| 0 <= l < idx@.len() && (#[trigger] idx@[l] as int) == i;
                assert(out@[l]@ == list_item_of(self@.orders[i]));
            }
            assert forall|a1: int, b1: int| 0 <= a1 < b1 < out@.len() implies listed_before(
                self@.orders,
                out@[a1]@.id,
                out@[b1]@.id,
            ) by {
                let ia = idx@[a1] as int;
                let ib = idx@[b1] as int;
                assert(valid_timestamp(self@.orders[ia].created_at));
                assert(valid_timestamp(self@.orders[ib].created_at));
                crate::dates::lemma_total_ms_bound(self@.orders[ia].created_at);
                crate::dates::lemma_total_ms_bound(self@.orders[ib].created_at);
                assert(keys@[ia].0 == total_ms(self@.orders[ia].created_at) as u64);
                assert(keys@[ib].0 == total_ms(self@.orders[ib].created_at) as u64);
                assert(key_lt(keys@[ib], keys@[ia]) || (keys@[ib] == keys@[ia] && idx@[a1]
                    < idx@[b1]));
                if keys@[ib] == keys@[ia] {
                    if ia != ib {
                        assert(self@.orders[ia].id != self@.orders[ib].id);
                        assert(self@.orders[ia].id as u64 == keys@[ia].1);
                        assert(self@.orders[ib].id as u64 == keys@[ib].1);
                        assert(false);
                    }
                    assert(false);
                }
                assert(key_lt(keys@[ib], keys@[ia]));
                assert(total_ms(self@.orders[ia].created_at) > total_ms(
                    self@.orders[ib].created_at,
                ) || (total_ms(self@.orders[ia].created_at) == total_ms(
                    self@.orders[ib].created_at,
                ) && self@.orders[ia].id > self@.orders[ib].id));
                assert(out@[a1]@.id == self@.orders[ia].id);
                assert(out@[b1]@.id == self@.orders[ib].id);
            }
        }
        out
    }
}

} // verus!
