//! The opened-orders list: a dense, gap-free positional ordering over a
//! subset of order ids. Opening appends without reordering; closing
//! removes the entry and renumbers the rest densely in the same step, so a
//! reader never sees a gapped sequence.

use vstd::prelude::*;
use crate::StoreError;
use crate::model::{OpenedEntry, OpenedEntryV, OpenedOrderItem};
use crate::seqs::{first_where, lemma_first_where, lemma_first_where_is};
use crate::store::{Store, StoreV, store_inv, has_order, opened_view, orders_view, order_id_is,
    find_order, lemma_inv_same_core};

verus! {

/// The predicate of an opened entry naming the given order.
pub open spec fn opened_id_is(id: int) -> spec_fn(OpenedEntryV) -> bool {
    |e: OpenedEntryV| e.order_id == id
}

/// A list renumbered densely from position 1, keeping relative order.
pub open spec fn renumber(s: Seq<OpenedEntryV>) -> Seq<OpenedEntryV> {
    Seq::new(s.len(), |k: int| OpenedEntryV { order_id: s[k].order_id, position: k + 1 })
}

/// The opened list after closing an order: its entry, if present, is
/// removed and all remaining entries are renumbered densely.
pub open spec fn close_opened(opened: Seq<OpenedEntryV>, order_id: int) -> Seq<OpenedEntryV> {
    match first_where(opened, opened_id_is(order_id)) {
        None => opened,
        Some(k) => renumber(opened.remove(k)),
    }
}

/// The index of the opened entry naming the given order, if any.
#[verifier::loop_isolation(false)]
pub(crate) fn find_opened(opened: &Vec<OpenedEntry>, id: i64) -> (r: Option<usize>)
    ensures
        r matches Some(i) ==> first_where(opened_view(opened@), opened_id_is(id as int)) == Some(
            i as int,
        ),
        r is None ==> first_where(opened_view(opened@), opened_id_is(id as int)) is None,
{
    let ghost es = opened_view(opened@);
    let ghost p = opened_id_is(id as int);
    let n = opened.len();
    let mut i: usize = 0;
    while i < n
        invariant
            i <= n,
            forall|k: int| 0 <= k < i ==> !p(es[k]),
        decreases n - i,
    {
        if opened[i].order_id == id {
            assert(p(es[i as int]));
            proof {
                lemma_first_where_is(es, p, i as int);
            }
            return Some(i);
        }
        i = i + 1;
    }
    proof {
        lemma_first_where(es, p);
    }
    None
}

impl Store {
    /// Opens an order without reordering the list: an order already open
    /// keeps its position, a newly opened one is appended at the end; an
    /// id no order carries is rejected.
    pub fn open_order(&mut self, id: i64) -> (r: Result<(), StoreError>)
        requires
            store_inv(old(self)@),
            old(self)@.opened.len() + 2 <= i64::MAX,
        ensures
            store_inv(final(self)@),
            !has_order(old(self)@, id as int) ==> r == Err::<(), _>(StoreError::NotFound)
                && final(self)@ == old(self)@,
            has_order(old(self)@, id as int) && first_where(
                old(self)@.opened,
                opened_id_is(id as int),
            ) is Some ==> r == Ok::<_, StoreError>(()) && final(self)@ == old(self)@,
            has_order(old(self)@, id as int) && first_where(
                old(self)@.opened,
                opened_id_is(id as int),
            ) is None ==> r == Ok::<_, StoreError>(()) && final(self)@ == (StoreV {
                opened: old(self)@.opened.push(
                    OpenedEntryV {
                        order_id: id as int,
                        position: old(self)@.opened.len() as int + 1,
                    },
                ),
                ..old(self)@
            }),
    {
        let ghost prior = self@;
        match find_order(&self.orders, id) {
            None => {
                proof {
                    lemma_first_where(prior.orders, order_id_is(id as int));
                    if has_order(prior, id as int) {
                        let i = choose|i: int|
                            0 <= i < prior.orders.len() && #[trigger] prior.orders[i].id
                                == id as int;
                        assert(order_id_is(id as int)(prior.orders[i]));
                    }
                }
                Err(StoreError::NotFound)
            },
            Some(oi) => {
                proof {
                    lemma_first_where(prior.orders, order_id_is(id as int));
                    assert(prior.orders[oi as int].id == id as int);
                    assert(has_order(prior, id as int));
                }
                match find_opened(&self.opened, id) {
                    Some(_) => Ok(()),
                    None => {
                        proof {
                            lemma_first_where(prior.opened, opened_id_is(id as int));
                        }
                        let pos: i64 = (self.opened.len() as i64) + 1;
                        self.opened.push(OpenedEntry { order_id: id, position: pos });
                        proof {
                            let added = OpenedEntryV {
                                order_id: id as int,
                                position: prior.opened.len() as int + 1,
                            };
                            assert(self@.opened =~= prior.opened.push(added));
                            assert(self@.orders =~= prior.orders);
                            assert(self@.companies =~= prior.companies);
                            assert(self@.settings =~= prior.settings);
                            assert(self@.theme =~= prior.theme);
                            assert forall|k: int, l: int|
                                0 <= k < l < self@.opened.len() implies (
                            #[trigger] self@.opened[k]).order_id != (
                            #[trigger] self@.opened[l]).order_id by {
                                if l == prior.opened.len() as int {
                                    assert(!opened_id_is(id as int)(prior.opened[k]));
                                }
                            }
                            assert forall|k: int| 0 <= k < self@.opened.len() implies has_order(
                                self@,
                                (#[trigger] self@.opened[k]).order_id,
                            ) by {
                                if k < prior.opened.len() {
                                    assert(has_order(prior, prior.opened[k].order_id));
                                    let i = choose|i: int|
                                        0 <= i < prior.orders.len()
                                            && #[trigger] prior.orders[i].id
                                            == prior.opened[k].order_id;
                                    assert(self@.orders[i].id == self@.opened[k].order_id);
                                } else {
                                    assert(self@.orders[oi as int].id == id as int);
                                }
                            }
                            assert(store_inv(self@));
                        }
                        Ok(())
                    },
                }
            },
        }
    }

    /// The opened orders in position order, each joined with its article
    /// name from the ledger.
    #[verifier::loop_isolation(false)]
    pub fn get_opened_orders(&self) -> (r: Vec<OpenedOrderItem>)
        requires
            store_inv(self@),
        ensures
            r@.len() == self@.opened.len(),
            forall|k: int|
                0 <= k < r@.len() ==> {
                    let item = (#[trigger] r@[k])@;
                    &&& item.order_id == self@.opened[k].order_id
                    &&& item.position == k + 1
                    &&& first_where(self@.orders, order_id_is(self@.opened[k].order_id))
                        matches Some(i) && item.article_name == self@.orders[i].article_name
                },
    {
        let n = self.opened.len();
        let mut out: Vec<OpenedOrderItem> = Vec::new();
        let mut k: usize = 0;
        while k < n
            invariant
                n == self.opened.len(),
                k <= n,
                out@.len() == k,
                forall|l: int|
                    0 <= l < k ==> {
                        let item = (#[trigger] out@[l])@;
                        &&& item.order_id == self@.opened[l].order_id
                        &&& item.position == l + 1
                        &&& first_where(self@.orders, order_id_is(self@.opened[l].order_id))
                            matches Some(i) && item.article_name == self@.orders[i].article_name
                    },
            decreases n - k,
        {
            let id = self.opened[k].order_id;
            proof {
                assert(has_order(self@, self@.opened[k as int].order_id));
            }
            let article = match find_order(&self.orders, id) {
                Some(i) => {
                    proof {
                        lemma_first_where(self@.orders, order_id_is(id as int));
                    }
                    self.orders[i].article_name.clone()
                },
                None => {
                    proof {
                        lemma_first_where(self@.orders, order_id_is(id as int));
                        let i = choose|i: int|
                            0 <= i < self@.orders.len() && #[trigger] self@.orders[i].id
                                == id as int;
                        assert(order_id_is(id as int)(self@.orders[i]));
                        assert(false);
                    }
                    String::new()
                },
            };
            let pos: i64 = (k as i64) + 1;
            out.push(OpenedOrderItem { order_id: id, article_name: article, position: pos });
            k = k + 1;
        }
        out
    }

    /// Closes an opened order: removes its entry, if any, and renumbers the
    /// remaining entries densely from 1, keeping their relative order, in
    /// the same step.
    pub fn remove_opened_order(&mut self, id: i64)
        requires
            store_inv(old(self)@),
        ensures
            store_inv(final(self)@),
            final(self)@.opened == close_opened(old(self)@.opened, id as int),
            final(self)@ == (StoreV { opened: final(self)@.opened, ..old(self)@ }),
    {
        let ghost prior = self@;
        let k = match find_opened(&self.opened, id) {
            None => {
                proof {
                    assert(self@ =~= (StoreV { opened: self@.opened, ..prior }));
                }
                return ;
            },
            Some(k) => k,
        };
        proof {
            lemma_first_where(prior.opened, opened_id_is(id as int));
        }
        self.opened.remove(k);
        let ghost removed = prior.opened.remove(k as int);
        proof {
            assert(self@.opened =~= removed);
        }
        let n = self.opened.len();
        let mut l: usize = k;
        while l < n
            invariant
                n == self.opened.len(),
                k <= l <= n,
                n == removed.len(),
                n <= i64::MAX - 1,
                self@.companies == prior.companies,
                self@.orders == prior.orders,
                self@.settings == prior.settings,
                self@.theme == prior.theme,
                self@.next_order_id == prior.next_order_id,
                self@.next_company_id == prior.next_company_id,
                self@.schema == prior.schema,
                forall|a: int|
                    0 <= a < l ==> #[trigger] self@.opened[a] == renumber(removed)[a],
                forall|a: int| l <= a < n ==> #[trigger] self@.opened[a] == removed[a],
            decreases n - l,
        {
            let ghost before = self@.opened;
            let pos: i64 = (l as i64) + 1;
            self.opened[l].position = pos;
            proof {
                assert(self@.opened =~= before.update(
                    l as int,
                    OpenedEntryV { order_id: before[l as int].order_id, position: l + 1 },
                ));
                assert(self@.opened[l as int] == renumber(removed)[l as int]);
            }
            l = l + 1;
        }
        proof {
            assert(self@.opened =~= renumber(removed));
            assert forall|a: int, b: int| 0 <= a < b < self@.opened.len() implies (
            #[trigger] self@.opened[a]).order_id != (#[trigger] self@.opened[b]).order_id by {
                assert(self@.opened[a].order_id == removed[a].order_id);
                assert(self@.opened[b].order_id == removed[b].order_id);
                if b < k {
                    assert(removed[a] == prior.opened[a] && removed[b] == prior.opened[b]);
                } else if a < k {
                    assert(removed[a] == prior.opened[a] && removed[b] == prior.opened[b + 1]);
                } else {
                    assert(removed[a] == prior.opened[a + 1] && removed[b] == prior.opened[b + 1]);
                }
            }
            assert forall|a: int| 0 <= a < self@.opened.len() implies has_order(
                self@,
                (#[trigger] self@.opened[a]).order_id,
            ) by {
                let src: int = if a < k {
                    a
                } else {
                    a + 1
                };
                assert(self@.opened[a].order_id == prior.opened[src].order_id);
                assert(has_order(prior, prior.opened[src].order_id));
                let i = choose|i: int|
                    0 <= i < prior.orders.len() && #[trigger] prior.orders[i].id
                        == prior.opened[src].order_id;
                assert(self@.orders[i].id == self@.opened[a].order_id);
            }
            assert(store_inv(self@));
            assert(self@ =~= (StoreV { opened: self@.opened, ..prior }));
        }
    }
}

/// Whether some entry of the list stands at the given position.
pub open spec fn position_taken(opened: Seq<OpenedEntryV>, p: int) -> bool {
    exists|k: int| 0 <= k < opened.len() && (#[trigger] opened[k]).position == p
}

/// The positions of a well-formed opened list are exactly the dense range
/// from 1 to its length: position `k + 1` stands at index `k`, and every
/// value in that range is taken.
pub proof fn lemma_opened_positions_dense(s: StoreV)
    requires
        store_inv(s),
    ensures
        forall|k: int| 0 <= k < s.opened.len() ==> (#[trigger] s.opened[k]).position == k + 1,
        forall|p: int| 1 <= p <= s.opened.len() ==> #[trigger] position_taken(s.opened, p),
{
    assert forall|p: int| 1 <= p <= s.opened.len() implies #[trigger] position_taken(
        s.opened,
        p,
    ) by {
        assert(s.opened[p - 1].position == p);
    }
}

} // verus!
