//! The data model: stored rows of the ledger and the plain input and
//! output records of the store's operations, each with a mathematical view.

use vstd::prelude::*;
use crate::dates::Timestamp;

verus! {

/// One stored order: the ledger's unit of record.
pub struct OrderRow {
    pub id: i64,
    pub client_name: String,
    pub article_name: String,
    pub phone: String,
    pub city: String,
    pub address: String,
    /// Denormalized display text of the delivery company.
    pub delivery_company: String,
    /// Reference into the company directory, when resolved.
    pub delivery_company_id: Option<i64>,
    /// Scheduled delivery date as stored text, `YYYY-MM-DD` when well formed.
    pub delivery_date: String,
    pub description: Option<String>,
    pub done: bool,
    pub created_at: Timestamp,
}

/// The mathematical value of a stored order.
pub struct OrderRowV {
    pub id: int,
    pub client_name: Seq<char>,
    pub article_name: Seq<char>,
    pub phone: Seq<char>,
    pub city: Seq<char>,
    pub address: Seq<char>,
    pub delivery_company: Seq<char>,
    pub delivery_company_id: Option<int>,
    pub delivery_date: Seq<char>,
    pub description: Option<Seq<char>>,
    pub done: bool,
    pub created_at: Timestamp,
}

impl View for OrderRow {
    type V = OrderRowV;

    open spec fn view(&self) -> OrderRowV {
        OrderRowV {
            id: self.id as int,
            client_name: self.client_name@,
            article_name: self.article_name@,
            phone: self.phone@,
            city: self.city@,
            address: self.address@,
            delivery_company: self.delivery_company@,
            delivery_company_id: match self.delivery_company_id {
                Some(i) => Some(i as int),
                None => None,
            },
            delivery_date: self.delivery_date@,
            description: match self.description {
                Some(ref d) => Some(d@),
                None => None,
            },
            done: self.done,
            created_at: self.created_at,
        }
    }
}

/// One row of the company directory.
pub struct CompanyRow {
    pub id: i64,
    /// The canonical name: the first-seen casing, trimmed, never blank.
    pub name: String,
    pub active: bool,
}

/// The mathematical value of a directory row.
pub struct CompanyRowV {
    pub id: int,
    pub name: Seq<char>,
    pub active: bool,
}

impl View for CompanyRow {
    type V = CompanyRowV;

    open spec fn view(&self) -> CompanyRowV {
        CompanyRowV { id: self.id as int, name: self.name@, active: self.active }
    }
}

/// One entry of the opened-orders list: an order currently open in the
/// working set, at a 1-based position.
pub struct OpenedEntry {
    pub order_id: i64,
    pub position: i64,
}

/// The mathematical value of an opened-orders entry.
pub struct OpenedEntryV {
    pub order_id: int,
    pub position: int,
}

impl View for OpenedEntry {
    type V = OpenedEntryV;

    open spec fn view(&self) -> OpenedEntryV {
        OpenedEntryV { order_id: self.order_id as int, position: self.position as int }
    }
}

/// One row of a key/value table, with the time of its last write.
pub struct KvRow {
    pub key: String,
    pub value: String,
    pub updated_at: Timestamp,
}

/// The mathematical value of a key/value row.
pub struct KvRowV {
    pub key: Seq<char>,
    pub value: Seq<char>,
    pub updated_at: Timestamp,
}

impl View for KvRow {
    type V = KvRowV;

    open spec fn view(&self) -> KvRowV {
        KvRowV { key: self.key@, value: self.value@, updated_at: self.updated_at }
    }
}

/// The business fields of an order as handed in on creation.
pub struct NewOrderInput {
    pub client_name: String,
    pub article_name: String,
    pub phone: String,
    pub city: String,
    pub address: String,
    /// Free-text company name, resolved against the directory on write.
    pub delivery_company: String,
    /// Scheduled delivery date text, `YYYY-MM-DD`.
    pub delivery_date: String,
    pub description: Option<String>,
}

/// The mathematical value of an order input.
pub struct OrderInputV {
    pub client_name: Seq<char>,
    pub article_name: Seq<char>,
    pub phone: Seq<char>,
    pub city: Seq<char>,
    pub address: Seq<char>,
    pub delivery_company: Seq<char>,
    pub delivery_date: Seq<char>,
    pub description: Option<Seq<char>>,
}

impl View for NewOrderInput {
    type V = OrderInputV;

    open spec fn view(&self) -> OrderInputV {
        OrderInputV {
            client_name: self.client_name@,
            article_name: self.article_name@,
            phone: self.phone@,
            city: self.city@,
            address: self.address@,
            delivery_company: self.delivery_company@,
            delivery_date: self.delivery_date@,
            description: match self.description {
                Some(ref d) => Some(d@),
                None => None,
            },
        }
    }
}

/// The business fields of an order as handed in on a full-replace update.
pub struct UpdateOrderInput {
    pub client_name: String,
    pub article_name: String,
    pub phone: String,
    pub city: String,
    pub address: String,
    pub delivery_company: String,
    pub delivery_date: String,
    pub description: Option<String>,
}

impl View for UpdateOrderInput {
    type V = OrderInputV;

    open spec fn view(&self) -> OrderInputV {
        OrderInputV {
            client_name: self.client_name@,
            article_name: self.article_name@,
            phone: self.phone@,
            city: self.city@,
            address: self.address@,
            delivery_company: self.delivery_company@,
            delivery_date: self.delivery_date@,
            description: match self.description {
                Some(ref d) => Some(d@),
                None => None,
            },
        }
    }
}

/// One line of the order list: id, article and completion flag.
pub struct OrderListItem {
    pub id: i64,
    pub article_name: String,
    pub done: bool,
}

/// The mathematical value of an order-list line.
pub struct OrderListItemV {
    pub id: int,
    pub article_name: Seq<char>,
    pub done: bool,
}

impl View for OrderListItem {
    type V = OrderListItemV;

    open spec fn view(&self) -> OrderListItemV {
        OrderListItemV { id: self.id as int, article_name: self.article_name@, done: self.done }
    }
}

/// A full order as read back, business fields plus id and completion flag.
pub struct OrderWithId {
    pub id: i64,
    pub client_name: String,
    pub article_name: String,
    pub phone: String,
    pub city: String,
    pub address: String,
    pub delivery_company: String,
    pub delivery_date: String,
    pub description: Option<String>,
    pub done: bool,
}

/// The mathematical value of a read-back order.
pub struct OrderWithIdV {
    pub id: int,
    pub client_name: Seq<char>,
    pub article_name: Seq<char>,
    pub phone: Seq<char>,
    pub city: Seq<char>,
    pub address: Seq<char>,
    pub delivery_company: Seq<char>,
    pub delivery_date: Seq<char>,
    pub description: Option<Seq<char>>,
    pub done: bool,
}

impl View for OrderWithId {
    type V = OrderWithIdV;

    open spec fn view(&self) -> OrderWithIdV {
        OrderWithIdV {
            id: self.id as int,
            client_name: self.client_name@,
            article_name: self.article_name@,
            phone: self.phone@,
            city: self.city@,
            address: self.address@,
            delivery_company: self.delivery_company@,
            delivery_date: self.delivery_date@,
            description: match self.description {
                Some(ref d) => Some(d@),
                None => None,
            },
            done: self.done,
        }
    }
}

/// One line of the opened-orders listing, joined with its article name.
pub struct OpenedOrderItem {
    pub order_id: i64,
    pub article_name: String,
    pub position: i64,
}

/// The mathematical value of an opened-orders line.
pub struct OpenedOrderItemV {
    pub order_id: int,
    pub article_name: Seq<char>,
    pub position: int,
}

impl View for OpenedOrderItem {
    type V = OpenedOrderItemV;

    open spec fn view(&self) -> OpenedOrderItemV {
        OpenedOrderItemV {
            order_id: self.order_id as int,
            article_name: self.article_name@,
            position: self.position as int,
        }
    }
}

/// One company of the directory as listed.
pub struct DeliveryCompany {
    pub id: i64,
    pub name: String,
    pub active: bool,
}

/// The mathematical value of a listed company.
pub struct DeliveryCompanyV {
    pub id: int,
    pub name: Seq<char>,
    pub active: bool,
}

impl View for DeliveryCompany {
    type V = DeliveryCompanyV;

    open spec fn view(&self) -> DeliveryCompanyV {
        DeliveryCompanyV { id: self.id as int, name: self.name@, active: self.active }
    }
}

} // verus!
