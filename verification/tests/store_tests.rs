use order_ledger::dates::{Date, Timestamp};
use order_ledger::model::{NewOrderInput, UpdateOrderInput, OrderRow};
use order_ledger::store::Store;
use order_ledger::text::escape_like;
use order_ledger::StoreError;

fn ts(year: u32, month: u32, day: u32, ms: u64) -> Timestamp {
    Timestamp { date: Date { year, month, day }, ms }
}

fn input(company: &str, article: &str, phone: &str, date: &str) -> NewOrderInput {
    NewOrderInput {
        client_name: "client".to_string(),
        article_name: article.to_string(),
        phone: phone.to_string(),
        city: "city".to_string(),
        address: "addr".to_string(),
        delivery_company: company.to_string(),
        delivery_date: date.to_string(),
        description: None,
    }
}

fn upd(company: &str, article: &str) -> UpdateOrderInput {
    UpdateOrderInput {
        client_name: "client2".to_string(),
        article_name: article.to_string(),
        phone: "p".to_string(),
        city: "city2".to_string(),
        address: "addr2".to_string(),
        delivery_company: company.to_string(),
        delivery_date: "2024-04-01".to_string(),
        description: Some("d2".to_string()),
    }
}

#[test]
fn get_or_create_is_case_insensitive() {
    let mut s = Store::new();
    let (id1, n1) = s.get_or_create_delivery_company(" Acme ").unwrap();
    let (id2, n2) = s.get_or_create_delivery_company("ACME").unwrap();
    let (id3, n3) = s.get_or_create_delivery_company("acme").unwrap();
    assert_eq!(id1, id2);
    assert_eq!(id1, id3);
    assert_eq!(n1, "Acme");
    assert_eq!(n2, "Acme");
    assert_eq!(n3, "Acme");
    assert_eq!(s.list_delivery_companies().len(), 1);
}

#[test]
fn blank_company_name_is_rejected() {
    let mut s = Store::new();
    assert_eq!(
        s.get_or_create_delivery_company("   "),
        Err(StoreError::InvalidCompanyName)
    );
    assert_eq!(s.list_delivery_companies().len(), 0);
    let r = s.save_order(input("  \t ", "a", "p", "2024-03-05"), ts(2024, 3, 1, 0));
    assert_eq!(r, Err(StoreError::InvalidCompanyName));
    assert_eq!(s.list_orders().len(), 0);
}

#[test]
fn save_order_resolves_company_end_to_end() {
    let mut s = Store::new();
    let id1 = s
        .save_order(input(" acme ", "art", "p1", "2024-03-05"), ts(2024, 3, 1, 0))
        .unwrap();
    let o1 = s.get_order(id1).unwrap();
    assert_eq!(o1.delivery_company, "acme");
    let id2 = s
        .save_order(input("ACME", "art2", "p2", "2024-03-06"), ts(2024, 3, 2, 0))
        .unwrap();
    let o2 = s.get_order(id2).unwrap();
    assert_eq!(o2.delivery_company, "acme");
    let companies = s.list_delivery_companies();
    assert_eq!(companies.len(), 1);
    assert_eq!(companies[0].name, "acme");
}

#[test]
fn rename_company_propagates_to_orders() {
    let mut s = Store::new();
    let id1 = s
        .save_order(input("acme", "a1", "p1", "2024-03-05"), ts(2024, 3, 1, 0))
        .unwrap();
    let id2 = s
        .save_order(input("other", "a2", "p2", "2024-03-06"), ts(2024, 3, 1, 1))
        .unwrap();
    let cid = s.list_delivery_companies()[1].id;
    let acme_id = s
        .list_delivery_companies()
        .iter()
        .find(|c| c.name == "acme")
        .unwrap()
        .id;
    assert_ne!(cid, 0);
    s.rename_delivery_company(acme_id, "Acme").unwrap();
    assert_eq!(s.get_order(id1).unwrap().delivery_company, "Acme");
    assert_eq!(s.get_order(id2).unwrap().delivery_company, "other");
}

#[test]
fn rename_to_taken_name_is_a_constraint_violation() {
    let mut s = Store::new();
    let a = s.add_delivery_company("alpha").unwrap();
    let _b = s.add_delivery_company("beta").unwrap();
    assert_eq!(
        s.rename_delivery_company(a, "BETA"),
        Err(StoreError::ConstraintViolation)
    );
    // renaming to a differently cased form of its own name is allowed
    assert_eq!(s.rename_delivery_company(a, "ALPHA"), Ok(()));
    let names: Vec<String> = s.list_delivery_companies().iter().map(|c| c.name.clone()).collect();
    assert!(names.contains(&"ALPHA".to_string()));
}

#[test]
fn company_listing_sorts_active_first_then_name() {
    let mut s = Store::new();
    let b = s.add_delivery_company("beta").unwrap();
    let _a = s.add_delivery_company("alpha").unwrap();
    let _c = s.add_delivery_company("gamma").unwrap();
    s.set_delivery_company_active(b, false);
    let names: Vec<(String, bool)> = s
        .list_delivery_companies()
        .iter()
        .map(|c| (c.name.clone(), c.active))
        .collect();
    assert_eq!(
        names,
        vec![
            ("alpha".to_string(), true),
            ("gamma".to_string(), true),
            ("beta".to_string(), false)
        ]
    );
}

#[test]
fn update_keeps_id_done_and_created_at() {
    let mut s = Store::new();
    let id = s
        .save_order(input("acme", "a1", "p1", "2024-03-05"), ts(2024, 3, 1, 0))
        .unwrap();
    s.set_order_done(id, true).unwrap();
    s.update_order(id, upd("newco", "a9")).unwrap();
    let o = s.get_order(id).unwrap();
    assert_eq!(o.article_name, "a9");
    assert_eq!(o.delivery_company, "newco");
    assert!(o.done);
    assert_eq!(s.update_order(999, upd("x", "y")), Err(StoreError::NotFound));
}

#[test]
fn list_orders_newest_first_ties_by_id() {
    let mut s = Store::new();
    let id1 = s
        .save_order(input("c", "a1", "p", "2024-03-05"), ts(2024, 3, 1, 500))
        .unwrap();
    let id2 = s
        .save_order(input("c", "a2", "p", "2024-03-05"), ts(2024, 3, 2, 0))
        .unwrap();
    let id3 = s
        .save_order(input("c", "a3", "p", "2024-03-05"), ts(2024, 3, 1, 500))
        .unwrap();
    let ids: Vec<i64> = s.list_orders().iter().map(|o| o.id).collect();
    assert_eq!(ids, vec![id2, id3, id1]);
}

#[test]
fn opened_orders_stay_dense_through_open_and_close() {
    let mut s = Store::new();
    let mut ids = Vec::new();
    for k in 0..4 {
        ids.push(
            s.save_order(
                input("c", &format!("a{}", k), "p", "2024-03-05"),
                ts(2024, 3, 1, k as u64),
            )
            .unwrap(),
        );
    }
    s.open_order(ids[0]).unwrap();
    s.open_order(ids[1]).unwrap();
    s.open_order(ids[2]).unwrap();
    // opening an already open order keeps its position
    s.open_order(ids[0]).unwrap();
    let posns: Vec<(i64, i64)> = s
        .get_opened_orders()
        .iter()
        .map(|e| (e.order_id, e.position))
        .collect();
    assert_eq!(posns, vec![(ids[0], 1), (ids[1], 2), (ids[2], 3)]);
    s.remove_opened_order(ids[1]);
    let posns: Vec<(i64, i64)> = s
        .get_opened_orders()
        .iter()
        .map(|e| (e.order_id, e.position))
        .collect();
    assert_eq!(posns, vec![(ids[0], 1), (ids[2], 2)]);
    s.open_order(ids[3]).unwrap();
    let posns: Vec<i64> = s.get_opened_orders().iter().map(|e| e.position).collect();
    assert_eq!(posns, vec![1, 2, 3]);
    assert_eq!(s.open_order(999), Err(StoreError::NotFound));
}

#[test]
fn delete_order_cascades_into_opened_list() {
    let mut s = Store::new();
    let id1 = s
        .save_order(input("c", "a1", "p", "2024-03-05"), ts(2024, 3, 1, 0))
        .unwrap();
    let id2 = s
        .save_order(input("c", "a2", "p", "2024-03-05"), ts(2024, 3, 1, 1))
        .unwrap();
    s.open_order(id1).unwrap();
    s.open_order(id2).unwrap();
    s.delete_order(id1).unwrap();
    assert!(matches!(s.get_order(id1), Err(StoreError::NotFound)));
    let posns: Vec<(i64, i64)> = s
        .get_opened_orders()
        .iter()
        .map(|e| (e.order_id, e.position))
        .collect();
    assert_eq!(posns, vec![(id2, 1)]);
    assert_eq!(s.delete_order(id1), Err(StoreError::NotFound));
}

#[test]
fn search_ranks_by_frequency_then_recency() {
    let mut s = Store::new();
    for k in 0..3 {
        s.save_order(input("c", "Widget", "p", "2024-03-05"), ts(2024, 3, 1, k))
            .unwrap();
    }
    s.save_order(input("c", "Gadget", "p", "2024-03-05"), ts(2024, 3, 9, 0))
        .unwrap();
    s.save_order(input("c", "Gizmo", "p", "2024-03-05"), ts(2024, 3, 8, 0))
        .unwrap();
    // every name contains a "g"; the most frequent comes first, then the
    // most recently used
    let r = s.search_article_names("g", None);
    assert_eq!(r, vec!["Widget".to_string(), "Gadget".to_string(), "Gizmo".to_string()]);
    let r = s.search_article_names("WID", None);
    assert_eq!(r, vec!["Widget".to_string()]);
    let r = s.search_article_names("giz", Some(1));
    assert_eq!(r, vec!["Gizmo".to_string()]);
    let r = s.search_article_names("g", Some(0));
    assert_eq!(r, vec!["Widget".to_string()]);
}

#[test]
fn latest_description_skips_blank_ones() {
    let mut s = Store::new();
    let mut first = input("c", "art", "p", "2024-03-05");
    first.description = Some("oldest".to_string());
    s.save_order(first, ts(2024, 3, 1, 0)).unwrap();
    let mut second = input("c", "art", "p", "2024-03-05");
    second.description = Some("   ".to_string());
    s.save_order(second, ts(2024, 3, 2, 0)).unwrap();
    let mut third = input("c", "art", "p", "2024-03-05");
    third.description = Some("newest".to_string());
    s.save_order(third, ts(2024, 3, 1, 500)).unwrap();
    assert_eq!(
        s.get_latest_description_for_article("art"),
        Some("newest".to_string())
    );
    assert_eq!(s.get_latest_description_for_article("nope"), None);
}

#[test]
fn settings_upsert_replaces_values() {
    let mut s = Store::new();
    assert_eq!(s.get_setting("k"), None);
    s.set_setting("k", "v1", ts(2024, 3, 1, 0));
    assert_eq!(s.get_setting("k"), Some("v1".to_string()));
    s.set_setting("k", "v2", ts(2024, 3, 2, 0));
    assert_eq!(s.get_setting("k"), Some("v2".to_string()));
    s.set_setting("other", "x", ts(2024, 3, 2, 0));
    assert_eq!(s.get_setting("k"), Some("v2".to_string()));
    assert_eq!(s.get_setting("other"), Some("x".to_string()));
}

#[test]
fn ensure_schema_is_idempotent_and_backfills() {
    // a ledger with free-text companies and unresolved references, as an
    // older file would hold it
    let mut s = Store::new();
    s.orders.push(OrderRow {
        id: 1,
        client_name: "c1".to_string(),
        article_name: "a1".to_string(),
        phone: "p1".to_string(),
        city: "x".to_string(),
        address: "y".to_string(),
        delivery_company: " Acme ".to_string(),
        delivery_company_id: None,
        delivery_date: "2024-03-05".to_string(),
        description: None,
        done: false,
        created_at: ts(2024, 3, 1, 0),
    });
    s.orders.push(OrderRow {
        id: 2,
        client_name: "c2".to_string(),
        article_name: "a2".to_string(),
        phone: "p2".to_string(),
        city: "x".to_string(),
        address: "y".to_string(),
        delivery_company: "ACME".to_string(),
        delivery_company_id: Some(0),
        delivery_date: "2024-03-06".to_string(),
        description: None,
        done: false,
        created_at: ts(2024, 3, 1, 1),
    });
    s.next_order_id = 3;
    s.ensure_schema();
    let companies = s.list_delivery_companies();
    assert_eq!(companies.len(), 1);
    assert_eq!(companies[0].name, "Acme");
    // the first row's raw text " Acme " has no case-insensitive match, so
    // it stays unresolved; the second row resolves
    assert_eq!(s.orders[0].delivery_company_id, None);
    assert_eq!(s.orders[1].delivery_company_id, Some(companies[0].id));
    let snapshot_companies: Vec<(i64, String, bool)> = s
        .list_delivery_companies()
        .iter()
        .map(|c| (c.id, c.name.clone(), c.active))
        .collect();
    let snapshot_ids: Vec<Option<i64>> =
        s.orders.iter().map(|o| o.delivery_company_id).collect();
    s.ensure_schema();
    let again: Vec<(i64, String, bool)> = s
        .list_delivery_companies()
        .iter()
        .map(|c| (c.id, c.name.clone(), c.active))
        .collect();
    let again_ids: Vec<Option<i64>> = s.orders.iter().map(|o| o.delivery_company_id).collect();
    assert_eq!(snapshot_companies, again);
    assert_eq!(snapshot_ids, again_ids);
}

#[test]
fn escape_like_escapes_wildcards() {
    assert_eq!(escape_like("a%b_c\\d"), "a\\%b\\_c\\\\d");
    assert_eq!(escape_like("plain"), "plain");
    assert_eq!(escape_like(""), "");
}
