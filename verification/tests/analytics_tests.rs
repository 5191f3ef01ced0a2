use order_ledger::dates::{format_timestamp, parse_date, parse_timestamp, weekday_exec, Date,
    Timestamp};
use order_ledger::model::NewOrderInput;
use order_ledger::store::Store;

fn at(year: u32, month: u32, day: u32, ms: u64) -> Timestamp {
    Timestamp { date: Date { year, month, day }, ms }
}

fn order(company: &str, article: &str, phone: &str, city: &str, date: &str) -> NewOrderInput {
    NewOrderInput {
        client_name: "client".to_string(),
        article_name: article.to_string(),
        phone: phone.to_string(),
        city: city.to_string(),
        address: "addr".to_string(),
        delivery_company: company.to_string(),
        delivery_date: date.to_string(),
        description: None,
    }
}

#[test]
fn calendar_parsing_and_formatting() {
    assert_eq!(parse_date("2024-02-29"), Some(Date { year: 2024, month: 2, day: 29 }));
    assert_eq!(parse_date("2023-02-29"), None);
    assert_eq!(parse_date("2024-13-01"), None);
    assert_eq!(parse_date("2024-3-5"), None);
    assert_eq!(parse_date("not-a-date"), None);
    let t = parse_timestamp("2024-03-05T17:30:02.250Z").unwrap();
    assert_eq!(t.date, Date { year: 2024, month: 3, day: 5 });
    assert_eq!(t.ms, ((17 * 60 + 30) * 60 + 2) * 1000 + 250);
    assert_eq!(format_timestamp(&t), "2024-03-05T17:30:02.250Z");
    assert_eq!(parse_timestamp("2024-03-05T24:00:00.000Z"), None);
    // 2024-03-05 was a Tuesday
    assert_eq!(weekday_exec(&Date { year: 2024, month: 3, day: 5 }), 2);
}

#[test]
fn kpi_counts_split_by_due_dates() {
    let mut s = Store::new();
    let now = at(2024, 3, 10, 43200000);
    let today = Date { year: 2024, month: 3, day: 10 };
    // overdue open order
    s.save_order(order("c", "a1", "p1", "x", "2024-03-08"), at(2024, 3, 1, 0)).unwrap();
    // due today
    s.save_order(order("c", "a2", "p2", "x", "2024-03-10"), at(2024, 3, 2, 0)).unwrap();
    // due in the next week
    s.save_order(order("c", "a3", "p3", "x", "2024-03-15"), at(2024, 3, 3, 0)).unwrap();
    // far future
    s.save_order(order("c", "a4", "p4", "x", "2024-05-01"), at(2024, 3, 4, 0)).unwrap();
    // done recently
    let done_id = s
        .save_order(order("c", "a5", "p5", "x", "2024-03-09"), at(2024, 3, 9, 0))
        .unwrap();
    s.set_order_done(done_id, true).unwrap();
    let d = s.get_dashboard_data(today, now);
    assert_eq!(d.kpis.total_orders, 5);
    assert_eq!(d.kpis.open_orders, 4);
    assert_eq!(d.kpis.overdue_open, 1);
    assert_eq!(d.kpis.due_today, 1);
    assert_eq!(d.kpis.due_next_7, 1);
    assert_eq!(d.kpis.done_7d, 1);
    assert_eq!(d.kpis.done_30d, 1);
    assert_eq!(d.kpis.unique_clients, 5);
    assert_eq!(d.exceptions.overdue_top10.len(), 1);
    assert_eq!(d.exceptions.overdue_top10[0].article_name, "a1");
    assert_eq!(d.exceptions.overdue_top10[0].age_days, 9);
}

#[test]
fn median_lead_time_takes_the_middle_offset() {
    let mut s = Store::new();
    let now = at(2024, 3, 1, 0);
    let today = Date { year: 2024, month: 3, day: 1 };
    for (k, lead) in [1u32, 3, 5].iter().enumerate() {
        s.save_order(
            order("c", "a", &format!("p{}", k), "x", &format!("2024-03-{:02}", 1 + lead)),
            now,
        )
        .unwrap();
    }
    let d = s.get_dashboard_data(today, now);
    assert_eq!(d.kpis.median_lead_days, Some(3));
    // average of 1, 3 and 5 days, in hundredths
    assert_eq!(d.kpis.avg_lead_days_hundredths, Some(300));
    // with an even count the value at offset count / 2 is taken
    s.save_order(order("c", "a", "p9", "x", "2024-03-08"), now).unwrap();
    let d = s.get_dashboard_data(today, now);
    assert_eq!(d.kpis.median_lead_days, Some(5));
    assert_eq!(d.kpis.avg_lead_days_hundredths, Some(400));
    let bins: Vec<(i64, i64)> = d
        .lead_time_histogram
        .iter()
        .map(|b| (b.lead_days, b.count))
        .collect();
    assert_eq!(bins, vec![(1, 1), (3, 1), (5, 1), (7, 1)]);
}

#[test]
fn returning_share_is_rounded_to_tenths() {
    let mut s = Store::new();
    let now = at(2024, 3, 1, 0);
    let today = Date { year: 2024, month: 3, day: 1 };
    for k in 0..10 {
        s.save_order(order("c", "a", &format!("p{}", k), "x", "2024-03-05"), now)
            .unwrap();
    }
    for k in 0..3 {
        s.save_order(order("c", "a", &format!("p{}", k), "x", "2024-03-05"), now)
            .unwrap();
    }
    let d = s.get_dashboard_data(today, now);
    assert_eq!(d.kpis.unique_clients, 10);
    assert_eq!(d.kpis.returning_clients_pct_tenths, 300);
}

#[test]
fn backlog_aging_puts_a_fifteen_day_order_in_its_band() {
    let mut s = Store::new();
    let now = at(2024, 3, 16, 0);
    let today = Date { year: 2024, month: 3, day: 16 };
    s.save_order(order("c", "a", "p", "x", "2024-03-20"), at(2024, 3, 1, 0)).unwrap();
    let d = s.get_dashboard_data(today, now);
    let buckets: Vec<(String, i64)> = d
        .backlog_age_buckets
        .iter()
        .map(|b| (b.bucket.clone(), b.count))
        .collect();
    assert_eq!(buckets, vec![("14-29".to_string(), 1)]);
}

#[test]
fn backlog_bands_come_in_fixed_order() {
    let mut s = Store::new();
    let now = at(2024, 3, 31, 0);
    let today = Date { year: 2024, month: 3, day: 31 };
    // ages 0, 5 and 40 days
    s.save_order(order("c", "a1", "p1", "x", "2024-04-02"), at(2024, 3, 31, 0)).unwrap();
    s.save_order(order("c", "a2", "p2", "x", "2024-04-02"), at(2024, 3, 26, 0)).unwrap();
    s.save_order(order("c", "a3", "p3", "x", "2024-04-02"), at(2024, 2, 20, 0)).unwrap();
    let d = s.get_dashboard_data(today, now);
    let buckets: Vec<(String, i64)> = d
        .backlog_age_buckets
        .iter()
        .map(|b| (b.bucket.clone(), b.count))
        .collect();
    assert_eq!(
        buckets,
        vec![("0-2".to_string(), 1), ("3-6".to_string(), 1), ("30+".to_string(), 1)]
    );
}

#[test]
fn company_share_splits_fifty_thirty_twenty() {
    let mut s = Store::new();
    let now = at(2024, 3, 1, 0);
    let today = Date { year: 2024, month: 3, day: 1 };
    for k in 0..5 {
        s.save_order(order("Alpha", "a", &format!("a{}", k), "x", "2024-03-05"), now)
            .unwrap();
    }
    for k in 0..3 {
        s.save_order(order("Beta", "a", &format!("b{}", k), "x", "2024-03-05"), now)
            .unwrap();
    }
    for k in 0..2 {
        s.save_order(order("Gamma", "a", &format!("g{}", k), "x", "2024-03-05"), now)
            .unwrap();
    }
    let d = s.get_dashboard_data(today, now);
    let shares: Vec<(String, i64)> = d
        .company_share_90d
        .iter()
        .map(|c| (c.name.clone(), c.count))
        .collect();
    assert_eq!(
        shares,
        vec![("Alpha".to_string(), 5), ("Beta".to_string(), 3), ("Gamma".to_string(), 2)]
    );
    let top = d.kpis.top_delivery_company.unwrap();
    assert_eq!(top.name, "Alpha");
    assert_eq!(top.count, 5);
    assert_eq!(top.share_pct_tenths, 500);
}

#[test]
fn blank_companies_fall_in_one_unknown_bucket() {
    let mut s = Store::new();
    let now = at(2024, 3, 1, 0);
    let today = Date { year: 2024, month: 3, day: 1 };
    s.save_order(order("Alpha", "a", "p1", "x", "2024-03-05"), now).unwrap();
    // a blank company cannot be saved through the store; place two rows
    // with blank variants directly, as an older file would hold them
    for (k, blank) in ["  ", "\t"].iter().enumerate() {
        s.orders.push(order_ledger::model::OrderRow {
            id: 100 + k as i64,
            client_name: "c".to_string(),
            article_name: "a".to_string(),
            phone: format!("q{}", k),
            city: "x".to_string(),
            address: "y".to_string(),
            delivery_company: blank.to_string(),
            delivery_company_id: None,
            delivery_date: "2024-03-05".to_string(),
            description: None,
            done: false,
            created_at: at(2024, 2, 28, 0),
        });
        s.next_order_id = 101 + k as i64;
    }
    let d = s.get_dashboard_data(today, now);
    let shares: Vec<(String, i64)> = d
        .company_share_90d
        .iter()
        .map(|c| (c.name.clone(), c.count))
        .collect();
    assert_eq!(
        shares,
        vec![("(Unknown)".to_string(), 2), ("Alpha".to_string(), 1)]
    );
}

#[test]
fn weekly_series_and_heatmap_count_creations() {
    let mut s = Store::new();
    let now = at(2024, 3, 12, 0);
    let today = Date { year: 2024, month: 3, day: 12 };
    // Tuesday March 5th and Wednesday March 6th fall in week 10 of 2024;
    // Tuesday March 12th falls in week 11
    s.save_order(order("c", "a1", "p1", "x", "2024-03-20"), at(2024, 3, 5, 3600000)).unwrap();
    s.save_order(order("c", "a2", "p2", "x", "2024-03-20"), at(2024, 3, 6, 0)).unwrap();
    let done_id = s
        .save_order(order("c", "a3", "p3", "x", "2024-03-20"), at(2024, 3, 12, 0))
        .unwrap();
    s.set_order_done(done_id, true).unwrap();
    let d = s.get_dashboard_data(today, now);
    let weekly: Vec<(String, i64)> = d
        .orders_over_time_weekly
        .iter()
        .map(|w| (w.period.clone(), w.count))
        .collect();
    assert_eq!(weekly, vec![("2024-10".to_string(), 2), ("2024-11".to_string(), 1)]);
    let by_done: Vec<(String, bool, i64)> = d
        .orders_over_time_weekly_by_done
        .iter()
        .map(|w| (w.period.clone(), w.done, w.count))
        .collect();
    assert_eq!(
        by_done,
        vec![
            ("2024-10".to_string(), false, 2),
            ("2024-11".to_string(), true, 1)
        ]
    );
    // weekday 2 (Tuesday) hour 1, weekday 3 hour 0, weekday 2 hour 0
    let cells: Vec<(i64, i64, i64)> = d
        .activity_heatmap
        .iter()
        .map(|h| (h.weekday, h.hour, h.count))
        .collect();
    assert_eq!(cells, vec![(2, 0, 1), (2, 1, 1), (3, 0, 1)]);
}

#[test]
fn schedule_groups_open_orders_by_week_and_company() {
    let mut s = Store::new();
    let now = at(2024, 3, 4, 0);
    let today = Date { year: 2024, month: 3, day: 4 };
    s.save_order(order("Beta", "a1", "p1", "x", "2024-03-05"), now).unwrap();
    s.save_order(order("Alpha", "a2", "p2", "x", "2024-03-06"), now).unwrap();
    s.save_order(order("Alpha", "a3", "p3", "x", "2024-03-12"), now).unwrap();
    // outside the twelve-week horizon
    s.save_order(order("Alpha", "a4", "p4", "x", "2024-09-01"), now).unwrap();
    let done_id = s
        .save_order(order("Alpha", "a5", "p5", "x", "2024-03-06"), now)
        .unwrap();
    s.set_order_done(done_id, true).unwrap();
    let d = s.get_dashboard_data(today, now);
    let sched: Vec<(String, String, i64)> = d
        .delivery_schedule_weeks
        .iter()
        .map(|e| (e.week.clone(), e.company.clone(), e.count))
        .collect();
    assert_eq!(
        sched,
        vec![
            ("2024-10".to_string(), "Alpha".to_string(), 1),
            ("2024-10".to_string(), "Beta".to_string(), 1),
            ("2024-11".to_string(), "Alpha".to_string(), 1)
        ]
    );
}

#[test]
fn monthly_cohort_counts_new_phones_once() {
    let mut s = Store::new();
    let now = at(2024, 4, 30, 0);
    let today = Date { year: 2024, month: 4, day: 30 };
    // phone p1 first orders in March, twice that month, then again in April
    s.save_order(order("c", "a", "p1", "x", "2024-05-05"), at(2024, 3, 1, 0)).unwrap();
    s.save_order(order("c", "a", "p1", "x", "2024-05-05"), at(2024, 3, 20, 0)).unwrap();
    s.save_order(order("c", "a", "p1", "x", "2024-05-05"), at(2024, 4, 2, 0)).unwrap();
    // phone p2 first orders in April
    s.save_order(order("c", "a", "p2", "x", "2024-05-05"), at(2024, 4, 3, 0)).unwrap();
    let d = s.get_dashboard_data(today, now);
    assert_eq!(
        d.new_vs_returning_monthly,
        vec![("2024-03".to_string(), 1, 0), ("2024-04".to_string(), 1, 1)]
    );
}

#[test]
fn top_articles_cap_at_ten() {
    let mut s = Store::new();
    let now = at(2024, 3, 1, 0);
    let today = Date { year: 2024, month: 3, day: 1 };
    for k in 0..12 {
        s.save_order(order("c", &format!("art{:02}", k), "p", "x", "2024-03-05"), now)
            .unwrap();
    }
    s.save_order(order("c", "art05", "p", "x", "2024-03-05"), now).unwrap();
    let d = s.get_dashboard_data(today, now);
    assert_eq!(d.top_articles.len(), 10);
    assert_eq!(d.top_articles[0].name, "art05");
    assert_eq!(d.top_articles[0].count, 2);
    let top = d.kpis.top_article.unwrap();
    assert_eq!(top.name, "art05");
    let city = d.kpis.top_city.unwrap();
    assert_eq!(city.name, "x");
}
