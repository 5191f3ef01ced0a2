//! The analytics engine: every dashboard aggregate computed as a pure read
//! over the order ledger, with exact integer semantics. Time windows over
//! delivery dates use calendar-day comparisons against the local date;
//! windows over creation instants use millisecond comparisons against the
//! UTC instant; the two clocks are never conflated. Percentages and
//! averages are carried as scaled integers: tenths of a percent and
//! hundredths of a day, rounded half away from zero.

use vstd::prelude::*;
use vstd::seq_lib::lemma_sorted_unique;
use crate::dates::{Date, Timestamp, valid_date, valid_timestamp, day_number, total_ms,
    parse_date_spec, parse_date, total_ms_exec, day_number_exec, lemma_total_ms_bound,
    lemma_day_number_bound, MS_PER_DAY};
use crate::model::OrderRowV;
use crate::rank::{sort_asc_indices, sort_desc_indices, group_count_strings, group_count_u64, strs_view, str_is, str_in};
use crate::seqs::{count_where, count_range, lemma_count_take_step, lemma_count_bounds,
    lemma_count_range_bounds};
use crate::store::{Store, store_inv, orders_ok, StoreV};

verus! {

/// The headline numbers of the dashboard. Ratios are scaled integers: the
/// returning-client share in tenths of a percent, the average lead time in
/// hundredths of a day, the median lead time in whole days.
pub struct Kpis {
    pub total_orders: i64,
    pub open_orders: i64,
    pub overdue_open: i64,
    pub due_today: i64,
    pub due_next_7: i64,
    pub done_7d: i64,
    pub done_30d: i64,
    pub unique_clients: i64,
    pub returning_clients_pct_tenths: i64,
    pub avg_lead_days_hundredths: Option<i64>,
    pub median_lead_days: Option<i64>,
    pub top_delivery_company: Option<TopItemShare>,
    pub top_article: Option<NameCount>,
    pub top_city: Option<NameCount>,
}

/// A ranked name with its count and its share of the window, in tenths of
/// a percent.
pub struct TopItemShare {
    pub name: String,
    pub count: i64,
    pub share_pct_tenths: i64,
}

/// A name with how often it occurs.
pub struct NameCount {
    pub name: String,
    pub count: i64,
}

/// A time period label with a count.
pub struct TimeCount {
    pub period: String,
    pub count: i64,
}

/// A time period label with a count, split by the completion flag.
pub struct TimeDoneCount {
    pub period: String,
    pub done: bool,
    pub count: i64,
}

/// Open orders scheduled in one week for one company.
pub struct ScheduleItem {
    pub week: String,
    pub company: String,
    pub count: i64,
}

/// One bar of the lead-time histogram.
pub struct LeadTimeBin {
    pub lead_days: i64,
    pub count: i64,
}

/// One backlog-age band with its count.
pub struct BucketCount {
    pub bucket: String,
    pub count: i64,
}

/// Order activity in one weekday-hour cell of the week.
pub struct HeatCell {
    pub weekday: i64,
    pub hour: i64,
    pub count: i64,
}

/// One overdue order with its age in days since creation.
pub struct OrderExceptionRow {
    pub id: i64,
    pub article_name: String,
    pub client_name: String,
    pub city: String,
    pub delivery_company: String,
    pub delivery_date: String,
    pub age_days: i64,
}

/// The exception lists of the dashboard.
pub struct Exceptions {
    pub overdue_top10: Vec<OrderExceptionRow>,
}

/// The whole dashboard payload.
pub struct DashboardData {
    pub kpis: Kpis,
    pub orders_over_time_weekly: Vec<TimeCount>,
    pub orders_over_time_weekly_by_done: Vec<TimeDoneCount>,
    pub delivery_schedule_weeks: Vec<ScheduleItem>,
    pub lead_time_histogram: Vec<LeadTimeBin>,
    pub top_articles: Vec<NameCount>,
    pub company_share_90d: Vec<NameCount>,
    pub new_vs_returning_monthly: Vec<(String, i64, i64)>,
    pub backlog_age_buckets: Vec<BucketCount>,
    pub activity_heatmap: Vec<HeatCell>,
    pub exceptions: Exceptions,
}

/// An order that is not completed.
pub open spec fn is_open() -> spec_fn(OrderRowV) -> bool {
    |o: OrderRowV| !o.done
}

/// An open order whose delivery date parses and lies strictly before the
/// given day; an unparseable date never compares.
pub open spec fn overdue_at(today_num: int) -> spec_fn(OrderRowV) -> bool {
    |o: OrderRowV| !o.done && (parse_date_spec(o.delivery_date) matches Some(d) && day_number(d)
        < today_num)
}

/// An open order due exactly on the given day.
pub open spec fn due_on(today_num: int) -> spec_fn(OrderRowV) -> bool {
    |o: OrderRowV| !o.done && (parse_date_spec(o.delivery_date) matches Some(d) && day_number(d)
        == today_num)
}

/// An open order due after the given day but within the following week.
pub open spec fn due_next_7(today_num: int) -> spec_fn(OrderRowV) -> bool {
    |o: OrderRowV| !o.done && (parse_date_spec(o.delivery_date) matches Some(d) && day_number(d)
        > today_num && day_number(d) <= today_num + 7)
}

/// A completed order created within the trailing window of the given
/// number of days before the given instant.
pub open spec fn done_within(now_ms: int, days: int) -> spec_fn(OrderRowV) -> bool {
    |o: OrderRowV| o.done && total_ms(o.created_at) >= now_ms - days * (MS_PER_DAY as int)
}

/// An order created on or after the given day.
pub open spec fn created_since(day: int) -> spec_fn(OrderRowV) -> bool {
    |o: OrderRowV| day_number(o.created_at.date) >= day
}

/// A row carrying exactly the given phone.
pub open spec fn phone_is(phone: Seq<char>) -> spec_fn(OrderRowV) -> bool {
    |o: OrderRowV| o.phone == phone
}

/// Row `i` is the first row of its phone.
pub open spec fn first_of_phone(orders: Seq<OrderRowV>, i: int) -> bool {
    forall|j: int| 0 <= j < i ==> (#[trigger] orders[j]).phone != orders[i].phone
}

/// How many distinct phones the ledger holds.
pub open spec fn distinct_phones(orders: Seq<OrderRowV>) -> int {
    count_range(orders.len() as int, |i: int| first_of_phone(orders, i))
}

/// How many distinct phones placed more than one order.
pub open spec fn returning_phones(orders: Seq<OrderRowV>) -> int {
    count_range(
        orders.len() as int,
        |i: int| first_of_phone(orders, i) && count_where(orders, phone_is(orders[i].phone)) > 1,
    )
}

/// A nonnegative ratio scaled by `scale` and rounded to the nearest
/// integer, halves away from zero.
pub open spec fn round_ratio(num: int, den: int, scale: int) -> int {
    (2 * scale * num + den) / (2 * den)
}

/// A possibly negative ratio scaled by `scale` and rounded to the nearest
/// integer, halves away from zero.
pub open spec fn round_ratio_signed(num: int, den: int, scale: int) -> int {
    if num >= 0 {
        round_ratio(num, den, scale)
    } else {
        -round_ratio(-num, den, scale)
    }
}

/// The lead time of a row: whole days from the creation date to the
/// delivery date, defined where the delivery date parses.
pub open spec fn lead_of(o: OrderRowV) -> int {
    day_number(parse_date_spec(o.delivery_date)->0) - day_number(o.created_at.date)
}

/// The lead times of the rows whose delivery date parses, in row order.
pub open spec fn leads_of(orders: Seq<OrderRowV>) -> Seq<i64>
    decreases orders.len(),
{
    if orders.len() == 0 {
        Seq::empty()
    } else {
        leads_of(orders.drop_last()) + (if parse_date_spec(orders.last().delivery_date) is Some {
            seq![lead_of(orders.last()) as i64]
        } else {
            Seq::empty()
        })
    }
}

/// The order on lead times that sorting uses.
pub open spec fn i64_le() -> spec_fn(i64, i64) -> bool {
    |a: i64, b: i64| a <= b
}

/// The sum of a sequence of lead times.
pub open spec fn sum_of(s: Seq<i64>) -> int
    decreases s.len(),
{
    if s.len() == 0 {
        0
    } else {
        sum_of(s.drop_last()) + s.last()
    }
}

/// Every order id is at least its position plus one, so the ledger length
/// is bounded by the largest id.
proof fn lemma_orders_len_bound(s: StoreV)
    requires
        orders_ok(s),
    ensures
        s.orders.len() <= i64::MAX,
{
    if s.orders.len() > 0 {
        lemma_ids_grow(s.orders, s.orders.len() - 1);
    }
}

proof fn lemma_ids_grow(orders: Seq<OrderRowV>, k: int)
    requires
        0 <= k < orders.len(),
        forall|i: int, j: int|
            0 <= i < j < orders.len() ==> #[trigger] orders[i].id < #[trigger] orders[j].id,
        forall|i: int| 0 <= i < orders.len() ==> 1 <= #[trigger] orders[i].id,
    ensures
        orders[k].id >= k + 1,
    decreases k,
{
    if k > 0 {
        lemma_ids_grow(orders, k - 1);
    }
}

impl Store {
    /// Counts the whole ledger and each completion- and due-date-filtered
    /// slice of it that the dashboard's headline needs.
    #[verifier::loop_isolation(false)]
    fn kpi_counts(&self, today_local: Date, now_utc: Timestamp) -> (r: (
        i64,
        i64,
        i64,
        i64,
        i64,
        i64,
        i64,
    ))
        requires
            store_inv(self@),
            valid_date(today_local),
            valid_timestamp(now_utc),
        ensures
            r.0 as int == self@.orders.len(),
            r.1 as int == count_where(self@.orders, is_open()),
            r.2 as int == count_where(self@.orders, overdue_at(day_number(today_local))),
            r.3 as int == count_where(self@.orders, due_on(day_number(today_local))),
            r.4 as int == count_where(self@.orders, due_next_7(day_number(today_local))),
            r.5 as int == count_where(self@.orders, done_within(total_ms(now_utc), 7)),
            r.6 as int == count_where(self@.orders, done_within(total_ms(now_utc), 30)),
    {
        proof {
            lemma_orders_len_bound(self@);
            lemma_total_ms_bound(now_utc);
            lemma_day_number_bound(today_local);
        }
        let today_num = day_number_exec(&today_local);
        let now_ms = total_ms_exec(&now_utc) as i64;
        let n = self.orders.len();
        let total = n as i64;
        let mut open: i64 = 0;
        let mut overdue: i64 = 0;
        let mut today_due: i64 = 0;
        let mut next7: i64 = 0;
        let mut d7: i64 = 0;
        let mut d30: i64 = 0;
        let mut i: usize = 0;
        while i < n
            invariant
                n == self.orders.len(),
                i <= n,
                today_num == day_number(today_local),
                now_ms == total_ms(now_utc),
                open as int == count_where(self@.orders.take(i as int), is_open()),
                overdue as int == count_where(
                    self@.orders.take(i as int),
                    overdue_at(day_number(today_local)),
                ),
                today_due as int == count_where(
                    self@.orders.take(i as int),
                    due_on(day_number(today_local)),
                ),
                next7 as int == count_where(
                    self@.orders.take(i as int),
                    due_next_7(day_number(today_local)),
                ),
                d7 as int == count_where(
                    self@.orders.take(i as int),
                    done_within(total_ms(now_utc), 7),
                ),
                d30 as int == count_where(
                    self@.orders.take(i as int),
                    done_within(total_ms(now_utc), 30),
                ),
            decreases n - i,
        {
            proof {
                lemma_count_take_step(self@.orders, is_open(), i as int);
                lemma_count_take_step(self@.orders, overdue_at(day_number(today_local)), i as int);
                lemma_count_take_step(self@.orders, due_on(day_number(today_local)), i as int);
                lemma_count_take_step(self@.orders, due_next_7(day_number(today_local)), i as int);
                lemma_count_take_step(
                    self@.orders,
                    done_within(total_ms(now_utc), 7),
                    i as int,
                );
                lemma_count_take_step(
                    self@.orders,
                    done_within(total_ms(now_utc), 30),
                    i as int,
                );
                lemma_count_bounds(self@.orders.take(i as int), is_open());
                lemma_count_bounds(
                    self@.orders.take(i as int),
                    overdue_at(day_number(today_local)),
                );
                lemma_count_bounds(self@.orders.take(i as int), due_on(day_number(today_local)));
                lemma_count_bounds(
                    self@.orders.take(i as int),
                    due_next_7(day_number(today_local)),
                );
                lemma_count_bounds(
                    self@.orders.take(i as int),
                    done_within(total_ms(now_utc), 7),
                );
                lemma_count_bounds(
                    self@.orders.take(i as int),
                    done_within(total_ms(now_utc), 30),
                );
                assert(valid_timestamp(self@.orders[i as int].created_at));
                lemma_total_ms_bound(self@.orders[i as int].created_at);
            }
            let o = &self.orders[i];
            let done = o.done;
            if !done {
                open = open + 1;
            }
            match parse_date(o.delivery_date.as_str()) {
                Some(d) => {
                    let dn = day_number_exec(&d);
                    if !done && dn < today_num {
                        overdue = overdue + 1;
                    }
                    if !done && dn == today_num {
                        today_due = today_due + 1;
                    }
                    if !done && dn > today_num && dn <= today_num + 7 {
                        next7 = next7 + 1;
                    }
                },
                None => {},
            }
            let cms = total_ms_exec(&o.created_at) as i64;
            if done && cms >= now_ms - 7 * (MS_PER_DAY as i64) {
                d7 = d7 + 1;
            }
            if done && cms >= now_ms - 30 * (MS_PER_DAY as i64) {
                d30 = d30 + 1;
            }
            i = i + 1;
        }
        proof {
            assert(self@.orders.take(n as int) =~= self@.orders);
        }
        (total, open, overdue, today_due, next7, d7, d30)
    }

    /// Counts the distinct phones of the ledger and how many of them
    /// placed more than one order.
    #[verifier::loop_isolation(false)]
    fn phone_counts(&self) -> (r: (i64, i64))
        requires
            store_inv(self@),
        ensures
            r.0 as int == distinct_phones(self@.orders),
            r.1 as int == returning_phones(self@.orders),
            0 <= r.1 <= r.0,
    {
        proof {
            lemma_orders_len_bound(self@);
        }
        let n = self.orders.len();
        let ghost uniq_p = |i: int| first_of_phone(self@.orders, i);
        let ghost multi_p = |i: int|
            first_of_phone(self@.orders, i) && count_where(
                self@.orders,
                phone_is(self@.orders[i].phone),
            ) > 1;
        let mut uniq: i64 = 0;
        let mut multi: i64 = 0;
        let mut i: usize = 0;
        while i < n
            invariant
                n == self.orders.len(),
                i <= n,
                uniq as int == count_range(i as int, uniq_p),
                multi as int == count_range(i as int, multi_p),
                multi <= uniq,
            decreases n - i,
        {
            proof {
                lemma_count_range_bounds(i as int, uniq_p);
                lemma_count_range_bounds(i as int, multi_p);
            }
            let mut first = true;
            let mut j: usize = 0;
            while j < i
                invariant
                    j <= i <= n,
                    first == (forall|k: int|
                        0 <= k < j ==> (#[trigger] self@.orders[k]).phone
                            != self@.orders[i as int].phone),
                decreases i - j,
            {
                if crate::text::str_eq(self.orders[j].phone.as_str(), self.orders[i].phone.as_str())
                    {
                    proof {
                        assert(self@.orders[j as int].phone == self@.orders[i as int].phone);
                    }
                    first = false;
                    j = i;
                } else {
                    j = j + 1;
                }
            }
            if first {
                uniq = uniq + 1;
                let mut cnt: i64 = 0;
                let mut k: usize = 0;
                while k < n
                    invariant
                        k <= n,
                        n == self.orders.len(),
                        cnt as int == count_where(
                            self@.orders.take(k as int),
                            phone_is(self@.orders[i as int].phone),
                        ),
                    decreases n - k,
                {
                    proof {
                        lemma_count_take_step(
                            self@.orders,
                            phone_is(self@.orders[i as int].phone),
                            k as int,
                        );
                        lemma_count_bounds(
                            self@.orders.take(k as int),
                            phone_is(self@.orders[i as int].phone),
                        );
                    }
                    if crate::text::str_eq(
                        self.orders[k].phone.as_str(),
                        self.orders[i].phone.as_str(),
                    ) {
                        cnt = cnt + 1;
                    }
                    k = k + 1;
                }
                proof {
                    assert(self@.orders.take(n as int) =~= self@.orders);
                    assert(uniq_p(i as int));
                }
                if cnt > 1 {
                    proof {
                        assert(multi_p(i as int));
                    }
                    multi = multi + 1;
                }
            } else {
                proof {
                    let w = choose|k: int|
                        0 <= k < i && (#[trigger] self@.orders[k]).phone
                            == self@.orders[i as int].phone;
                    assert(!uniq_p(i as int));
                    assert(!multi_p(i as int));
                }
            }
            i = i + 1;
        }
        proof {
            lemma_count_range_bounds(n as int, uniq_p);
            lemma_count_range_bounds(n as int, multi_p);
        }
        (uniq, multi)
    }

    /// The lead times of all orders with a well-formed delivery date, in
    /// row order.
    #[verifier::loop_isolation(false)]
    fn collect_leads(&self) -> (r: Vec<i64>)
        requires
            store_inv(self@),
        ensures
            r@ == leads_of(self@.orders),
            forall|k: int| 0 <= k < r@.len() ==> -3700000 < #[trigger] r@[k] < 3700000,
    {
        let n = self.orders.len();
        let mut out: Vec<i64> = Vec::new();
        let mut i: usize = 0;
        while i < n
            invariant
                n == self.orders.len(),
                i <= n,
                out@ =~= leads_of(self@.orders.take(i as int)),
                forall|k: int| 0 <= k < out@.len() ==> -3700000 < #[trigger] out@[k] < 3700000,
            decreases n - i,
        {
            proof {
                assert(self@.orders.take(i as int + 1).drop_last() =~= self@.orders.take(i as int));
                assert(self@.orders.take(i as int + 1).last() == self@.orders[i as int]);
                assert(valid_timestamp(self@.orders[i as int].created_at));
                lemma_day_number_bound(self@.orders[i as int].created_at.date);
            }
            match parse_date(self.orders[i].delivery_date.as_str()) {
                Some(d) => {
                    proof {
                        lemma_day_number_bound(d);
                    }
                    let dd = day_number_exec(&d) as i64;
                    let cd = day_number_exec(&self.orders[i].created_at.date) as i64;
                    out.push(dd - cd);
                    proof {
                        assert(out@ =~= leads_of(self@.orders.take(i as int + 1)));
                    }
                },
                None => {
                    proof {
                        assert(out@ =~= leads_of(self@.orders.take(i as int + 1)));
                    }
                },
            }
            i = i + 1;
        }
        proof {
            assert(self@.orders.take(n as int) =~= self@.orders);
        }
        out
    }
}

/// Whether a lead time equals the given value.
pub open spec fn i64_is(v: i64) -> spec_fn(i64) -> bool {
    |x: i64| x == v
}

proof fn lemma_insert_to_multiset(s: Seq<i64>, p: int, x: i64)
    requires
        0 <= p <= s.len(),
    ensures
        s.insert(p, x).to_multiset() =~= s.to_multiset().insert(x),
{
    broadcast use vstd::seq_lib::group_to_multiset_ensures;

    assert(s.insert(p, x) =~= s.take(p).push(x) + s.skip(p));
    assert(s =~= s.take(p) + s.skip(p));
    vstd::seq_lib::lemma_multiset_commutative(s.take(p).push(x), s.skip(p));
    vstd::seq_lib::lemma_multiset_commutative(s.take(p), s.skip(p));
    assert(s.take(p).push(x).to_multiset() =~= s.take(p).to_multiset().insert(x));
}

/// How often a value occurs is exactly its multiset count.
proof fn lemma_count_where_multiset(s: Seq<i64>, v: i64)
    ensures
        count_where(s, i64_is(v)) == s.to_multiset().count(v),
    decreases s.len(),
{
    broadcast use vstd::seq_lib::group_to_multiset_ensures;

    if s.len() == 0 {
        assert(s.to_multiset() =~= vstd::multiset::Multiset::empty());
    } else {
        lemma_count_where_multiset(s.drop_last(), v);
        assert(s.drop_last().push(s.last()) =~= s);
        assert(s.drop_last().push(s.last()).to_multiset() =~= s.drop_last().to_multiset().insert(
            s.last(),
        ));
    }
}

/// Sorts lead times ascending, keeping exactly the same values.
#[verifier::loop_isolation(false)]
fn sort_i64_asc(v: &Vec<i64>) -> (r: Vec<i64>)
    ensures
        r@.len() == v@.len(),
        vstd::relations::sorted_by(r@, i64_le()),
        r@.to_multiset() == v@.to_multiset(),
{
    broadcast use vstd::seq_lib::group_to_multiset_ensures;

    let n = v.len();
    let mut out: Vec<i64> = Vec::new();
    let mut i: usize = 0;
    while i < n
        invariant
            i <= n,
            out@.len() == i,
            vstd::relations::sorted_by(out@, i64_le()),
            out@.to_multiset() =~= v@.take(i as int).to_multiset(),
        decreases n - i,
    {
        let x = v[i];
        let mut p: usize = 0;
        while p < out.len() && out[p] <= x
            invariant
                p <= out@.len(),
                forall|q: int| 0 <= q < p ==> #[trigger] out@[q] <= x,
            decreases out@.len() - p,
        {
            p = p + 1;
        }
        let ghost prev = out@;
        out.insert(p, x);
        proof {
            assert(out@ =~= prev.insert(p as int, x));
            lemma_insert_to_multiset(prev, p as int, x);
            assert(v@.take(i as int + 1) =~= v@.take(i as int).push(v@[i as int]));
            assert(v@.take(i as int + 1).to_multiset() =~= v@.take(
                i as int,
            ).to_multiset().insert(x));
            assert forall|a: int, b: int| 0 <= a < b < out@.len() implies i64_le()(
                out@[a],
                out@[b],
            ) by {
                if a < p && b == p {
                    assert(prev[a] <= x);
                } else if a == p && b > p {
                    assert(p < prev.len());
                    assert(!(prev[p as int] <= x));
                    assert(i64_le()(prev[p as int], prev[b - 1]));
                } else if b < p {
                    assert(i64_le()(prev[a], prev[b]));
                } else if a < p {
                    assert(i64_le()(prev[a], prev[b - 1]));
                } else {
                    assert(i64_le()(prev[a - 1], prev[b - 1]));
                }
            }
        }
        i = i + 1;
    }
    proof {
        assert(v@.take(n as int) =~= v@);
    }
    out
}

/// The age of a row in whole days at the given instant, the fraction
/// toward zero.
pub open spec fn age_days_of(o: OrderRowV, now_ms: int) -> int {
    let diff = now_ms - total_ms(o.created_at);
    if diff >= 0 {
        diff / (MS_PER_DAY as int)
    } else {
        -((-diff) / (MS_PER_DAY as int))
    }
}

/// The backlog band of an age in days: under 3, under 7, under 14, under
/// 30, and the rest.
pub open spec fn band_of(age: int) -> int {
    if age < 3 {
        0
    } else if age < 7 {
        1
    } else if age < 14 {
        2
    } else if age < 30 {
        3
    } else {
        4
    }
}

/// The label of a backlog band.
pub open spec fn band_label(b: int) -> Seq<char> {
    if b == 0 {
        "0-2"@
    } else if b == 1 {
        "3-6"@
    } else if b == 2 {
        "7-13"@
    } else if b == 3 {
        "14-29"@
    } else {
        "30+"@
    }
}

/// An open order whose age falls in the given backlog band.
pub open spec fn open_in_band(now_ms: int, b: int) -> spec_fn(OrderRowV) -> bool {
    |o: OrderRowV| !o.done && band_of(age_days_of(o, now_ms)) == b
}

/// The non-empty backlog bands from `b` on, in band order, as band-count
/// pairs.
pub open spec fn buckets_from(orders: Seq<OrderRowV>, now_ms: int, b: int) -> Seq<(int, int)>
    decreases 5 - b,
{
    if b >= 5 {
        Seq::empty()
    } else {
        (if count_where(orders, open_in_band(now_ms, b)) > 0 {
            seq![(b, count_where(orders, open_in_band(now_ms, b)))]
        } else {
            Seq::empty()
        }) + buckets_from(orders, now_ms, b + 1)
    }
}

impl Store {
    /// The average lead time in hundredths of a day and the median lead
    /// time in whole days, over the orders with a well-formed delivery
    /// date; nothing where there are none. The median is the value at
    /// offset half the count, rounded down, of the ascending lead times.
    #[verifier::loop_isolation(false)]
    #[verifier::rlimit(100)]
    fn lead_stats(&self) -> (r: (Option<i64>, Option<i64>))
        requires
            store_inv(self@),
        ensures
            leads_of(self@.orders).len() == 0 ==> r == (None::<i64>, None::<i64>),
            leads_of(self@.orders).len() > 0 ==> (r.0 matches Some(av) && av as int
                == round_ratio_signed(
                sum_of(leads_of(self@.orders)),
                leads_of(self@.orders).len() as int,
                100,
            )),
            leads_of(self@.orders).len() > 0 ==> (r.1 matches Some(md) && md == leads_of(
                self@.orders,
            ).sort_by(i64_le())[leads_of(self@.orders).len() as int / 2]),
    {
        let leads = self.collect_leads();
        let n = leads.len();
        if n == 0 {
            return (None, None);
        }
        let mut sum: i128 = 0;
        let mut i: usize = 0;
        while i < n
            invariant
                n == leads@.len(),
                i <= n,
                sum == sum_of(leads@.take(i as int)),
                -3700000 * (i as int) <= sum <= 3700000 * (i as int),
            decreases n - i,
        {
            proof {
                assert(leads@.take(i as int + 1).drop_last() =~= leads@.take(i as int));
                assert(leads@.take(i as int + 1).last() == leads@[i as int]);
            }
            sum = sum + (leads[i] as i128);
            i = i + 1;
        }
        proof {
            assert(leads@.take(n as int) =~= leads@);
        }
        let num: i128 = 100 * sum;
        let den: i128 = n as i128;
        proof {
            assert(den >= 1);
            assert(-370000000 * den <= num <= 370000000 * den);
            if num >= 0 {
                vstd::arithmetic::div_mod::lemma_div_pos_is_pos(2 * num + den, 2 * den);
                vstd::arithmetic::div_mod::lemma_multiply_divide_le(
                    2 * num + den,
                    2 * den,
                    370000001,
                );
            } else {
                vstd::arithmetic::div_mod::lemma_div_pos_is_pos(2 * (-num) + den, 2 * den);
                vstd::arithmetic::div_mod::lemma_multiply_divide_le(
                    2 * (-num) + den,
                    2 * den,
                    370000001,
                );
            }
        }
        let avg: i64 = if num >= 0 {
            ((2 * num + den) / (2 * den)) as i64
        } else {
            (-((2 * (-num) + den) / (2 * den))) as i64
        };
        let sorted = sort_i64_asc(&leads);
        proof {
            let leq = i64_le();
            leads@.lemma_sort_by_ensures(leq);
            lemma_sorted_unique(sorted@, leads@.sort_by(leq), leq);
            assert(sorted@ == leads@.sort_by(leq));
        }
        let md = sorted[n / 2];
        (Some(avg), Some(md))
    }

    /// The backlog aging bands: open orders bucketed by whole-day age into
    /// the fixed bands, empty bands left out, in band order.
    #[verifier::loop_isolation(false)]
    fn backlog_age_buckets(&self, now_utc: Timestamp) -> (r: Vec<BucketCount>)
        requires
            store_inv(self@),
            valid_timestamp(now_utc),
        ensures
            ({
                let expected = buckets_from(self@.orders, total_ms(now_utc), 0);
                &&& r@.len() == expected.len()
                &&& forall|a: int|
                    0 <= a < r@.len() ==> (#[trigger] r@[a]).bucket@ == band_label(expected[a].0)
                        && r@[a].count as int == expected[a].1
            }),
    {
        proof {
            lemma_orders_len_bound(self@);
            lemma_total_ms_bound(now_utc);
        }
        let now_ms = total_ms_exec(&now_utc) as i64;
        let mut out: Vec<BucketCount> = Vec::new();
        let ghost whole = buckets_from(self@.orders, total_ms(now_utc), 0);
        let ghost acc: Seq<(int, int)> = Seq::empty();
        let mut b: u32 = 0;
        while b < 5
            invariant
                b <= 5,
                out@.len() == acc.len(),
                forall|a: int|
                    0 <= a < out@.len() ==> (#[trigger] out@[a]).bucket@ == band_label(acc[a].0)
                        && out@[a].count as int == acc[a].1,
                whole =~= acc + buckets_from(self@.orders, total_ms(now_utc), b as int),
                whole == buckets_from(self@.orders, total_ms(now_utc), 0),
            decreases 5 - b,
        {
            let c = self.count_band(now_ms, b, Ghost(now_utc));
            if c > 0 {
                let label: &str = if b == 0 {
                    "0-2"
                } else if b == 1 {
                    "3-6"
                } else if b == 2 {
                    "7-13"
                } else if b == 3 {
                    "14-29"
                } else {
                    "30+"
                };
                out.push(BucketCount { bucket: label.to_owned(), count: c });
                proof {
                    acc = acc.push((b as int, c as int));
                    assert(whole =~= acc + buckets_from(
                        self@.orders,
                        total_ms(now_utc),
                        b as int + 1,
                    ));
                }
            } else {
                proof {
                    assert(whole =~= acc + buckets_from(
                        self@.orders,
                        total_ms(now_utc),
                        b as int + 1,
                    ));
                }
            }
            b = b + 1;
        }
        proof {
            assert(buckets_from(self@.orders, total_ms(now_utc), 5) =~= Seq::empty());
            assert(whole =~= acc);
        }
        out
    }

    /// How many open orders fall in one backlog band.
    #[verifier::loop_isolation(false)]
    fn count_band(&self, now_ms: i64, b: u32, Ghost(now_utc): Ghost<Timestamp>) -> (c: i64)
        requires
            store_inv(self@),
            valid_timestamp(now_utc),
            now_ms == total_ms(now_utc),
            b < 5,
        ensures
            c as int == count_where(self@.orders, open_in_band(total_ms(now_utc), b as int)),
    {
        proof {
            lemma_orders_len_bound(self@);
            lemma_total_ms_bound(now_utc);
        }
        let ghost p = open_in_band(total_ms(now_utc), b as int);
        let n = self.orders.len();
        let mut c: i64 = 0;
        let mut i: usize = 0;
        while i < n
            invariant
                n == self.orders.len(),
                i <= n,
                c as int == count_where(self@.orders.take(i as int), p),
            decreases n - i,
        {
            proof {
                lemma_count_take_step(self@.orders, p, i as int);
                lemma_count_bounds(self@.orders.take(i as int), p);
                assert(valid_timestamp(self@.orders[i as int].created_at));
                lemma_total_ms_bound(self@.orders[i as int].created_at);
            }
            let o = &self.orders[i];
            if !o.done {
                let cms = total_ms_exec(&o.created_at) as i64;
                let diff: i64 = now_ms - cms;
                let age: i64 = if diff >= 0 {
                    diff / (MS_PER_DAY as i64)
                } else {
                    -((-diff) / (MS_PER_DAY as i64))
                };
                let band: u32 = if age < 3 {
                    0
                } else if age < 7 {
                    1
                } else if age < 14 {
                    2
                } else if age < 30 {
                    3
                } else {
                    4
                };
                proof {
                    assert(age as int == age_days_of(self@.orders[i as int], total_ms(now_utc)));
                    assert(band as int == band_of(age as int));
                }
                if band == b {
                    c = c + 1;
                }
            }
            i = i + 1;
        }
        proof {
            assert(self@.orders.take(n as int) =~= self@.orders);
        }
        c
    }
}

/// A row created in the given weekday-hour cell, the weekday counted with
/// 0 standing for Sunday.
pub open spec fn heat_is(w: int, h: int) -> spec_fn(OrderRowV) -> bool {
    |o: OrderRowV|
        crate::dates::weekday_of(day_number(o.created_at.date)) == w && o.created_at.ms as int
            / 3600000 == h
}

/// Whether the heatmap lists the given cell.
pub open spec fn heat_listed(r: Seq<HeatCell>, w: int, h: int) -> bool {
    exists|a: int| 0 <= a < r.len() && (#[trigger] r[a]).weekday == w && r[a].hour == h
}

/// Everything an exception line says about the row it reports.
pub open spec fn exception_row_ok(
    orders: Seq<OrderRowV>,
    now_ms: int,
    e: OrderExceptionRow,
    i: int,
) -> bool {
    &&& 0 <= i < orders.len()
    &&& e.id as int == orders[i].id
    &&& e.article_name@ == orders[i].article_name
    &&& e.client_name@ == orders[i].client_name
    &&& e.city@ == orders[i].city
    &&& e.delivery_company@ == orders[i].delivery_company
    &&& e.delivery_date@ == orders[i].delivery_date
    &&& e.age_days as int == age_days_of(orders[i], now_ms)
}

/// An exception line that correctly reports some overdue row.
pub open spec fn exception_entry_ok(
    orders: Seq<OrderRowV>,
    now_ms: int,
    today_num: int,
    e: OrderExceptionRow,
) -> bool {
    exists|i: int|
        overdue_at(today_num)(#[trigger] orders[i]) && exception_row_ok(orders, now_ms, e, i)
}

/// Whether the exception list names the given order id.
pub open spec fn listed_id(r: Seq<OrderExceptionRow>, id: int) -> bool {
    exists|a: int| 0 <= a < r.len() && (#[trigger] r[a]).id as int == id
}

/// The due day an exception line reports.
pub open spec fn exc_day(e: OrderExceptionRow) -> int {
    day_number(parse_date_spec(e.delivery_date@)->0)
}

impl Store {
    /// How many orders were created in one weekday-hour cell.
    #[verifier::loop_isolation(false)]
    fn count_cell(&self, w: u32, h: u32) -> (c: i64)
        requires
            store_inv(self@),
        ensures
            c as int == count_where(self@.orders, heat_is(w as int, h as int)),
    {
        proof {
            lemma_orders_len_bound(self@);
        }
        let ghost p = heat_is(w as int, h as int);
        let n = self.orders.len();
        let mut c: i64 = 0;
        let mut i: usize = 0;
        while i < n
            invariant
                n == self.orders.len(),
                i <= n,
                c as int == count_where(self@.orders.take(i as int), p),
            decreases n - i,
        {
            proof {
                lemma_count_take_step(self@.orders, p, i as int);
                lemma_count_bounds(self@.orders.take(i as int), p);
                assert(valid_timestamp(self@.orders[i as int].created_at));
            }
            let wd = crate::dates::weekday_exec(&self.orders[i].created_at.date);
            let hr = (self.orders[i].created_at.ms / 3600000) as u32;
            if wd == w && hr == h {
                c = c + 1;
            }
            i = i + 1;
        }
        proof {
            assert(self@.orders.take(n as int) =~= self@.orders);
        }
        c
    }

    /// The activity heatmap: for every weekday-hour cell with at least one
    /// order, its count, in weekday order then hour order.
    #[verifier::loop_isolation(false)]
    fn activity_heatmap(&self) -> (r: Vec<HeatCell>)
        requires
            store_inv(self@),
        ensures
            heatmap_ok(self@.orders, r@),
    {
        let mut out: Vec<HeatCell> = Vec::new();
        let mut w: u32 = 0;
        while w < 7
            invariant
                w <= 7,
                forall|a: int|
                    0 <= a < out@.len() ==> {
                        let e = #[trigger] out@[a];
                        &&& 0 <= e.weekday < 7
                        &&& 0 <= e.hour < 24
                        &&& e.count as int == count_where(
                            self@.orders,
                            heat_is(e.weekday as int, e.hour as int),
                        )
                        &&& e.count > 0
                        &&& e.weekday < w
                    },
                forall|a: int, b: int|
                    0 <= a < b < out@.len() ==> (#[trigger] out@[a]).weekday < (
                    #[trigger] out@[b]).weekday || (out@[a].weekday == out@[b].weekday
                        && out@[a].hour < out@[b].hour),
                forall|w2: int, h2: int|
                    0 <= w2 < w && 0 <= h2 < 24 && count_where(self@.orders, heat_is(w2, h2)) > 0
                        ==> #[trigger] heat_listed(out@, w2, h2),
            decreases 7 - w,
        {
            let mut h: u32 = 0;
            while h < 24
                invariant
                    w < 7,
                    h <= 24,
                    forall|a: int|
                        0 <= a < out@.len() ==> {
                            let e = #[trigger] out@[a];
                            &&& 0 <= e.weekday < 7
                            &&& 0 <= e.hour < 24
                            &&& e.count as int == count_where(
                                self@.orders,
                                heat_is(e.weekday as int, e.hour as int),
                            )
                            &&& e.count > 0
                            &&& (e.weekday < w || (e.weekday == w && e.hour < h))
                        },
                    forall|a: int, b: int|
                        0 <= a < b < out@.len() ==> (#[trigger] out@[a]).weekday < (
                        #[trigger] out@[b]).weekday || (out@[a].weekday == out@[b].weekday
                            && out@[a].hour < out@[b].hour),
                    forall|w2: int, h2: int|
                        0 <= w2 < 7 && 0 <= h2 < 24 && (w2 < w || (w2 == w && h2 < h))
                            && count_where(self@.orders, heat_is(w2, h2)) > 0
                            ==> #[trigger] heat_listed(out@, w2, h2),
                decreases 24 - h,
            {
                let c = self.count_cell(w, h);
                if c > 0 {
                    let ghost prev = out@;
                    out.push(HeatCell { weekday: w as i64, hour: h as i64, count: c });
                    proof {
                        assert(out@[out@.len() - 1].weekday == w as int);
                        assert forall|w2: int, h2: int|
                            0 <= w2 < 7 && 0 <= h2 < 24 && (w2 < w || (w2 == w && h2 < h + 1))
                                && count_where(self@.orders, heat_is(w2, h2)) > 0
                                implies #[trigger] heat_listed(out@, w2, h2) by {
                            if w2 == w && h2 == h {
                                assert(out@[out@.len() - 1].weekday == w2 && out@[out@.len()
                                    - 1].hour == h2);
                            } else {
                                assert(heat_listed(prev, w2, h2));
                                let a = choose|a: int|
                                    0 <= a < prev.len() && (#[trigger] prev[a]).weekday == w2
                                        && prev[a].hour == h2;
                                assert(out@[a].weekday == w2 && out@[a].hour == h2);
                            }
                        }
                    }
                }
                h = h + 1;
            }
            w = w + 1;
        }
        out
    }

    /// The ten most overdue open orders: delivery date strictly before the
    /// given day, most overdue first, ties in ledger order, each carrying
    /// its whole-day age since creation.
    #[verifier::loop_isolation(false)]
    #[verifier::rlimit(60)]
    fn overdue_top10(&self, today_local: Date, now_utc: Timestamp) -> (r: Vec<OrderExceptionRow>)
        requires
            store_inv(self@),
            valid_date(today_local),
            valid_timestamp(now_utc),
        ensures
            exceptions_ok(self@.orders, today_local, now_utc, r@),
    {
        proof {
            lemma_orders_len_bound(self@);
            lemma_total_ms_bound(now_utc);
            lemma_day_number_bound(today_local);
        }
        let ghost today_num = day_number(today_local) as int;
        let ghost pred = overdue_at(today_num);
        let today_n = day_number_exec(&today_local);
        let now_ms = total_ms_exec(&now_utc) as i64;
        let n = self.orders.len();
        let mut cand: Vec<usize> = Vec::new();
        let mut keys: Vec<(u64, u64)> = Vec::new();
        let mut i: usize = 0;
        while i < n
            invariant
                n == self.orders.len(),
                i <= n,
                cand@.len() == keys@.len(),
                cand@.len() == count_where(self@.orders.take(i as int), pred),
                forall|a: int, b: int| 0 <= a < b < cand@.len() ==> (#[trigger] cand@[a] as int) < (
                #[trigger] cand@[b] as int),
                forall|a: int|
                    0 <= a < cand@.len() ==> (#[trigger] cand@[a] as int) < i && pred(
                        self@.orders[cand@[a] as int],
                    ),
                forall|a: int|
                    0 <= a < cand@.len() ==> #[trigger] keys@[a] == (
                        day_number(
                            parse_date_spec(self@.orders[cand@[a] as int].delivery_date)->0,
                        ) as u64,
                        cand@[a] as u64,
                    ),
                forall|j: int| 0 <= j < i && pred(#[trigger] self@.orders[j]) ==> exists|a: int|
                    0 <= a < cand@.len() && (#[trigger] cand@[a] as int) == j,
            decreases n - i,
        {
            proof {
                lemma_count_take_step(self@.orders, pred, i as int);
                lemma_count_bounds(self@.orders.take(i as int), pred);
            }
            let o = &self.orders[i];
            if !o.done {
                match parse_date(o.delivery_date.as_str()) {
                    Some(d) => {
                        proof {
                            lemma_day_number_bound(d);
                        }
                        let dn = day_number_exec(&d);
                        if dn < today_n {
                            let ghost prevc = cand@;
                            cand.push(i);
                            keys.push((dn as u64, i as u64));
                            proof {
                                assert(pred(self@.orders[i as int]));
                                assert forall|j: int|
                                    0 <= j < i + 1 && pred(#[trigger] self@.orders[j]) implies
                                    exists|a: int|
                                    0 <= a < cand@.len() && (#[trigger] cand@[a] as int) == j by {
                                    if j == i {
                                        assert(cand@[cand@.len() - 1] as int == j);
                                    } else {
                                        let a = choose|a: int|
                                            0 <= a < prevc.len() && (#[trigger] prevc[a] as int)
                                                == j;
                                        assert(cand@[a] as int == j);
                                    }
                                }
                            }
                        }
                    },
                    None => {},
                }
            }
            i = i + 1;
        }
        proof {
            assert(self@.orders.take(n as int) =~= self@.orders);
        }
        let kn = cand.len();
        let idx = sort_asc_indices(&keys);
        let cap: usize = if kn < 10 {
            kn
        } else {
            10
        };
        let mut out: Vec<OrderExceptionRow> = Vec::new();
        let mut a: usize = 0;
        while a < cap
            invariant
                n == self.orders.len(),
                kn == cand@.len(),
                kn == keys@.len(),
                cap <= kn,
                cap <= 10,
                crate::rank::is_index_permutation(kn as int, idx@),
                crate::rank::ranked_asc(keys@, idx@),
                forall|x: int, y: int| 0 <= x < y < cand@.len() ==> (#[trigger] cand@[x] as int) < (
                #[trigger] cand@[y] as int),
                forall|x: int|
                    0 <= x < cand@.len() ==> (#[trigger] cand@[x] as int) < n && pred(
                        self@.orders[cand@[x] as int],
                    ),
                forall|x: int|
                    0 <= x < cand@.len() ==> #[trigger] keys@[x] == (
                        day_number(
                            parse_date_spec(self@.orders[cand@[x] as int].delivery_date)->0,
                        ) as u64,
                        cand@[x] as u64,
                    ),
                now_ms == total_ms(now_utc),
                a <= cap,
                out@.len() == a,
                forall|l: int|
                    0 <= l < a ==> #[trigger] exception_row_ok(
                        self@.orders,
                        total_ms(now_utc),
                        out@[l],
                        cand@[idx@[l] as int] as int,
                    ),
            decreases cap - a,
        {
            let j = idx[a];
            let ci = cand[j];
            let o = &self.orders[ci];
            proof {
                assert(valid_timestamp(self@.orders[ci as int].created_at));
                lemma_total_ms_bound(self@.orders[ci as int].created_at);
            }
            let cms = total_ms_exec(&o.created_at) as i64;
            let diff: i64 = now_ms - cms;
            let age: i64 = if diff >= 0 {
                diff / (MS_PER_DAY as i64)
            } else {
                -((-diff) / (MS_PER_DAY as i64))
            };
            out.push(
                OrderExceptionRow {
                    id: o.id,
                    article_name: o.article_name.clone(),
                    client_name: o.client_name.clone(),
                    city: o.city.clone(),
                    delivery_company: o.delivery_company.clone(),
                    delivery_date: o.delivery_date.clone(),
                    age_days: age,
                },
            );
            a = a + 1;
        }
        proof {
            let now_ms_g = total_ms(now_utc);
            assert forall|x: int| 0 <= x < out@.len() implies exception_entry_ok(
                self@.orders,
                now_ms_g,
                today_num,
                #[trigger] out@[x],
            ) by {
                let i2 = cand@[idx@[x] as int] as int;
                assert(exception_row_ok(self@.orders, now_ms_g, out@[x], i2));
                assert(pred(self@.orders[i2]));
            }
            assert forall|x: int, y: int| 0 <= x < y < out@.len() implies exc_day(
                #[trigger] out@[x],
            ) <= exc_day(#[trigger] out@[y]) by {
                let jx = idx@[x] as int;
                let jy = idx@[y] as int;
                lemma_day_number_bound(
                    parse_date_spec(self@.orders[cand@[jx] as int].delivery_date)->0,
                );
                lemma_day_number_bound(
                    parse_date_spec(self@.orders[cand@[jy] as int].delivery_date)->0,
                );
                assert(crate::rank::key_lt(keys@[jx], keys@[jy]) || (keys@[jx] == keys@[jy]
                    && idx@[x] < idx@[y]));
                assert(exception_row_ok(
                    self@.orders,
                    now_ms_g,
                    out@[x],
                    cand@[jx] as int,
                ));
                assert(exception_row_ok(
                    self@.orders,
                    now_ms_g,
                    out@[y],
                    cand@[jy] as int,
                ));
            }
            assert forall|j: int|
                0 <= j < self@.orders.len() && overdue_at(today_num)(#[trigger] self@.orders[j])
                    && !listed_id(out@, self@.orders[j].id) implies forall|x: int|
                0 <= x < out@.len() ==> exc_day(#[trigger] out@[x]) <= day_number(
                    parse_date_spec(self@.orders[j].delivery_date)->0,
                ) by {
                let c = choose|c: int| 0 <= c < cand@.len() && (#[trigger] cand@[c] as int) == j;
                assert(crate::rank::contains_index(idx@, c));
                let l = choose|l: int| 0 <= l < idx@.len() && (#[trigger] idx@[l] as int) == c;
                if l < cap {
                    assert(exception_row_ok(
                        self@.orders,
                        now_ms_g,
                        out@[l],
                        cand@[idx@[l] as int] as int,
                    ));
                    assert(out@[l].id as int == self@.orders[j].id);
                    assert(listed_id(out@, self@.orders[j].id));
                    assert(false);
                }
                assert forall|x: int| 0 <= x < out@.len() implies exc_day(#[trigger] out@[x])
                    <= day_number(parse_date_spec(self@.orders[j].delivery_date)->0) by {
                    lemma_day_number_bound(
                        parse_date_spec(self@.orders[cand@[idx@[x] as int] as int].delivery_date)->0,
                    );
                    lemma_day_number_bound(parse_date_spec(self@.orders[j].delivery_date)->0);
                    assert(crate::rank::key_lt(keys@[idx@[x] as int], keys@[idx@[l] as int]) || (
                    keys@[idx@[x] as int] == keys@[idx@[l] as int] && idx@[x] < idx@[l]));
                    assert(exception_row_ok(
                        self@.orders,
                        now_ms_g,
                        out@[x],
                        cand@[idx@[x] as int] as int,
                    ));
                    assert(keys@[c] == (
                        day_number(parse_date_spec(self@.orders[j].delivery_date)->0) as u64,
                        j as u64,
                    ));
                }
            }
        }
        out
    }
}

/// The company label of a row: its trimmed display text, or `(Unknown)`
/// where the text is blank, so all blank variants share one bucket.
pub open spec fn company_label(o: OrderRowV) -> Seq<char> {
    if crate::text::is_blank(o.delivery_company) {
        "(Unknown)"@
    } else {
        crate::text::trim_seq(o.delivery_company)
    }
}

/// The company labels of the rows created on or after the cutoff day, in
/// row order.
pub open spec fn window_company_labels(orders: Seq<OrderRowV>, cutoff: int) -> Seq<Seq<char>>
    decreases orders.len(),
{
    if orders.len() == 0 {
        Seq::empty()
    } else {
        window_company_labels(orders.drop_last(), cutoff) + (if day_number(
            orders.last().created_at.date,
        ) >= cutoff {
            seq![company_label(orders.last())]
        } else {
            Seq::empty()
        })
    }
}

/// The article names of the rows created on or after the cutoff day, in
/// row order.
pub open spec fn window_articles(orders: Seq<OrderRowV>, cutoff: int) -> Seq<Seq<char>>
    decreases orders.len(),
{
    if orders.len() == 0 {
        Seq::empty()
    } else {
        window_articles(orders.drop_last(), cutoff) + (if day_number(
            orders.last().created_at.date,
        ) >= cutoff {
            seq![orders.last().article_name]
        } else {
            Seq::empty()
        })
    }
}

/// The cities of the rows created on or after the cutoff day, in row
/// order.
pub open spec fn window_cities(orders: Seq<OrderRowV>, cutoff: int) -> Seq<Seq<char>>
    decreases orders.len(),
{
    if orders.len() == 0 {
        Seq::empty()
    } else {
        window_cities(orders.drop_last(), cutoff) + (if day_number(orders.last().created_at.date)
            >= cutoff {
            seq![orders.last().city]
        } else {
            Seq::empty()
        })
    }
}

/// The article names of every row, in row order.
pub open spec fn all_articles(orders: Seq<OrderRowV>) -> Seq<Seq<char>>
    decreases orders.len(),
{
    if orders.len() == 0 {
        Seq::empty()
    } else {
        all_articles(orders.drop_last()) + seq![orders.last().article_name]
    }
}

/// The predicate of a label sequence equal to the given one.
pub open spec fn label_is(s: Seq<char>) -> spec_fn(Seq<char>) -> bool {
    |x: Seq<char>| x == s
}

/// Whether the ranking lists the given label.
pub open spec fn label_listed(r: Seq<NameCount>, s: Seq<char>) -> bool {
    exists|a: int| 0 <= a < r.len() && (#[trigger] r[a]).name@ == s
}

/// A correct ranking of the labels `ls`: distinct labels with their exact
/// counts, every occurring label listed, ordered by count descending with
/// ties in order of first occurrence.
pub open spec fn ranked_labels_ok(ls: Seq<Seq<char>>, r: Seq<NameCount>) -> bool {
    &&& forall|a: int, b: int| 0 <= a < b < r.len() ==> (#[trigger] r[a]).name@ != (
    #[trigger] r[b]).name@
    &&& forall|a: int|
        0 <= a < r.len() ==> (#[trigger] r[a]).count as int == count_where(
            ls,
            label_is(r[a].name@),
        ) && r[a].count > 0
    &&& forall|a: int, b: int|
        0 <= a < b < r.len() ==> (#[trigger] r[a]).count > (#[trigger] r[b]).count || (r[a].count
            == r[b].count && ({
            let fa = crate::seqs::first_where(ls, label_is(r[a].name@));
            let fb = crate::seqs::first_where(ls, label_is(r[b].name@));
            fa is Some && fb is Some && fa->0 < fb->0
        }))
    &&& forall|k: int|
        0 <= k < ls.len() ==> label_listed(r, #[trigger] ls[k])
}

proof fn lemma_strs_counts(keys: Seq<String>, ls: Seq<Seq<char>>, nm: Seq<char>)
    requires
        keys.len() == ls.len(),
        forall|k: int| 0 <= k < keys.len() ==> (#[trigger] keys[k])@ == ls[k],
    ensures
        count_where(strs_view(keys), str_is(nm)) == count_where(ls, label_is(nm)),
        crate::seqs::first_where(strs_view(keys), str_is(nm)) == crate::seqs::first_where(
            ls,
            label_is(nm),
        ),
{
    crate::seqs::lemma_count_congruent(strs_view(keys), str_is(nm), str_is(nm));
    assert(strs_view(keys) =~= ls);
}

/// Ranks a list of labels: the distinct labels with their counts, by count
/// descending, ties in order of first occurrence.
#[verifier::loop_isolation(false)]
#[verifier::rlimit(50)]
fn ranked_counts(keys: &Vec<String>, Ghost(ls): Ghost<Seq<Seq<char>>>) -> (r: Vec<NameCount>)
    requires
        keys@.len() == ls.len(),
        forall|k: int| 0 <= k < keys@.len() ==> (#[trigger] keys@[k])@ == ls[k],
        keys@.len() <= i64::MAX,
    ensures
        ranked_labels_ok(ls, r@),
{
    proof {
        assert(strs_view(keys@) =~= ls);
    }
    let (names, counts) = group_count_strings(keys);
    let m = names.len();
    let mut skeys: Vec<(u64, u64)> = Vec::new();
    let mut x: usize = 0;
    while x < m
        invariant
            m == names@.len(),
            m == counts@.len(),
            x <= m,
            skeys@.len() == x,
            forall|y: int| 0 <= y < x ==> #[trigger] skeys@[y] == (counts@[y], 0u64),
        decreases m - x,
    {
        skeys.push((counts[x], 0));
        x = x + 1;
    }
    let idx = sort_desc_indices(&skeys);
    let mut out: Vec<NameCount> = Vec::new();
    let mut a: usize = 0;
    while a < m
        invariant
            m == names@.len(),
            m == counts@.len(),
            m == skeys@.len(),
            forall|y: int| 0 <= y < m ==> #[trigger] skeys@[y] == (counts@[y], 0u64),
            crate::rank::is_index_permutation(m as int, idx@),
            crate::rank::ranked_desc(skeys@, idx@),
            a <= m,
            out@.len() == a,
            forall|l: int|
                0 <= l < a ==> (#[trigger] out@[l]).name@ == names@[idx@[l] as int]@ && out@[l].count
                    == counts@[idx@[l] as int],
        decreases m - a,
    {
        let j = idx[a];
        proof {
            crate::seqs::lemma_count_bounds(strs_view(keys@), str_is(names@[j as int]@));
        }
        out.push(NameCount { name: names[j].clone(), count: counts[j] as i64 });
        a = a + 1;
    }
    proof {
        assert forall|y: int, b: int| 0 <= y < b < out@.len() implies (#[trigger] out@[y]).name@
            != (#[trigger] out@[b]).name@ by {
            let jy = idx@[y] as int;
            let jb = idx@[b] as int;
            if jy < jb {
                assert(names@[jy]@ != names@[jb]@);
            } else if jb < jy {
                assert(names@[jb]@ != names@[jy]@);
            }
        }
        assert forall|y: int| 0 <= y < out@.len() implies (#[trigger] out@[y]).count as int
            == count_where(ls, label_is(out@[y].name@)) && out@[y].count > 0 by {
            let jy = idx@[y] as int;
            lemma_strs_counts(keys@, ls, names@[jy]@);
            assert(counts@[jy] as int == count_where(strs_view(keys@), str_is(names@[jy]@)));
            assert(str_in(keys@, names@[jy]@));
            let w = choose|w: int|
                0 <= w < keys@.len() && (#[trigger] keys@[w])@ == names@[jy]@;
            assert(str_is(names@[jy]@)(strs_view(keys@)[w]));
            crate::seqs::lemma_count_pos(strs_view(keys@), str_is(names@[jy]@), w);
        }
        assert forall|y: int, b: int| 0 <= y < b < out@.len() implies (#[trigger] out@[y]).count
            > (#[trigger] out@[b]).count || (out@[y].count == out@[b].count && ({
            let fa = crate::seqs::first_where(ls, label_is(out@[y].name@));
            let fb = crate::seqs::first_where(ls, label_is(out@[b].name@));
            fa is Some && fb is Some && fa->0 < fb->0
        })) by {
            let jy = idx@[y] as int;
            let jb = idx@[b] as int;
            assert(crate::rank::key_lt(skeys@[jb], skeys@[jy]) || (skeys@[jb] == skeys@[jy]
                && idx@[y] < idx@[b]));
            lemma_strs_counts(keys@, ls, names@[jy]@);
            lemma_strs_counts(keys@, ls, names@[jb]@);
            if skeys@[jb] == skeys@[jy] {
                assert(jy < jb);
                let fa = crate::seqs::first_where(strs_view(keys@), str_is(names@[jy]@));
                let fb = crate::seqs::first_where(strs_view(keys@), str_is(names@[jb]@));
                assert(fa is Some && fb is Some && fa->0 < fb->0);
            }
        }
        assert forall|k: int| 0 <= k < ls.len() implies label_listed(out@, #[trigger] ls[k]) by {
            assert(strs_view(keys@)[k] == keys@[k]@);
            assert(str_in(names@, keys@[k]@));
            let g = choose|g: int| 0 <= g < names@.len() && (#[trigger] names@[g])@ == keys@[k]@;
            assert(crate::rank::contains_index(idx@, g));
            let l = choose|l: int| 0 <= l < idx@.len() && (#[trigger] idx@[l] as int) == g;
            assert(out@[l].name@ == ls[k]);
        }
    }
    out
}

impl Store {
    /// The company labels of the orders created on or after the cutoff
    /// day.
    #[verifier::loop_isolation(false)]
    fn collect_company_labels(&self, cutoff_day: i64) -> (r: Vec<String>)
        requires
            store_inv(self@),
        ensures
            ({
                let ls = window_company_labels(self@.orders, cutoff_day as int);
                r@.len() == ls.len() && forall|k: int|
                    0 <= k < r@.len() ==> (#[trigger] r@[k])@ == ls[k]
            }),
    {
        proof {
            lemma_orders_len_bound(self@);
        }
        let n = self.orders.len();
        let mut out: Vec<String> = Vec::new();
        let mut i: usize = 0;
        while i < n
            invariant
                n == self.orders.len(),
                i <= n,
                ({
                    let ls = window_company_labels(self@.orders.take(i as int), cutoff_day as int);
                    out@.len() == ls.len() && forall|k: int|
                        0 <= k < out@.len() ==> (#[trigger] out@[k])@ == ls[k]
                }),
            decreases n - i,
        {
            proof {
                assert(self@.orders.take(i as int + 1).drop_last() =~= self@.orders.take(i as int));
                assert(self@.orders.take(i as int + 1).last() == self@.orders[i as int]);
                assert(valid_timestamp(self@.orders[i as int].created_at));
                lemma_day_number_bound(self@.orders[i as int].created_at.date);
            }
            let cd = day_number_exec(&self.orders[i].created_at.date);
            if cd as i64 >= cutoff_day {
                let t = crate::text::trim_str(self.orders[i].delivery_company.as_str());
                let label: String = if t.as_str().is_empty() {
                    "(Unknown)".to_owned()
                } else {
                    t
                };
                out.push(label);
                proof {
                    assert(label@ == company_label(self@.orders[i as int]));
                }
            }
            i = i + 1;
        }
        proof {
            assert(self@.orders.take(n as int) =~= self@.orders);
        }
        out
    }

    /// The article names of the orders created on or after the cutoff day;
    /// a zero cutoff takes every order.
    #[verifier::loop_isolation(false)]
    fn collect_articles(&self, cutoff_day: i64) -> (r: Vec<String>)
        requires
            store_inv(self@),
        ensures
            ({
                let ls = window_articles(self@.orders, cutoff_day as int);
                r@.len() == ls.len() && forall|k: int|
                    0 <= k < r@.len() ==> (#[trigger] r@[k])@ == ls[k]
            }),
    {
        let n = self.orders.len();
        let mut out: Vec<String> = Vec::new();
        let mut i: usize = 0;
        while i < n
            invariant
                n == self.orders.len(),
                i <= n,
                ({
                    let ls = window_articles(self@.orders.take(i as int), cutoff_day as int);
                    out@.len() == ls.len() && forall|k: int|
                        0 <= k < out@.len() ==> (#[trigger] out@[k])@ == ls[k]
                }),
            decreases n - i,
        {
            proof {
                assert(self@.orders.take(i as int + 1).drop_last() =~= self@.orders.take(i as int));
                assert(self@.orders.take(i as int + 1).last() == self@.orders[i as int]);
                assert(valid_timestamp(self@.orders[i as int].created_at));
                lemma_day_number_bound(self@.orders[i as int].created_at.date);
            }
            let cd = day_number_exec(&self.orders[i].created_at.date);
            if cd as i64 >= cutoff_day {
                out.push(self.orders[i].article_name.clone());
            }
            i = i + 1;
        }
        proof {
            assert(self@.orders.take(n as int) =~= self@.orders);
        }
        out
    }

    /// The cities of the orders created on or after the cutoff day.
    #[verifier::loop_isolation(false)]
    fn collect_cities(&self, cutoff_day: i64) -> (r: Vec<String>)
        requires
            store_inv(self@),
        ensures
            ({
                let ls = window_cities(self@.orders, cutoff_day as int);
                r@.len() == ls.len() && forall|k: int|
                    0 <= k < r@.len() ==> (#[trigger] r@[k])@ == ls[k]
            }),
    {
        let n = self.orders.len();
        let mut out: Vec<String> = Vec::new();
        let mut i: usize = 0;
        while i < n
            invariant
                n == self.orders.len(),
                i <= n,
                ({
                    let ls = window_cities(self@.orders.take(i as int), cutoff_day as int);
                    out@.len() == ls.len() && forall|k: int|
                        0 <= k < out@.len() ==> (#[trigger] out@[k])@ == ls[k]
                }),
            decreases n - i,
        {
            proof {
                assert(self@.orders.take(i as int + 1).drop_last() =~= self@.orders.take(i as int));
                assert(self@.orders.take(i as int + 1).last() == self@.orders[i as int]);
                assert(valid_timestamp(self@.orders[i as int].created_at));
                lemma_day_number_bound(self@.orders[i as int].created_at.date);
            }
            let cd = day_number_exec(&self.orders[i].created_at.date);
            if cd as i64 >= cutoff_day {
                out.push(self.orders[i].city.clone());
            }
            i = i + 1;
        }
        proof {
            assert(self@.orders.take(n as int) =~= self@.orders);
        }
        out
    }
}

/// The week period key of a row's creation date: the year scaled by one
/// hundred plus the week of the year.
pub open spec fn week_num_of(o: OrderRowV) -> int {
    o.created_at.date.year * 100 + crate::dates::week_of_year(o.created_at.date)
}

/// The month period key of a row's creation date.
pub open spec fn month_num_of(o: OrderRowV) -> int {
    o.created_at.date.year * 100 + o.created_at.date.month
}

/// The week period keys of every row, in row order.
pub open spec fn week_nums_of(orders: Seq<OrderRowV>) -> Seq<u64>
    decreases orders.len(),
{
    if orders.len() == 0 {
        Seq::empty()
    } else {
        week_nums_of(orders.drop_last()).push(week_num_of(orders.last()) as u64)
    }
}

/// The week period keys of every row doubled, with the completion flag in
/// the lowest bit, in row order.
pub open spec fn week_done_nums_of(orders: Seq<OrderRowV>) -> Seq<u64>
    decreases orders.len(),
{
    if orders.len() == 0 {
        Seq::empty()
    } else {
        week_done_nums_of(orders.drop_last()).push(
            (week_num_of(orders.last()) * 2 + if orders.last().done {
                1int
            } else {
                0int
            }) as u64,
        )
    }
}

/// The month period keys of every row, in row order.
pub open spec fn month_nums_of(orders: Seq<OrderRowV>) -> Seq<u64>
    decreases orders.len(),
{
    if orders.len() == 0 {
        Seq::empty()
    } else {
        month_nums_of(orders.drop_last()).push(month_num_of(orders.last()) as u64)
    }
}

/// Whether a series lists the period with the given key.
pub open spec fn period_listed(r: Seq<TimeCount>, k: int) -> bool {
    exists|a: int| 0 <= a < r.len() && (#[trigger] r[a]).period@ == crate::dates::period_label(k)
}

/// Bounds on period keys: year at most 9999 and low part under 100.
proof fn lemma_week_num_bounds(o: OrderRowV)
    requires
        valid_timestamp(o.created_at),
    ensures
        0 <= week_num_of(o) <= 999999,
        0 <= month_num_of(o) <= 999999,
{
    crate::dates::lemma_week_of_year_bounds(o.created_at.date);
}

/// The numeric keys of a series of rows, one per row, grouped and listed
/// ascending with exact counts and a label per key.
#[verifier::loop_isolation(false)]
#[verifier::rlimit(60)]
fn ranked_periods(keys: &Vec<u64>, Ghost(ks): Ghost<Seq<u64>>) -> (r: Vec<TimeCount>)
    requires
        keys@ == ks,
        keys@.len() <= i64::MAX,
        forall|k: int| 0 <= k < keys@.len() ==> #[trigger] keys@[k] <= 999999,
    ensures
        forall|a: int|
            0 <= a < r@.len() ==> {
                let e = #[trigger] r@[a];
                &&& 0 <= crate::dates::label_num(e.period@) <= 999999
                &&& e.period@ == crate::dates::period_label(crate::dates::label_num(e.period@))
                &&& e.count as int == count_where(
                    ks,
                    crate::rank::u64_is(crate::dates::label_num(e.period@) as u64),
                )
                &&& e.count > 0
            },
        forall|a: int, b: int|
            0 <= a < b < r@.len() ==> crate::dates::label_num((#[trigger] r@[a]).period@)
                < crate::dates::label_num((#[trigger] r@[b]).period@),
        forall|i: int| 0 <= i < ks.len() ==> period_listed(r@, #[trigger] ks[i] as int),
{
    let (names, counts) = group_count_u64(keys);
    let m = names.len();
    let mut skeys: Vec<(u64, u64)> = Vec::new();
    let mut x: usize = 0;
    while x < m
        invariant
            m == names@.len(),
            m == counts@.len(),
            x <= m,
            skeys@.len() == x,
            forall|y: int| 0 <= y < x ==> #[trigger] skeys@[y] == (names@[y], 0u64),
        decreases m - x,
    {
        skeys.push((names[x], 0));
        x = x + 1;
    }
    let idx = sort_asc_indices(&skeys);
    let mut out: Vec<TimeCount> = Vec::new();
    let mut a: usize = 0;
    while a < m
        invariant
            m == names@.len(),
            m == counts@.len(),
            m == skeys@.len(),
            forall|y: int| 0 <= y < m ==> #[trigger] skeys@[y] == (names@[y], 0u64),
            crate::rank::is_index_permutation(m as int, idx@),
            crate::rank::ranked_asc(skeys@, idx@),
            a <= m,
            out@.len() == a,
            forall|l: int|
                0 <= l < a ==> (#[trigger] out@[l]).period@ == crate::dates::period_label(
                    names@[idx@[l] as int] as int,
                ) && out@[l].count == counts@[idx@[l] as int],
        decreases m - a,
    {
        let j = idx[a];
        proof {
            assert(crate::rank::u64_in(keys@, names@[j as int]));
            let w = choose|w: int| 0 <= w < keys@.len() && #[trigger] keys@[w] == names@[j as int];
            assert(names@[j as int] <= 999999);
            crate::seqs::lemma_count_bounds(keys@, crate::rank::u64_is(names@[j as int]));
        }
        let label = crate::dates::period_label_exec(names[j] as u32);
        out.push(TimeCount { period: label, count: counts[j] as i64 });
        a = a + 1;
    }
    proof {
        assert forall|y: int| 0 <= y < out@.len() implies {
            let e = #[trigger] out@[y];
            &&& 0 <= crate::dates::label_num(e.period@) <= 999999
            &&& e.period@ == crate::dates::period_label(crate::dates::label_num(e.period@))
            &&& e.count as int == count_where(
                ks,
                crate::rank::u64_is(crate::dates::label_num(e.period@) as u64),
            )
            &&& e.count > 0
        } by {
            let j = idx@[y] as int;
            assert(crate::rank::u64_in(keys@, names@[j]));
            let w = choose|w: int| 0 <= w < keys@.len() && #[trigger] keys@[w] == names@[j];
            crate::dates::lemma_period_label_decode(names@[j] as int);
            crate::seqs::lemma_count_pos(ks, crate::rank::u64_is(names@[j]), w);
        }
        assert forall|y: int, b: int| 0 <= y < b < out@.len() implies crate::dates::label_num(
            (#[trigger] out@[y]).period@,
        ) < crate::dates::label_num((#[trigger] out@[b]).period@) by {
            let jy = idx@[y] as int;
            let jb = idx@[b] as int;
            assert(crate::rank::u64_in(keys@, names@[jy]));
            assert(crate::rank::u64_in(keys@, names@[jb]));
            let wy = choose|w: int| 0 <= w < keys@.len() && #[trigger] keys@[w] == names@[jy];
            let wb = choose|w: int| 0 <= w < keys@.len() && #[trigger] keys@[w] == names@[jb];
            crate::dates::lemma_period_label_decode(names@[jy] as int);
            crate::dates::lemma_period_label_decode(names@[jb] as int);
            assert(crate::rank::key_lt(skeys@[jy], skeys@[jb]) || (skeys@[jy] == skeys@[jb]
                && idx@[y] < idx@[b]));
            if skeys@[jy] == skeys@[jb] {
                if jy < jb {
                    assert(names@[jy] != names@[jb]);
                } else if jb < jy {
                    assert(names@[jb] != names@[jy]);
                }
                assert(false);
            }
        }
        assert forall|i: int| 0 <= i < ks.len() implies period_listed(
            out@,
            #[trigger] ks[i] as int,
        ) by {
            assert(crate::rank::u64_in(names@, keys@[i]));
            let g = choose|g: int| 0 <= g < names@.len() && #[trigger] names@[g] == keys@[i];
            assert(crate::rank::contains_index(idx@, g));
            let l = choose|l: int| 0 <= l < idx@.len() && (#[trigger] idx@[l] as int) == g;
            assert(out@[l].period@ == crate::dates::period_label(ks[i] as int));
        }
    }
    out
}

impl Store {
    /// The week period keys of every order, in row order.
    #[verifier::loop_isolation(false)]
    fn collect_week_nums(&self) -> (r: Vec<u64>)
        requires
            store_inv(self@),
        ensures
            r@ == week_nums_of(self@.orders),
            forall|k: int| 0 <= k < r@.len() ==> #[trigger] r@[k] <= 999999,
    {
        let n = self.orders.len();
        let mut out: Vec<u64> = Vec::new();
        let mut i: usize = 0;
        while i < n
            invariant
                n == self.orders.len(),
                i <= n,
                out@ =~= week_nums_of(self@.orders.take(i as int)),
                forall|k: int| 0 <= k < out@.len() ==> #[trigger] out@[k] <= 999999,
            decreases n - i,
        {
            proof {
                assert(self@.orders.take(i as int + 1).drop_last() =~= self@.orders.take(i as int));
                assert(self@.orders.take(i as int + 1).last() == self@.orders[i as int]);
                assert(valid_timestamp(self@.orders[i as int].created_at));
                lemma_week_num_bounds(self@.orders[i as int]);
            }
            let d = self.orders[i].created_at.date;
            let wk = crate::dates::week_of_year_exec(&d);
            out.push((d.year as u64) * 100 + (wk as u64));
            proof {
                assert(out@ =~= week_nums_of(self@.orders.take(i as int + 1)));
            }
            i = i + 1;
        }
        proof {
            assert(self@.orders.take(n as int) =~= self@.orders);
        }
        out
    }

    /// The doubled week keys carrying the completion flag, in row order.
    #[verifier::loop_isolation(false)]
    fn collect_week_done_nums(&self) -> (r: Vec<u64>)
        requires
            store_inv(self@),
        ensures
            r@ == week_done_nums_of(self@.orders),
            forall|k: int| 0 <= k < r@.len() ==> #[trigger] r@[k] <= 1999999,
    {
        let n = self.orders.len();
        let mut out: Vec<u64> = Vec::new();
        let mut i: usize = 0;
        while i < n
            invariant
                n == self.orders.len(),
                i <= n,
                out@ =~= week_done_nums_of(self@.orders.take(i as int)),
                forall|k: int| 0 <= k < out@.len() ==> #[trigger] out@[k] <= 1999999,
            decreases n - i,
        {
            proof {
                assert(self@.orders.take(i as int + 1).drop_last() =~= self@.orders.take(i as int));
                assert(self@.orders.take(i as int + 1).last() == self@.orders[i as int]);
                assert(valid_timestamp(self@.orders[i as int].created_at));
                lemma_week_num_bounds(self@.orders[i as int]);
            }
            let d = self.orders[i].created_at.date;
            let wk = crate::dates::week_of_year_exec(&d);
            let base = (d.year as u64) * 100 + (wk as u64);
            let key = base * 2 + if self.orders[i].done {
                1
            } else {
                0
            };
            out.push(key);
            proof {
                assert(out@ =~= week_done_nums_of(self@.orders.take(i as int + 1)));
            }
            i = i + 1;
        }
        proof {
            assert(self@.orders.take(n as int) =~= self@.orders);
        }
        out
    }

    /// Weekly creation counts: one entry per week that saw an order, in
    /// week order.
    #[verifier::loop_isolation(false)]
    #[verifier::rlimit(100)]
    fn orders_over_time_weekly(&self) -> (r: Vec<TimeCount>)
        requires
            store_inv(self@),
        ensures
            weekly_series_ok(self@.orders, r@),
    {
        proof {
            lemma_orders_len_bound(self@);
            lemma_week_nums_len(self@.orders);
        }
        let keys = self.collect_week_nums();
        let r = ranked_periods(&keys, Ghost(keys@));
        proof {
            assert forall|i: int| 0 <= i < self@.orders.len() implies period_listed(
                r@,
                week_num_of(#[trigger] self@.orders[i]),
            ) by {
                lemma_week_nums_index(self@.orders, i);
                assert(valid_timestamp(self@.orders[i].created_at));
                lemma_week_num_bounds(self@.orders[i]);
                assert(week_nums_of(self@.orders)[i] as int == week_num_of(self@.orders[i]));
            }
        }
        r
    }
}

/// The combined week-and-done key an entry of the split series spells.
pub open spec fn tdc_key(e: TimeDoneCount) -> int {
    crate::dates::label_num(e.period@) * 2 + if e.done {
        1int
    } else {
        0int
    }
}

/// Whether the split series lists the given combined key.
pub open spec fn tdc_listed(r: Seq<TimeDoneCount>, k: int) -> bool {
    exists|a: int| 0 <= a < r.len() && tdc_key(#[trigger] r[a]) == k
}

/// Whether the histogram lists the given lead time.
pub open spec fn lead_listed(r: Seq<LeadTimeBin>, v: i64) -> bool {
    exists|a: int| 0 <= a < r.len() && (#[trigger] r[a]).lead_days == v
}

/// The offset that encodes a lead time as an unsigned key.
pub open spec fn lead_key_of(v: i64) -> u64 {
    (v + 3700000) as u64
}

proof fn lemma_lead_counts(leads: Seq<i64>, enc: Seq<u64>, v: i64)
    requires
        enc.len() == leads.len(),
        forall|k: int| 0 <= k < leads.len() ==> -3700000 < #[trigger] leads[k] < 3700000,
        forall|k: int| 0 <= k < enc.len() ==> #[trigger] enc[k] == lead_key_of(leads[k]),
        -3700000 < v < 3700000,
    ensures
        count_where(enc, crate::rank::u64_is(lead_key_of(v))) == count_where(leads, i64_is(v)),
    decreases leads.len(),
{
    if leads.len() > 0 {
        let l1 = leads.drop_last();
        let e1 = enc.drop_last();
        assert(forall|k: int| 0 <= k < l1.len() ==> -3700000 < #[trigger] l1[k] < 3700000);
        assert(forall|k: int| 0 <= k < e1.len() ==> #[trigger] e1[k] == lead_key_of(l1[k]));
        lemma_lead_counts(l1, e1, v);
        assert(enc.last() == lead_key_of(leads.last()));
        assert(crate::rank::u64_is(lead_key_of(v))(enc.last()) == i64_is(v)(leads.last()));
    }
}

impl Store {
    /// Weekly creation counts split by the completion flag: one entry per
    /// week and flag that saw an order, weeks ascending and, within a
    /// week, open before done.
    #[verifier::loop_isolation(false)]
    #[verifier::rlimit(100)]
    fn orders_over_time_weekly_by_done(&self) -> (r: Vec<TimeDoneCount>)
        requires
            store_inv(self@),
        ensures
            weekly_done_series_ok(self@.orders, r@),
    {
        proof {
            lemma_orders_len_bound(self@);
            lemma_week_nums_len(self@.orders);
        }
        let keys = self.collect_week_done_nums();
        let (names, counts) = group_count_u64(&keys);
        let m = names.len();
        let mut skeys: Vec<(u64, u64)> = Vec::new();
        let mut x: usize = 0;
        while x < m
            invariant
                m == names@.len(),
                m == counts@.len(),
                x <= m,
                skeys@.len() == x,
                forall|y: int| 0 <= y < x ==> #[trigger] skeys@[y] == (names@[y], 0u64),
            decreases m - x,
        {
            skeys.push((names[x], 0));
            x = x + 1;
        }
        let idx = sort_asc_indices(&skeys);
        let mut out: Vec<TimeDoneCount> = Vec::new();
        let mut a: usize = 0;
        while a < m
            invariant
                m == names@.len(),
                m == counts@.len(),
                m == skeys@.len(),
                forall|y: int| 0 <= y < m ==> #[trigger] skeys@[y] == (names@[y], 0u64),
                crate::rank::is_index_permutation(m as int, idx@),
                crate::rank::ranked_asc(skeys@, idx@),
                keys@ == week_done_nums_of(self@.orders),
                forall|k: int| 0 <= k < keys@.len() ==> #[trigger] keys@[k] <= 1999999,
                forall|a2: int| 0 <= a2 < m ==> crate::rank::u64_in(keys@, #[trigger] names@[a2]),
                forall|a2: int|
                    0 <= a2 < m ==> (#[trigger] counts@[a2]) as int == count_where(
                        keys@,
                        crate::rank::u64_is(names@[a2]),
                    ),
                forall|a2: int, b2: int| 0 <= a2 < b2 < m ==> #[trigger] names@[a2]
                    != #[trigger] names@[b2],
                forall|i: int| 0 <= i < keys@.len() ==> crate::rank::u64_in(
                    names@,
                    #[trigger] keys@[i],
                ),
                a <= m,
                out@.len() == a,
                forall|l: int|
                    0 <= l < a ==> (#[trigger] out@[l]).period@ == crate::dates::period_label(
                        (names@[idx@[l] as int] / 2) as int,
                    ) && out@[l].done == (names@[idx@[l] as int] % 2 == 1) && out@[l].count
                        == counts@[idx@[l] as int],
            decreases m - a,
        {
            let j = idx[a];
            proof {
                assert(crate::rank::u64_in(keys@, names@[j as int]));
                let w = choose|w: int|
                    0 <= w < keys@.len() && #[trigger] keys@[w] == names@[j as int];
                assert(names@[j as int] <= 1999999);
                crate::seqs::lemma_count_bounds(keys@, crate::rank::u64_is(names@[j as int]));
            }
            let label = crate::dates::period_label_exec((names[j] / 2) as u32);
            out.push(
                TimeDoneCount { period: label, done: names[j] % 2 == 1, count: counts[j] as i64 },
            );
            a = a + 1;
        }
        proof {
            assert forall|y: int| 0 <= y < out@.len() implies {
                let e = #[trigger] out@[y];
                &&& e.period@ == crate::dates::period_label(crate::dates::label_num(e.period@))
                &&& e.count as int == count_where(
                    week_done_nums_of(self@.orders),
                    crate::rank::u64_is(tdc_key(e) as u64),
                )
                &&& e.count > 0
            } by {
                let j = idx@[y] as int;
                assert(crate::rank::u64_in(keys@, names@[j]));
                let w = choose|w: int| 0 <= w < keys@.len() && #[trigger] keys@[w] == names@[j];
                crate::dates::lemma_period_label_decode((names@[j] / 2) as int);
                assert(tdc_key(out@[y]) == names@[j] as int);
                crate::seqs::lemma_count_pos(keys@, crate::rank::u64_is(names@[j]), w);
            }
            assert forall|y: int, b: int| 0 <= y < b < out@.len() implies tdc_key(
                #[trigger] out@[y],
            ) < tdc_key(#[trigger] out@[b]) by {
                let jy = idx@[y] as int;
                let jb = idx@[b] as int;
                crate::dates::lemma_period_label_decode((names@[jy] / 2) as int);
                crate::dates::lemma_period_label_decode((names@[jb] / 2) as int);
                assert(tdc_key(out@[y]) == names@[jy] as int);
                assert(tdc_key(out@[b]) == names@[jb] as int);
                assert(crate::rank::key_lt(skeys@[jy], skeys@[jb]) || (skeys@[jy] == skeys@[jb]
                    && idx@[y] < idx@[b]));
                if skeys@[jy] == skeys@[jb] {
                    if jy < jb {
                        assert(names@[jy] != names@[jb]);
                    } else if jb < jy {
                        assert(names@[jb] != names@[jy]);
                    }
                    assert(false);
                }
            }
            assert forall|i: int| 0 <= i < self@.orders.len() implies tdc_listed(
                out@,
                week_num_of(#[trigger] self@.orders[i]) * 2 + if self@.orders[i].done {
                    1int
                } else {
                    0int
                },
            ) by {
                lemma_week_nums_index(self@.orders, i);
                assert(valid_timestamp(self@.orders[i].created_at));
                lemma_week_num_bounds(self@.orders[i]);
                let k = week_num_of(self@.orders[i]) * 2 + if self@.orders[i].done {
                    1int
                } else {
                    0int
                };
                assert(keys@[i] == k as u64);
                assert(crate::rank::u64_in(names@, keys@[i]));
                let g = choose|g: int| 0 <= g < names@.len() && #[trigger] names@[g] == keys@[i];
                assert(crate::rank::contains_index(idx@, g));
                let l = choose|l: int| 0 <= l < idx@.len() && (#[trigger] idx@[l] as int) == g;
                crate::dates::lemma_period_label_decode((names@[g] / 2) as int);
                assert(tdc_key(out@[l]) == k);
            }
        }
        out
    }

    /// The lead-time histogram: each whole-day lead time that occurs, with
    /// its count, ascending.
    #[verifier::loop_isolation(false)]
    #[verifier::rlimit(100)]
    fn lead_time_histogram(&self) -> (r: Vec<LeadTimeBin>)
        requires
            store_inv(self@),
        ensures
            histogram_ok(self@.orders, r@),
    {
        proof {
            lemma_orders_len_bound(self@);
            lemma_leads_len(self@.orders);
        }
        let leads = self.collect_leads();
        let ln = leads.len();
        let mut keys: Vec<u64> = Vec::new();
        let mut i: usize = 0;
        while i < ln
            invariant
                ln == leads@.len(),
                forall|k: int| 0 <= k < leads@.len() ==> -3700000 < #[trigger] leads@[k] < 3700000,
                i <= ln,
                keys@.len() == i,
                forall|k: int| 0 <= k < i ==> #[trigger] keys@[k] == lead_key_of(leads@[k]),
            decreases ln - i,
        {
            keys.push((leads[i] + 3700000) as u64);
            i = i + 1;
        }
        let (names, counts) = group_count_u64(&keys);
        let m = names.len();
        let mut skeys: Vec<(u64, u64)> = Vec::new();
        let mut x: usize = 0;
        while x < m
            invariant
                m == names@.len(),
                m == counts@.len(),
                x <= m,
                skeys@.len() == x,
                forall|y: int| 0 <= y < x ==> #[trigger] skeys@[y] == (names@[y], 0u64),
            decreases m - x,
        {
            skeys.push((names[x], 0));
            x = x + 1;
        }
        let idx = sort_asc_indices(&skeys);
        let mut out: Vec<LeadTimeBin> = Vec::new();
        let mut a: usize = 0;
        while a < m
            invariant
                m == names@.len(),
                m == counts@.len(),
                m == skeys@.len(),
                forall|y: int| 0 <= y < m ==> #[trigger] skeys@[y] == (names@[y], 0u64),
                crate::rank::is_index_permutation(m as int, idx@),
                crate::rank::ranked_asc(skeys@, idx@),
                ln == leads@.len(),
                leads@ == leads_of(self@.orders),
                keys@.len() == ln,
                forall|k: int| 0 <= k < leads@.len() ==> -3700000 < #[trigger] leads@[k] < 3700000,
                forall|k: int| 0 <= k < keys@.len() ==> #[trigger] keys@[k] == lead_key_of(
                    leads@[k],
                ),
                forall|a2: int| 0 <= a2 < m ==> crate::rank::u64_in(keys@, #[trigger] names@[a2]),
                forall|a2: int|
                    0 <= a2 < m ==> (#[trigger] counts@[a2]) as int == count_where(
                        keys@,
                        crate::rank::u64_is(names@[a2]),
                    ),
                forall|a2: int, b2: int| 0 <= a2 < b2 < m ==> #[trigger] names@[a2]
                    != #[trigger] names@[b2],
                forall|k: int| 0 <= k < keys@.len() ==> crate::rank::u64_in(
                    names@,
                    #[trigger] keys@[k],
                ),
                a <= m,
                out@.len() == a,
                forall|l: int|
                    0 <= l < a ==> (#[trigger] out@[l]).lead_days as int == names@[idx@[l] as int]
                        - 3700000 && out@[l].count == counts@[idx@[l] as int],
        decreases m - a,
        {
            let j = idx[a];
            proof {
                assert(crate::rank::u64_in(keys@, names@[j as int]));
                let w = choose|w: int|
                    0 <= w < keys@.len() && #[trigger] keys@[w] == names@[j as int];
                assert(keys@[w] == lead_key_of(leads@[w]));
                assert(names@[j as int] < 7400000);
                crate::seqs::lemma_count_bounds(keys@, crate::rank::u64_is(names@[j as int]));
            }
            out.push(LeadTimeBin { lead_days: (names[j] as i64) - 3700000, count: counts[j] as i64 });
            a = a + 1;
        }
        proof {
            assert forall|y: int| 0 <= y < out@.len() implies {
                let e = #[trigger] out@[y];
                &&& -3700000 < e.lead_days < 3700000
                &&& e.count as int == count_where(leads_of(self@.orders), i64_is(e.lead_days))
                &&& e.count > 0
            } by {
                let j = idx@[y] as int;
                assert(crate::rank::u64_in(keys@, names@[j]));
                let w = choose|w: int| 0 <= w < keys@.len() && #[trigger] keys@[w] == names@[j];
                assert(keys@[w] == lead_key_of(leads@[w]));
                assert(out@[y].lead_days == leads@[w]);
                lemma_lead_counts(leads@, keys@, out@[y].lead_days);
                assert(lead_key_of(out@[y].lead_days) == names@[j]);
                crate::seqs::lemma_count_pos(keys@, crate::rank::u64_is(names@[j]), w);
            }
            assert forall|y: int, b: int| 0 <= y < b < out@.len() implies (
            #[trigger] out@[y]).lead_days < (#[trigger] out@[b]).lead_days by {
                let jy = idx@[y] as int;
                let jb = idx@[b] as int;
                assert(crate::rank::key_lt(skeys@[jy], skeys@[jb]) || (skeys@[jy] == skeys@[jb]
                    && idx@[y] < idx@[b]));
                if skeys@[jy] == skeys@[jb] {
                    if jy < jb {
                        assert(names@[jy] != names@[jb]);
                    } else if jb < jy {
                        assert(names@[jb] != names@[jy]);
                    }
                    assert(false);
                }
            }
            assert forall|i2: int| 0 <= i2 < leads_of(self@.orders).len() implies lead_listed(
                out@,
                #[trigger] leads_of(self@.orders)[i2],
            ) by {
                assert(keys@[i2] == lead_key_of(leads@[i2]));
                assert(crate::rank::u64_in(names@, keys@[i2]));
                let g = choose|g: int| 0 <= g < names@.len() && #[trigger] names@[g] == keys@[i2];
                assert(crate::rank::contains_index(idx@, g));
                let l = choose|l: int| 0 <= l < idx@.len() && (#[trigger] idx@[l] as int) == g;
                assert(out@[l].lead_days == leads@[i2]);
            }
        }
        out
    }
}

/// The earliest creation of a phone's orders, as a day number and that
/// day's month key, least pair first; a large sentinel where the phone
/// never ordered.
pub open spec fn phone_first_pair(orders: Seq<OrderRowV>, phone: Seq<char>) -> (int, int)
    decreases orders.len(),
{
    if orders.len() == 0 {
        (4000000, 0)
    } else {
        let rest = phone_first_pair(orders.drop_last(), phone);
        if orders.last().phone == phone {
            let d = day_number(orders.last().created_at.date);
            let m = month_num_of(orders.last());
            if d < rest.0 || (d == rest.0 && m < rest.1) {
                (d, m)
            } else {
                rest
            }
        } else {
            rest
        }
    }
}

/// Row `i` introduces a phone whose first-ever order falls in month `k`:
/// the phone counts as new in that month, once.
pub open spec fn month_new_p(orders: Seq<OrderRowV>, k: int) -> spec_fn(int) -> bool {
    |i: int|
        0 <= i < orders.len() && first_of_phone(orders, i) && phone_first_pair(
            orders,
            orders[i].phone,
        ).1 == k
}

/// An order in month `k` from a phone whose first-ever order fell in an
/// earlier month: it counts as returning.
pub open spec fn month_ret_is(orders: Seq<OrderRowV>, k: int) -> spec_fn(OrderRowV) -> bool {
    |o: OrderRowV| month_num_of(o) == k && phone_first_pair(orders, o.phone).1 < k
}

/// Whether the cohort series lists the given month key.
pub open spec fn month_listed(r: Seq<(String, i64, i64)>, k: int) -> bool {
    exists|a: int| 0 <= a < r.len() && (#[trigger] r[a]).0@ == crate::dates::period_label(k)
}

impl Store {
    /// The least day-and-month pair among this phone's orders.
    #[verifier::loop_isolation(false)]
    fn phone_first_exec(&self, phone: &str) -> (r: (u32, u32))
        requires
            store_inv(self@),
        ensures
            (r.0 as int, r.1 as int) == phone_first_pair(self@.orders, phone@),
    {
        let n = self.orders.len();
        let mut day: u32 = 4000000;
        let mut mn: u32 = 0;
        let mut i: usize = 0;
        while i < n
            invariant
                n == self.orders.len(),
                i <= n,
                (day as int, mn as int) == phone_first_pair(self@.orders.take(i as int), phone@),
            decreases n - i,
        {
            proof {
                assert(self@.orders.take(i as int + 1).drop_last() =~= self@.orders.take(i as int));
                assert(self@.orders.take(i as int + 1).last() == self@.orders[i as int]);
                assert(valid_timestamp(self@.orders[i as int].created_at));
                lemma_day_number_bound(self@.orders[i as int].created_at.date);
                lemma_week_num_bounds(self@.orders[i as int]);
            }
            if crate::text::str_eq(self.orders[i].phone.as_str(), phone) {
                let d = day_number_exec(&self.orders[i].created_at.date);
                let dd = self.orders[i].created_at.date;
                let m = dd.year * 100 + dd.month;
                if d < day || (d == day && m < mn) {
                    day = d;
                    mn = m;
                }
            }
            i = i + 1;
        }
        proof {
            assert(self@.orders.take(n as int) =~= self@.orders);
        }
        (day, mn)
    }

    /// How many phones' first-ever order falls in month `k`.
    #[verifier::loop_isolation(false)]
    fn count_new_in_month(&self, k: u32) -> (c: i64)
        requires
            store_inv(self@),
        ensures
            c as int == count_range(self@.orders.len() as int, month_new_p(self@.orders, k as int)),
    {
        proof {
            lemma_orders_len_bound(self@);
        }
        let ghost p = month_new_p(self@.orders, k as int);
        let n = self.orders.len();
        let mut c: i64 = 0;
        let mut i: usize = 0;
        while i < n
            invariant
                n == self.orders.len(),
                i <= n,
                c as int == count_range(i as int, p),
            decreases n - i,
        {
            proof {
                lemma_count_range_bounds(i as int, p);
            }
            let mut first = true;
            let mut j: usize = 0;
            while j < i
                invariant
                    j <= i <= n,
                    first == (forall|x: int|
                        0 <= x < j ==> (#[trigger] self@.orders[x]).phone
                            != self@.orders[i as int].phone),
                decreases i - j,
            {
                if crate::text::str_eq(self.orders[j].phone.as_str(), self.orders[i].phone.as_str())
                    {
                    proof {
                        assert(self@.orders[j as int].phone == self@.orders[i as int].phone);
                    }
                    first = false;
                    j = i;
                } else {
                    j = j + 1;
                }
            }
            if first {
                let pf = self.phone_first_exec(self.orders[i].phone.as_str());
                if pf.1 == k {
                    proof {
                        assert(p(i as int));
                    }
                    c = c + 1;
                } else {
                    proof {
                        assert(!p(i as int));
                    }
                }
            } else {
                proof {
                    let w = choose|x: int|
                        0 <= x < i && (#[trigger] self@.orders[x]).phone
                            == self@.orders[i as int].phone;
                    assert(!first_of_phone(self@.orders, i as int));
                    assert(!p(i as int));
                }
            }
            i = i + 1;
        }
        c
    }

    /// How many orders of month `k` come from phones first seen earlier.
    #[verifier::loop_isolation(false)]
    fn count_returning_in_month(&self, k: u32) -> (c: i64)
        requires
            store_inv(self@),
        ensures
            c as int == count_where(self@.orders, month_ret_is(self@.orders, k as int)),
    {
        proof {
            lemma_orders_len_bound(self@);
        }
        let ghost p = month_ret_is(self@.orders, k as int);
        let n = self.orders.len();
        let mut c: i64 = 0;
        let mut i: usize = 0;
        while i < n
            invariant
                n == self.orders.len(),
                i <= n,
                c as int == count_where(self@.orders.take(i as int), p),
            decreases n - i,
        {
            proof {
                lemma_count_take_step(self@.orders, p, i as int);
                lemma_count_bounds(self@.orders.take(i as int), p);
                assert(valid_timestamp(self@.orders[i as int].created_at));
                lemma_week_num_bounds(self@.orders[i as int]);
            }
            let dd = self.orders[i].created_at.date;
            let m = dd.year * 100 + dd.month;
            if m == k {
                let pf = self.phone_first_exec(self.orders[i].phone.as_str());
                if pf.1 < k {
                    c = c + 1;
                }
            }
            i = i + 1;
        }
        proof {
            assert(self@.orders.take(n as int) =~= self@.orders);
        }
        c
    }

    /// The month period keys of every order, in row order.
    #[verifier::loop_isolation(false)]
    fn collect_month_nums(&self) -> (r: Vec<u64>)
        requires
            store_inv(self@),
        ensures
            r@ == month_nums_of(self@.orders),
            forall|k: int| 0 <= k < r@.len() ==> #[trigger] r@[k] <= 999999,
    {
        let n = self.orders.len();
        let mut out: Vec<u64> = Vec::new();
        let mut i: usize = 0;
        while i < n
            invariant
                n == self.orders.len(),
                i <= n,
                out@ =~= month_nums_of(self@.orders.take(i as int)),
                forall|k: int| 0 <= k < out@.len() ==> #[trigger] out@[k] <= 999999,
            decreases n - i,
        {
            proof {
                assert(self@.orders.take(i as int + 1).drop_last() =~= self@.orders.take(i as int));
                assert(self@.orders.take(i as int + 1).last() == self@.orders[i as int]);
                assert(valid_timestamp(self@.orders[i as int].created_at));
                lemma_week_num_bounds(self@.orders[i as int]);
            }
            let d = self.orders[i].created_at.date;
            out.push((d.year as u64) * 100 + (d.month as u64));
            proof {
                assert(out@ =~= month_nums_of(self@.orders.take(i as int + 1)));
            }
            i = i + 1;
        }
        proof {
            assert(self@.orders.take(n as int) =~= self@.orders);
        }
        out
    }

    /// The monthly cohort series: for each month with at least one order,
    /// how many phones placed their first-ever order then, and how many
    /// orders came from phones first seen in an earlier month; months
    /// ascending. A phone counts as new in exactly one month.
    #[verifier::loop_isolation(false)]
    #[verifier::rlimit(100)]
    fn new_vs_returning_monthly(&self) -> (r: Vec<(String, i64, i64)>)
        requires
            store_inv(self@),
        ensures
            monthly_cohort_ok(self@.orders, r@),
    {
        proof {
            lemma_orders_len_bound(self@);
            lemma_week_nums_len(self@.orders);
        }
        let keys = self.collect_month_nums();
        let (names, _counts) = group_count_u64(&keys);
        let m = names.len();
        let mut skeys: Vec<(u64, u64)> = Vec::new();
        let mut x: usize = 0;
        while x < m
            invariant
                m == names@.len(),
                x <= m,
                skeys@.len() == x,
                forall|y: int| 0 <= y < x ==> #[trigger] skeys@[y] == (names@[y], 0u64),
            decreases m - x,
        {
            skeys.push((names[x], 0));
            x = x + 1;
        }
        let idx = sort_asc_indices(&skeys);
        let mut out: Vec<(String, i64, i64)> = Vec::new();
        let mut a: usize = 0;
        while a < m
            invariant
                m == names@.len(),
                m == skeys@.len(),
                forall|y: int| 0 <= y < m ==> #[trigger] skeys@[y] == (names@[y], 0u64),
                crate::rank::is_index_permutation(m as int, idx@),
                crate::rank::ranked_asc(skeys@, idx@),
                keys@ == month_nums_of(self@.orders),
                forall|k: int| 0 <= k < keys@.len() ==> #[trigger] keys@[k] <= 999999,
                forall|a2: int| 0 <= a2 < m ==> crate::rank::u64_in(keys@, #[trigger] names@[a2]),
                forall|a2: int, b2: int| 0 <= a2 < b2 < m ==> #[trigger] names@[a2]
                    != #[trigger] names@[b2],
                forall|k: int| 0 <= k < keys@.len() ==> crate::rank::u64_in(
                    names@,
                    #[trigger] keys@[k],
                ),
                a <= m,
                out@.len() == a,
                forall|l: int|
                    0 <= l < a ==> {
                        let e = #[trigger] out@[l];
                        &&& e.0@ == crate::dates::period_label(names@[idx@[l] as int] as int)
                        &&& e.1 as int == count_range(
                            self@.orders.len() as int,
                            month_new_p(self@.orders, names@[idx@[l] as int] as int),
                        )
                        &&& e.2 as int == count_where(
                            self@.orders,
                            month_ret_is(self@.orders, names@[idx@[l] as int] as int),
                        )
                    },
            decreases m - a,
        {
            let j = idx[a];
            proof {
                assert(crate::rank::u64_in(keys@, names@[j as int]));
                let w = choose|w: int|
                    0 <= w < keys@.len() && #[trigger] keys@[w] == names@[j as int];
                assert(names@[j as int] <= 999999);
            }
            let label = crate::dates::period_label_exec(names[j] as u32);
            let nw = self.count_new_in_month(names[j] as u32);
            let rt = self.count_returning_in_month(names[j] as u32);
            out.push((label, nw, rt));
            a = a + 1;
        }
        proof {
            assert forall|y: int| 0 <= y < out@.len() implies {
                let e = #[trigger] out@[y];
                &&& e.0@ == crate::dates::period_label(crate::dates::label_num(e.0@))
                &&& e.1 as int == count_range(
                    self@.orders.len() as int,
                    month_new_p(self@.orders, crate::dates::label_num(e.0@)),
                )
                &&& e.2 as int == count_where(
                    self@.orders,
                    month_ret_is(self@.orders, crate::dates::label_num(e.0@)),
                )
            } by {
                let j = idx@[y] as int;
                crate::dates::lemma_period_label_decode(names@[j] as int);
            }
            assert forall|y: int, b: int| 0 <= y < b < out@.len() implies crate::dates::label_num(
                (#[trigger] out@[y]).0@,
            ) < crate::dates::label_num((#[trigger] out@[b]).0@) by {
                let jy = idx@[y] as int;
                let jb = idx@[b] as int;
                crate::dates::lemma_period_label_decode(names@[jy] as int);
                crate::dates::lemma_period_label_decode(names@[jb] as int);
                assert(crate::rank::key_lt(skeys@[jy], skeys@[jb]) || (skeys@[jy] == skeys@[jb]
                    && idx@[y] < idx@[b]));
                if skeys@[jy] == skeys@[jb] {
                    if jy < jb {
                        assert(names@[jy] != names@[jb]);
                    } else if jb < jy {
                        assert(names@[jb] != names@[jy]);
                    }
                    assert(false);
                }
            }
            assert forall|i: int| 0 <= i < self@.orders.len() implies month_listed(
                out@,
                month_num_of(#[trigger] self@.orders[i]),
            ) by {
                lemma_week_nums_index(self@.orders, i);
                assert(valid_timestamp(self@.orders[i].created_at));
                lemma_week_num_bounds(self@.orders[i]);
                assert(keys@[i] == month_num_of(self@.orders[i]) as u64);
                assert(crate::rank::u64_in(names@, keys@[i]));
                let g = choose|g: int| 0 <= g < names@.len() && #[trigger] names@[g] == keys@[i];
                assert(crate::rank::contains_index(idx@, g));
                let l = choose|l: int| 0 <= l < idx@.len() && (#[trigger] idx@[l] as int) == g;
                assert(out@[l].0@ == crate::dates::period_label(
                    month_num_of(self@.orders[i]),
                ));
            }
        }
        out
    }
}

/// The week period key of a calendar date.
pub open spec fn date_week_num(d: Date) -> int {
    d.year * 100 + crate::dates::week_of_year(d)
}

/// The schedule rows: open orders whose delivery date parses and falls
/// within twelve weeks from today, as pairs of the delivery week key and
/// the company label, in row order.
pub open spec fn sched_pairs_of(orders: Seq<OrderRowV>, today: int) -> Seq<(u64, Seq<char>)>
    decreases orders.len(),
{
    if orders.len() == 0 {
        Seq::empty()
    } else {
        sched_pairs_of(orders.drop_last(), today) + ({
            let o = orders.last();
            if !o.done && (parse_date_spec(o.delivery_date) matches Some(d) && today <= day_number(
                d,
            ) && day_number(d) <= today + 84) {
                seq![
                    (
                        date_week_num(parse_date_spec(o.delivery_date)->0) as u64,
                        company_label(o),
                    ),
                ]
            } else {
                Seq::empty()
            }
        })
    }
}

/// The predicate of a schedule pair with the given week key and company
/// label.
pub open spec fn pair_is(k: u64, l: Seq<char>) -> spec_fn((u64, Seq<char>)) -> bool {
    |p: (u64, Seq<char>)| p.0 == k && p.1 == l
}

/// Whether the schedule lists the given week key and company label.
pub open spec fn sched_listed(r: Seq<ScheduleItem>, k: int, l: Seq<char>) -> bool {
    exists|a: int|
        0 <= a < r.len() && (#[trigger] r[a]).week@ == crate::dates::period_label(k)
            && r[a].company@ == l
}

/// The schedule order: earlier weeks first, then company labels in
/// lexicographic order.
pub open spec fn sched_lt(k1: u64, l1: Seq<char>, k2: u64, l2: Seq<char>) -> bool {
    k1 < k2 || (k1 == k2 && crate::text::lex_lt(l1, l2))
}

/// Whether some grouped pair equals the given week key and label.
pub open spec fn group_has(ws: Seq<u64>, ls: Seq<String>, k: u64, l: Seq<char>) -> bool {
    exists|a: int| 0 <= a < ws.len() && #[trigger] ws[a] == k && ls[a]@ == l
}

proof fn lemma_leads_len(orders: Seq<OrderRowV>)
    ensures
        leads_of(orders).len() <= orders.len(),
    decreases orders.len(),
{
    if orders.len() > 0 {
        lemma_leads_len(orders.drop_last());
    }
}

proof fn lemma_sched_len(orders: Seq<OrderRowV>, today: int)
    ensures
        sched_pairs_of(orders, today).len() <= orders.len(),
    decreases orders.len(),
{
    if orders.len() > 0 {
        lemma_sched_len(orders.drop_last(), today);
    }
}

proof fn lemma_week_nums_len(orders: Seq<OrderRowV>)
    ensures
        week_nums_of(orders).len() == orders.len(),
        week_done_nums_of(orders).len() == orders.len(),
        month_nums_of(orders).len() == orders.len(),
    decreases orders.len(),
{
    if orders.len() > 0 {
        lemma_week_nums_len(orders.drop_last());
    }
}

proof fn lemma_week_nums_index(orders: Seq<OrderRowV>, i: int)
    requires
        0 <= i < orders.len(),
    ensures
        week_nums_of(orders)[i] as int == week_num_of(orders[i]) as u64 as int,
        week_done_nums_of(orders)[i] == (week_num_of(orders[i]) * 2 + if orders[i].done {
            1int
        } else {
            0int
        }) as u64,
        month_nums_of(orders)[i] as int == month_num_of(orders[i]) as u64 as int,
    decreases orders.len(),
{
    lemma_week_nums_len(orders);
    if orders.len() > 0 {
        lemma_week_nums_len(orders.drop_last());
        if i < orders.len() - 1 {
            lemma_week_nums_index(orders.drop_last(), i);
        }
    }
}


/// The schedule pair of one row, where the row belongs on the schedule:
/// open, with a well-formed delivery date within twelve weeks of today.
fn sched_pair_of_row(o: &crate::model::OrderRow, today_n: u32, Ghost(today_local): Ghost<Date>)
    -> (r: Option<(u64, String)>)
    requires
        valid_date(today_local),
        today_n == day_number(today_local),
    ensures
        r is Some <==> (!o@.done && (parse_date_spec(o@.delivery_date) matches Some(d)
            && today_n as int <= day_number(d) && day_number(d) <= today_n as int + 84)),
        r matches Some(p) ==> p.0 as int == date_week_num(parse_date_spec(o@.delivery_date)->0)
            && p.0 <= 999999 && p.1@ == company_label(o@),
{
    proof {
        lemma_day_number_bound(today_local);
    }
    if o.done {
        return None;
    }
    let d = match parse_date(o.delivery_date.as_str()) {
        Some(d) => d,
        None => {
            return None;
        },
    };
    proof {
        lemma_day_number_bound(d);
        crate::dates::lemma_week_of_year_bounds(d);
    }
    let dn = day_number_exec(&d);
    if dn < today_n || dn > today_n + 84 {
        return None;
    }
    let wk = (d.year as u64) * 100 + (crate::dates::week_of_year_exec(&d) as u64);
    let t = crate::text::trim_str(o.delivery_company.as_str());
    let label: String = if t.as_str().is_empty() {
        "(Unknown)".to_owned()
    } else {
        t
    };
    proof {
        assert(label@ == company_label(o@));
    }
    Some((wk, label))
}

impl Store {
    /// The schedule rows of the ledger: delivery week key and company
    /// label of every open order due within twelve weeks of today.
    #[verifier::loop_isolation(false)]
    #[verifier::rlimit(100)]
    #[verifier::spinoff_prover]
    fn collect_sched_pairs(&self, today_local: Date) -> (r: (Vec<u64>, Vec<String>))
        requires
            store_inv(self@),
            valid_date(today_local),
        ensures
            ({
                let sp = sched_pairs_of(self@.orders, day_number(today_local));
                &&& r.0@.len() == sp.len()
                &&& r.1@.len() == sp.len()
                &&& forall|k: int|
                    0 <= k < sp.len() ==> #[trigger] r.0@[k] == sp[k].0 && r.1@[k]@ == sp[k].1
                &&& forall|k: int| 0 <= k < sp.len() ==> #[trigger] r.0@[k] <= 999999
            }),
    {
        proof {
            lemma_day_number_bound(today_local);
        }
        let today_n = day_number_exec(&today_local);
        let ghost today_num = day_number(today_local);
        let n = self.orders.len();
        let mut pk: Vec<u64> = Vec::new();
        let mut pl: Vec<String> = Vec::new();
        let mut i: usize = 0;
        while i < n
            invariant
                n == self.orders.len(),
                i <= n,
                pk@.len() == sched_pairs_of(self@.orders.take(i as int), today_num).len(),
                pl@.len() == sched_pairs_of(self@.orders.take(i as int), today_num).len(),
                forall|k: int|
                    0 <= k < pk@.len() ==> #[trigger] pk@[k] == sched_pairs_of(
                        self@.orders.take(i as int),
                        today_num,
                    )[k].0 && pl@[k]@ == sched_pairs_of(self@.orders.take(i as int), today_num)[k].1,
                forall|k: int| 0 <= k < pk@.len() ==> #[trigger] pk@[k] <= 999999,
            decreases n - i,
        {
            proof {
                assert(self@.orders.take(i as int + 1).drop_last() =~= self@.orders.take(i as int));
                assert(self@.orders.take(i as int + 1).last() == self@.orders[i as int]);
            }
            let ghost spi0 = sched_pairs_of(self@.orders.take(i as int), today_num);
            let ghost spi1 = sched_pairs_of(self@.orders.take(i as int + 1), today_num);
            match sched_pair_of_row(&self.orders[i], today_n, Ghost(today_local)) {
                Some(p) => {
                    proof {
                        assert(spi1 =~= spi0.push((p.0, p.1@)));
                    }
                    let (wk, label) = p;
                    pk.push(wk);
                    pl.push(label);
                },
                None => {
                    proof {
                        assert(spi1 =~= spi0);
                    }
                },
            }
            i = i + 1;
        }
        proof {
            assert(self@.orders.take(n as int) =~= self@.orders);
        }
        (pk, pl)
    }
}

/// Groups schedule pairs: the distinct week-and-label pairs in order of
/// first occurrence with their exact counts.
#[verifier::loop_isolation(false)]
#[verifier::rlimit(100)]
fn group_sched_pairs(pk: &Vec<u64>, pl: &Vec<String>, Ghost(sp): Ghost<Seq<(u64, Seq<char>)>>)
    -> (r: (Vec<u64>, Vec<String>, Vec<u64>))
    requires
        pk@.len() == sp.len(),
        pl@.len() == sp.len(),
        forall|k: int| 0 <= k < sp.len() ==> #[trigger] pk@[k] == sp[k].0 && pl@[k]@ == sp[k].1,
        forall|k: int| 0 <= k < sp.len() ==> #[trigger] pk@[k] <= 999999,
    ensures
        ({
            let (weeks, labels, counts) = r;
            &&& weeks@.len() == labels@.len()
            &&& weeks@.len() == counts@.len()
            &&& forall|a: int, b: int|
                0 <= a < b < weeks@.len() ==> #[trigger] weeks@[a] != #[trigger] weeks@[b]
                    || labels@[a]@ != labels@[b]@
            &&& forall|a: int|
                0 <= a < weeks@.len() ==> (#[trigger] counts@[a]) as int == count_where(
                    sp,
                    pair_is(weeks@[a], labels@[a]@),
                )
            &&& forall|a: int|
                0 <= a < weeks@.len() ==> #[trigger] weeks@[a] <= 999999 && group_has(
                    pk@,
                    pl@,
                    weeks@[a],
                    labels@[a]@,
                )
            &&& forall|k: int|
                0 <= k < sp.len() ==> group_has(weeks@, labels@, (#[trigger] sp[k]).0, sp[k].1)
        }),
{
    let pn = pk.len();
    let mut weeks: Vec<u64> = Vec::new();
    let mut labels: Vec<String> = Vec::new();
    let mut counts: Vec<u64> = Vec::new();
    let mut g: usize = 0;
    while g < pn
        invariant
            g <= pn,
            weeks@.len() == labels@.len(),
            weeks@.len() == counts@.len(),
            forall|a: int, b: int|
                0 <= a < b < weeks@.len() ==> #[trigger] weeks@[a] != #[trigger] weeks@[b]
                    || labels@[a]@ != labels@[b]@,
            forall|a: int|
                0 <= a < weeks@.len() ==> (#[trigger] counts@[a]) as int == count_where(
                    sp.take(g as int),
                    pair_is(weeks@[a], labels@[a]@),
                ),
            forall|a: int|
                0 <= a < weeks@.len() ==> #[trigger] weeks@[a] <= 999999 && group_has(
                    pk@,
                    pl@,
                    weeks@[a],
                    labels@[a]@,
                ),
            forall|k: int|
                0 <= k < g ==> group_has(weeks@, labels@, (#[trigger] sp[k]).0, sp[k].1),
        decreases pn - g,
    {
        let m = weeks.len();
        let mut a: usize = 0;
        let mut found: Option<usize> = None;
        while a < m
            invariant
                m == weeks@.len(),
                m == labels@.len(),
                a <= m,
                match found {
                    Some(f) => f < m && weeks@[f as int] == pk@[g as int] && labels@[f as int]@
                        == pl@[g as int]@,
                    None => forall|b: int|
                        0 <= b < a ==> #[trigger] weeks@[b] != pk@[g as int] || labels@[b]@
                            != pl@[g as int]@,
                },
            decreases m - a,
        {
            if weeks[a] == pk[g] && crate::text::str_eq(labels[a].as_str(), pl[g].as_str()) {
                found = Some(a);
                a = m;
            } else {
                a = a + 1;
            }
        }
        proof {
            lemma_count_take_step(sp, pair_is(pk@[g as int], pl@[g as int]@), g as int);
            crate::seqs::lemma_count_bounds(
                sp.take(g as int),
                pair_is(pk@[g as int], pl@[g as int]@),
            );
        }
        match found {
            Some(f) => {
                proof {
                    crate::seqs::lemma_count_bounds(
                        sp.take(g as int),
                        pair_is(weeks@[f as int], labels@[f as int]@),
                    );
                }
                let c = counts[f];
                counts[f] = c + 1;
                proof {
                    assert forall|x: int| 0 <= x < weeks@.len() implies (#[trigger] counts@[x])
                        as int == count_where(
                        sp.take(g as int + 1),
                        pair_is(weeks@[x], labels@[x]@),
                    ) by {
                        lemma_count_take_step(sp, pair_is(weeks@[x], labels@[x]@), g as int);
                        if x != f {
                            assert(weeks@[x] != weeks@[f as int] || labels@[x]@ != labels@[
                                f as int
                            ]@);
                            assert(!pair_is(weeks@[x], labels@[x]@)(sp[g as int]));
                        }
                    }
                    assert(weeks@[f as int] == sp[g as int].0 && labels@[f as int]@
                        == sp[g as int].1);
                    assert(group_has(weeks@, labels@, sp[g as int].0, sp[g as int].1));
                }
            },
            None => {
                let ghost pw = weeks@;
                let ghost plbl = labels@;
                weeks.push(pk[g]);
                labels.push(pl[g].clone());
                counts.push(1);
                proof {
                    let last = weeks@.len() - 1;
                    assert(weeks@[last] == pk@[g as int] && labels@[last]@ == pl@[g as int]@);
                    assert forall|k: int| 0 <= k < g implies !pair_is(
                        pk@[g as int],
                        pl@[g as int]@,
                    )(sp[k]) by {
                        assert(group_has(pw, plbl, sp[k].0, sp[k].1));
                        let b = choose|b: int|
                            0 <= b < pw.len() && #[trigger] pw[b] == sp[k].0 && plbl[b]@
                                == sp[k].1;
                        assert(pw[b] != pk@[g as int] || plbl[b]@ != pl@[g as int]@);
                    }
                    crate::seqs::lemma_count_zero(
                        sp.take(g as int),
                        pair_is(pk@[g as int], pl@[g as int]@),
                    );
                    assert forall|x: int| 0 <= x < weeks@.len() implies (#[trigger] counts@[x])
                        as int == count_where(
                        sp.take(g as int + 1),
                        pair_is(weeks@[x], labels@[x]@),
                    ) by {
                        lemma_count_take_step(sp, pair_is(weeks@[x], labels@[x]@), g as int);
                        if x < pw.len() {
                            assert(weeks@[x] == pw[x] && labels@[x] == plbl[x]);
                            assert(!(pw[x] == pk@[g as int] && plbl[x]@ == pl@[g as int]@));
                        }
                    }
                    assert forall|a2: int, b2: int|
                        0 <= a2 < b2 < weeks@.len() implies #[trigger] weeks@[a2]
                        != #[trigger] weeks@[b2] || labels@[a2]@ != labels@[b2]@ by {
                        if b2 == last {
                            assert(pw[a2] != pk@[g as int] || plbl[a2]@ != pl@[g as int]@);
                        }
                    }
                    assert forall|k: int| 0 <= k < g + 1 implies group_has(
                        weeks@,
                        labels@,
                        (#[trigger] sp[k]).0,
                        sp[k].1,
                    ) by {
                        if k < g {
                            assert(group_has(pw, plbl, sp[k].0, sp[k].1));
                            let b = choose|b: int|
                                0 <= b < pw.len() && #[trigger] pw[b] == sp[k].0 && plbl[b]@
                                    == sp[k].1;
                            assert(weeks@[b] == sp[k].0 && labels@[b]@ == sp[k].1);
                        } else {
                            assert(weeks@[last] == sp[k].0 && labels@[last]@ == sp[k].1);
                        }
                    }
                    assert(pk@[g as int] == pk@[g as int] && pl@[g as int]@ == pl@[g as int]@);
                    assert(group_has(pk@, pl@, pk@[g as int], pl@[g as int]@));
                }
            },
        }
        g = g + 1;
    }
    proof {
        assert(sp.take(pn as int) =~= sp);
    }
    (weeks, labels, counts)
}

/// Schedule entries ranked by week ascending, then company label in
/// lexicographic order, ties (which distinct pairs never produce) kept in
/// original order.
pub open spec fn sched_ranked(ws: Seq<u64>, ls: Seq<String>, idx: Seq<usize>) -> bool {
    forall|a: int, b: int|
        0 <= a < b < idx.len() ==> sched_lt(
            ws[#[trigger] idx[a] as int],
            ls[idx[a] as int]@,
            ws[#[trigger] idx[b] as int],
            ls[idx[b] as int]@,
        ) || (!sched_lt(
            ws[idx[b] as int],
            ls[idx[b] as int]@,
            ws[idx[a] as int],
            ls[idx[a] as int]@,
        ) && idx[a] < idx[b])
}

/// Sorts the indices of week-and-label pairs by week ascending and label
/// lexicographic within a week.
#[verifier::loop_isolation(false)]
#[verifier::rlimit(100)]
pub(crate) fn sort_sched_indices(weeks: &Vec<u64>, labels: &Vec<String>) -> (idx: Vec<usize>)
    requires
        weeks@.len() == labels@.len(),
    ensures
        crate::rank::is_index_permutation(weeks@.len() as int, idx@),
        sched_ranked(weeks@, labels@, idx@),
{
    let m = weeks.len();
    let mut idx: Vec<usize> = Vec::new();
    let mut s: usize = 0;
    while s < m
        invariant
            s <= m,
            idx@.len() == s,
            forall|a: int| 0 <= a < idx@.len() ==> (#[trigger] idx@[a] as int) < s,
            forall|v: int| 0 <= v < s ==> #[trigger] crate::rank::contains_index(idx@, v),
            sched_ranked(weeks@, labels@, idx@),
        decreases m - s,
    {
        let mut p: usize = 0;
        while p < idx.len() && !(weeks[s] < weeks[idx[p]] || (weeks[s] == weeks[idx[p]]
            && crate::text::str_lt(labels[s].as_str(), labels[idx[p]].as_str())))
            invariant
                p <= idx@.len(),
                forall|q: int|
                    0 <= q < p ==> !sched_lt(
                        weeks@[s as int],
                        labels@[s as int]@,
                        weeks@[#[trigger] idx@[q] as int],
                        labels@[idx@[q] as int]@,
                    ),
            decreases idx@.len() - p,
        {
            p = p + 1;
        }
        proof {
            if p < idx@.len() {
                assert(sched_lt(
                    weeks@[s as int],
                    labels@[s as int]@,
                    weeks@[idx@[p as int] as int],
                    labels@[idx@[p as int] as int]@,
                ));
            }
        }
        let ghost prev = idx@;
        idx.insert(p, s);
        proof {
            assert(idx@ =~= prev.insert(p as int, s));
            assert(forall|a: int| 0 <= a < p ==> idx@[a] == prev[a]);
            assert(idx@[p as int] == s);
            assert(forall|b: int| p < b < idx@.len() ==> idx@[b] == prev[b - 1]);
            assert forall|a: int, b: int| 0 <= a < b < idx@.len() implies sched_lt(
                weeks@[#[trigger] idx@[a] as int],
                labels@[idx@[a] as int]@,
                weeks@[#[trigger] idx@[b] as int],
                labels@[idx@[b] as int]@,
            ) || (!sched_lt(
                weeks@[idx@[b] as int],
                labels@[idx@[b] as int]@,
                weeks@[idx@[a] as int],
                labels@[idx@[a] as int]@,
            ) && idx@[a] < idx@[b]) by {
                if a < p && b == p {
                    assert(!sched_lt(
                        weeks@[s as int],
                        labels@[s as int]@,
                        weeks@[prev[a] as int],
                        labels@[prev[a] as int]@,
                    ));
                } else if a == p && b > p {
                    let pi = prev[p as int] as int;
                    let xi = prev[b - 1] as int;
                    assert(sched_lt(weeks@[s as int], labels@[s as int]@, weeks@[pi], labels@[pi]@));
                    if b - 1 > p {
                        assert(sched_lt(weeks@[pi], labels@[pi]@, weeks@[xi], labels@[xi]@) || (
                        !sched_lt(weeks@[xi], labels@[xi]@, weeks@[pi], labels@[pi]@) && prev[
                            p as int
                        ] < prev[b - 1]));
                        if sched_lt(weeks@[pi], labels@[pi]@, weeks@[xi], labels@[xi]@) {
                            if weeks@[s as int] == weeks@[pi] && weeks@[pi] == weeks@[xi] {
                                crate::text::lemma_lex_trans(
                                    labels@[s as int]@,
                                    labels@[pi]@,
                                    labels@[xi]@,
                                );
                            }
                        } else {
                            crate::text::lemma_lex_trichotomy(labels@[pi]@, labels@[xi]@);
                            crate::text::lemma_lex_trichotomy(labels@[xi]@, labels@[pi]@);
                            assert(weeks@[pi] == weeks@[xi] && labels@[pi]@ == labels@[xi]@);
                        }
                    }
                    assert(sched_lt(weeks@[s as int], labels@[s as int]@, weeks@[xi], labels@[xi]@));
                }
            }
            assert forall|v: int| 0 <= v < s + 1 implies #[trigger] crate::rank::contains_index(
                idx@,
                v,
            ) by {
                if v == s {
                    assert(idx@[p as int] as int == v);
                } else {
                    assert(crate::rank::contains_index(prev, v));
                    let a0 = choose|a0: int|
                        0 <= a0 < prev.len() && (#[trigger] prev[a0] as int) == v;
                    if a0 < p {
                        assert(idx@[a0] as int == v);
                    } else {
                        assert(idx@[a0 + 1] as int == v);
                    }
                }
            }
        }
        s = s + 1;
    }
    idx
}

impl Store {
    /// The forward delivery schedule: open orders due between today and
    /// twelve weeks out, grouped by delivery week and company, weeks
    /// ascending and companies in name order within a week.
    #[verifier::loop_isolation(false)]
    #[verifier::rlimit(100)]
    fn delivery_schedule_weeks(&self, today_local: Date) -> (r: Vec<ScheduleItem>)
        requires
            store_inv(self@),
            valid_date(today_local),
        ensures
            schedule_ok(self@.orders, today_local, r@),
    {
        proof {
            lemma_orders_len_bound(self@);
            lemma_day_number_bound(today_local);
        }
        let ghost today_num = day_number(today_local);
        let ghost sp = sched_pairs_of(self@.orders, today_num);
        proof {
            lemma_sched_len(self@.orders, today_num);
        }
        let (pk, pl) = self.collect_sched_pairs(today_local);
        let pn = pk.len();
        let (weeks, labels, counts) = group_sched_pairs(&pk, &pl, Ghost(sp));
        let m = weeks.len();
        let idx = sort_sched_indices(&weeks, &labels);
        let mut out: Vec<ScheduleItem> = Vec::new();
        let mut a: usize = 0;
        while a < m
            invariant
                a <= m,
                out@.len() == a,
                forall|l: int|
                    0 <= l < a ==> {
                        let e = #[trigger] out@[l];
                        &&& e.week@ == crate::dates::period_label(weeks@[idx@[l] as int] as int)
                        &&& e.company@ == labels@[idx@[l] as int]@
                        &&& e.count == counts@[idx@[l] as int]
                    },
            decreases m - a,
        {
            let j = idx[a];
            proof {
                assert(group_has(pk@, pl@, weeks@[j as int], labels@[j as int]@));
                let w = choose|w: int|
                    0 <= w < pk@.len() && #[trigger] pk@[w] == weeks@[j as int] && pl@[w]@
                        == labels@[j as int]@;
                assert(pair_is(weeks@[j as int], labels@[j as int]@)(sp[w]));
                crate::seqs::lemma_count_pos(sp, pair_is(weeks@[j as int], labels@[j as int]@), w);
                crate::seqs::lemma_count_bounds(sp, pair_is(weeks@[j as int], labels@[j as int]@));
            }
            let wl = crate::dates::period_label_exec(weeks[j] as u32);
            proof {
                assert(wl@ == crate::dates::period_label(weeks@[j as int] as int));
            }
            out.push(ScheduleItem { week: wl, company: labels[j].clone(), count: counts[j] as i64 });
            proof {
                let e = out@[out@.len() - 1];
                assert(e.week@ == crate::dates::period_label(weeks@[j as int] as int));
                assert(e.company@ == labels@[j as int]@);
                assert(e.count == counts@[j as int]);
            }
            a = a + 1;
        }
        proof {
            assert forall|x: int| 0 <= x < out@.len() implies {
                let e = #[trigger] out@[x];
                &&& e.week@ == crate::dates::period_label(crate::dates::label_num(e.week@))
                &&& e.count as int == count_where(
                    sp,
                    pair_is(crate::dates::label_num(e.week@) as u64, e.company@),
                )
                &&& e.count > 0
            } by {
                let j = idx@[x] as int;
                crate::dates::lemma_period_label_decode(weeks@[j] as int);
                assert(group_has(pk@, pl@, weeks@[j], labels@[j]@));
                let w = choose|w: int|
                    0 <= w < pk@.len() && #[trigger] pk@[w] == weeks@[j] && pl@[w]@ == labels@[j]@;
                crate::seqs::lemma_count_pos(sp, pair_is(weeks@[j], labels@[j]@), w);
            }
            assert forall|x: int, b: int| 0 <= x < b < out@.len() implies sched_lt(
                crate::dates::label_num((#[trigger] out@[x]).week@) as u64,
                out@[x].company@,
                crate::dates::label_num((#[trigger] out@[b]).week@) as u64,
                out@[b].company@,
            ) by {
                let jx = idx@[x] as int;
                let jb = idx@[b] as int;
                crate::dates::lemma_period_label_decode(weeks@[jx] as int);
                crate::dates::lemma_period_label_decode(weeks@[jb] as int);
                if !sched_lt(weeks@[jx], labels@[jx]@, weeks@[jb], labels@[jb]@) {
                    assert(!sched_lt(weeks@[jb], labels@[jb]@, weeks@[jx], labels@[jx]@));
                    crate::text::lemma_lex_trichotomy(labels@[jx]@, labels@[jb]@);
                    assert(weeks@[jx] == weeks@[jb] && labels@[jx]@ == labels@[jb]@);
                    if jx < jb {
                        assert(weeks@[jx] != weeks@[jb] || labels@[jx]@ != labels@[jb]@);
                    } else if jb < jx {
                        assert(weeks@[jb] != weeks@[jx] || labels@[jb]@ != labels@[jx]@);
                    }
                    assert(false);
                }
            }
            assert forall|k: int| 0 <= k < sp.len() implies sched_listed(
                out@,
                (#[trigger] sp[k]).0 as int,
                sp[k].1,
            ) by {
                assert(group_has(weeks@, labels@, sp[k].0, sp[k].1));
                let b = choose|b: int|
                    0 <= b < weeks@.len() && #[trigger] weeks@[b] == sp[k].0 && labels@[b]@
                        == sp[k].1;
                assert(crate::rank::contains_index(idx@, b));
                let l = choose|l: int| 0 <= l < idx@.len() && (#[trigger] idx@[l] as int) == b;
                assert(out@[l].week@ == crate::dates::period_label(sp[k].0 as int));
                assert(out@[l].company@ == sp[k].1);
            }
        }
        out
    }
}


/// The weekly creation series is exact: well-formed ascending period
/// labels, each counting exactly the orders created in its week, every
/// order's week listed.
pub open spec fn weekly_series_ok(orders: Seq<OrderRowV>, r: Seq<TimeCount>) -> bool {
    &&& forall|a: int|
        0 <= a < r.len() ==> {
            let e = #[trigger] r[a];
            &&& e.period@ == crate::dates::period_label(crate::dates::label_num(e.period@))
            &&& e.count as int == count_where(
                week_nums_of(orders),
                crate::rank::u64_is(crate::dates::label_num(e.period@) as u64),
            )
            &&& e.count > 0
        }
    &&& forall|a: int, b: int|
        0 <= a < b < r.len() ==> crate::dates::label_num((#[trigger] r[a]).period@)
            < crate::dates::label_num((#[trigger] r[b]).period@)
    &&& forall|i: int|
        0 <= i < orders.len() ==> period_listed(r, week_num_of(#[trigger] orders[i]))
}

/// The weekly series split by the completion flag is exact.
pub open spec fn weekly_done_series_ok(orders: Seq<OrderRowV>, r: Seq<TimeDoneCount>) -> bool {
    &&& forall|a: int|
        0 <= a < r.len() ==> {
            let e = #[trigger] r[a];
            &&& e.period@ == crate::dates::period_label(crate::dates::label_num(e.period@))
            &&& e.count as int == count_where(
                week_done_nums_of(orders),
                crate::rank::u64_is(tdc_key(e) as u64),
            )
            &&& e.count > 0
        }
    &&& forall|a: int, b: int|
        0 <= a < b < r.len() ==> tdc_key(#[trigger] r[a]) < tdc_key(#[trigger] r[b])
    &&& forall|i: int|
        0 <= i < orders.len() ==> tdc_listed(
            r,
            week_num_of(#[trigger] orders[i]) * 2 + if orders[i].done {
                1int
            } else {
                0int
            },
        )
}

/// The lead-time histogram is exact: each occurring whole-day lead time
/// once, ascending, with its exact count.
pub open spec fn histogram_ok(orders: Seq<OrderRowV>, r: Seq<LeadTimeBin>) -> bool {
    &&& forall|a: int|
        0 <= a < r.len() ==> {
            let e = #[trigger] r[a];
            &&& -3700000 < e.lead_days < 3700000
            &&& e.count as int == count_where(leads_of(orders), i64_is(e.lead_days))
            &&& e.count > 0
        }
    &&& forall|a: int, b: int|
        0 <= a < b < r.len() ==> (#[trigger] r[a]).lead_days < (#[trigger] r[b]).lead_days
    &&& forall|i: int|
        0 <= i < leads_of(orders).len() ==> lead_listed(r, #[trigger] leads_of(orders)[i])
}

/// The monthly cohort series is exact: months ascending, each counting
/// the phones first seen then and the later orders of earlier phones.
pub open spec fn monthly_cohort_ok(orders: Seq<OrderRowV>, r: Seq<(String, i64, i64)>) -> bool {
    &&& forall|a: int|
        0 <= a < r.len() ==> {
            let e = #[trigger] r[a];
            &&& e.0@ == crate::dates::period_label(crate::dates::label_num(e.0@))
            &&& e.1 as int == count_range(
                orders.len() as int,
                month_new_p(orders, crate::dates::label_num(e.0@)),
            )
            &&& e.2 as int == count_where(
                orders,
                month_ret_is(orders, crate::dates::label_num(e.0@)),
            )
        }
    &&& forall|a: int, b: int|
        0 <= a < b < r.len() ==> crate::dates::label_num((#[trigger] r[a]).0@)
            < crate::dates::label_num((#[trigger] r[b]).0@)
    &&& forall|i: int|
        0 <= i < orders.len() ==> month_listed(r, month_num_of(#[trigger] orders[i]))
}

/// The forward schedule is exact: every open order due within twelve
/// weeks counted under its week and company, weeks ascending and company
/// labels in name order within a week.
pub open spec fn schedule_ok(orders: Seq<OrderRowV>, today: Date, r: Seq<ScheduleItem>) -> bool {
    let sp = sched_pairs_of(orders, day_number(today));
    &&& forall|a: int|
        0 <= a < r.len() ==> {
            let e = #[trigger] r[a];
            &&& e.week@ == crate::dates::period_label(crate::dates::label_num(e.week@))
            &&& e.count as int == count_where(
                sp,
                pair_is(crate::dates::label_num(e.week@) as u64, e.company@),
            )
            &&& e.count > 0
        }
    &&& forall|a: int, b: int|
        0 <= a < b < r.len() ==> sched_lt(
            crate::dates::label_num((#[trigger] r[a]).week@) as u64,
            r[a].company@,
            crate::dates::label_num((#[trigger] r[b]).week@) as u64,
            r[b].company@,
        )
    &&& forall|i: int|
        0 <= i < sp.len() ==> sched_listed(r, (#[trigger] sp[i]).0 as int, sp[i].1)
}

/// The activity heatmap is exact: every weekday-hour cell with an order,
/// in weekday then hour order, with its exact count.
pub open spec fn heatmap_ok(orders: Seq<OrderRowV>, r: Seq<HeatCell>) -> bool {
    &&& forall|a: int|
        0 <= a < r.len() ==> {
            let e = #[trigger] r[a];
            &&& 0 <= e.weekday < 7
            &&& 0 <= e.hour < 24
            &&& e.count as int == count_where(orders, heat_is(e.weekday as int, e.hour as int))
            &&& e.count > 0
        }
    &&& forall|a: int, b: int|
        0 <= a < b < r.len() ==> (#[trigger] r[a]).weekday < (#[trigger] r[b]).weekday || (
        r[a].weekday == r[b].weekday && r[a].hour < r[b].hour)
    &&& forall|w: int, h: int|
        0 <= w < 7 && 0 <= h < 24 && count_where(orders, heat_is(w, h)) > 0
            ==> #[trigger] heat_listed(r, w, h)
}

/// The overdue exception list is exact: the ten most overdue open orders,
/// most overdue first, each line reporting a real row with its whole-day
/// age, and nothing left out that is more overdue than a listed line.
pub open spec fn exceptions_ok(
    orders: Seq<OrderRowV>,
    today: Date,
    now: Timestamp,
    r: Seq<OrderExceptionRow>,
) -> bool {
    let today_num = day_number(today);
    let now_ms = total_ms(now);
    let total = count_where(orders, overdue_at(today_num));
    &&& r.len() == (if total < 10 {
        total
    } else {
        10
    })
    &&& forall|a: int|
        0 <= a < r.len() ==> exception_entry_ok(orders, now_ms, today_num, #[trigger] r[a])
    &&& forall|a: int, b: int|
        0 <= a < b < r.len() ==> exc_day(#[trigger] r[a]) <= exc_day(#[trigger] r[b])
    &&& forall|j: int|
        0 <= j < orders.len() && overdue_at(today_num)(#[trigger] orders[j]) && !listed_id(
            r,
            orders[j].id,
        ) ==> forall|a: int|
            0 <= a < r.len() ==> exc_day(#[trigger] r[a]) <= day_number(
                parse_date_spec(orders[j].delivery_date)->0,
            )
}

/// A correct top-1 pick from a list of labels: its count is exact and no
/// label of the list counts higher.
pub open spec fn top_label_ok(ls: Seq<Seq<char>>, name: Seq<char>, count: int) -> bool {
    &&& count == count_where(ls, label_is(name))
    &&& count > 0
    &&& forall|k: int|
        0 <= k < ls.len() ==> count_where(ls, label_is(#[trigger] ls[k])) <= count
}

/// The headline numbers are exactly the counts, ratios and top picks of
/// the ledger at the given local day and UTC instant.
pub open spec fn kpis_ok(orders: Seq<OrderRowV>, today: Date, now: Timestamp, k: Kpis) -> bool {
    let today_num = day_number(today);
    let now_ms = total_ms(now);
    let cutoff90 = day_number(now.date) - 90;
    let leads = leads_of(orders);
    &&& k.total_orders as int == orders.len()
    &&& k.open_orders as int == count_where(orders, is_open())
    &&& k.overdue_open as int == count_where(orders, overdue_at(today_num))
    &&& k.due_today as int == count_where(orders, due_on(today_num))
    &&& k.due_next_7 as int == count_where(orders, due_next_7(today_num))
    &&& k.done_7d as int == count_where(orders, done_within(now_ms, 7))
    &&& k.done_30d as int == count_where(orders, done_within(now_ms, 30))
    &&& k.unique_clients as int == distinct_phones(orders)
    &&& k.returning_clients_pct_tenths as int == (if distinct_phones(orders) == 0 {
        0int
    } else {
        round_ratio(returning_phones(orders), distinct_phones(orders), 1000)
    })
    &&& (leads.len() == 0 ==> k.avg_lead_days_hundredths is None && k.median_lead_days is None)
    &&& (leads.len() > 0 ==> (k.avg_lead_days_hundredths matches Some(av) && av as int
        == round_ratio_signed(sum_of(leads), leads.len() as int, 100)))
    &&& (leads.len() > 0 ==> (k.median_lead_days matches Some(md) && md == leads.sort_by(
        i64_le(),
    )[leads.len() as int / 2]))
    &&& ({
        let ls = window_company_labels(orders, cutoff90);
        &&& (ls.len() == 0 <==> k.top_delivery_company is None)
        &&& (k.top_delivery_company matches Some(t) ==> top_label_ok(ls, t.name@, t.count as int)
            && t.share_pct_tenths as int == round_ratio(t.count as int, ls.len() as int, 1000))
    })
    &&& ({
        let ls = window_articles(orders, cutoff90);
        &&& (ls.len() == 0 <==> k.top_article is None)
        &&& (k.top_article matches Some(t) ==> top_label_ok(ls, t.name@, t.count as int))
    })
    &&& ({
        let ls = window_cities(orders, cutoff90);
        &&& (ls.len() == 0 <==> k.top_city is None)
        &&& (k.top_city matches Some(t) ==> top_label_ok(ls, t.name@, t.count as int))
    })
}

/// A full ranked share list over the trailing-window company labels.
pub open spec fn company_share_ok(orders: Seq<OrderRowV>, cutoff: int, r: Seq<NameCount>) -> bool {
    ranked_labels_ok(window_company_labels(orders, cutoff), r)
}

/// A ranked article list capped at ten: a prefix of the full ranking.
pub open spec fn top_articles_ok(ls: Seq<Seq<char>>, r: Seq<NameCount>) -> bool {
    &&& r.len() <= 10
    &&& forall|a: int, b: int| 0 <= a < b < r.len() ==> (#[trigger] r[a]).name@ != (
    #[trigger] r[b]).name@
    &&& forall|a: int|
        0 <= a < r.len() ==> (#[trigger] r[a]).count as int == count_where(
            ls,
            label_is(r[a].name@),
        ) && r[a].count > 0
    &&& forall|a: int, b: int|
        0 <= a < b < r.len() ==> (#[trigger] r[a]).count >= (#[trigger] r[b]).count
    &&& (r.len() < 10 ==> forall|k: int| 0 <= k < ls.len() ==> label_listed(r, #[trigger] ls[k]))
    &&& forall|k: int|
        0 <= k < ls.len() && !label_listed(r, #[trigger] ls[k]) ==> forall|a: int|
            0 <= a < r.len() ==> count_where(ls, label_is(ls[k])) <= (#[trigger] r[a]).count
}

impl Store {
    /// The top entry of a ranked label list with its count, if any.
    #[verifier::loop_isolation(false)]
    fn top_of_labels(&self, keys: Vec<String>, Ghost(ls): Ghost<Seq<Seq<char>>>) -> (r: Option<
        NameCount,
    >)
        requires
            store_inv(self@),
            keys@.len() == ls.len(),
            forall|k: int| 0 <= k < keys@.len() ==> (#[trigger] keys@[k])@ == ls[k],
            keys@.len() <= i64::MAX,
        ensures
            ls.len() == 0 <==> r is None,
            r matches Some(t) ==> top_label_ok(ls, t.name@, t.count as int),
    {
        let ranked = ranked_counts(&keys, Ghost(ls));
        if ranked.len() == 0 {
            proof {
                if ls.len() > 0 {
                    assert(label_listed(ranked@, ls[0]));
                    let a = choose|a: int|
                        0 <= a < ranked@.len() && (#[trigger] ranked@[a]).name@ == ls[0];
                    assert(false);
                }
            }
            return None;
        }
        let t = NameCount { name: ranked[0].name.clone(), count: ranked[0].count };
        proof {
            assert(ranked@[0].count > 0);
            let w = choose|w: int|
                0 <= w < ranked@.len() && (#[trigger] ranked@[w]).name@ == ranked@[0].name@ && w
                    == 0;
            assert forall|k: int| 0 <= k < ls.len() implies count_where(
                ls,
                label_is(#[trigger] ls[k]),
            ) <= t.count by {
                assert(label_listed(ranked@, ls[k]));
                let a = choose|a: int|
                    0 <= a < ranked@.len() && (#[trigger] ranked@[a]).name@ == ls[k];
                if a > 0 {
                    assert(ranked@[0].count > ranked@[a].count || (ranked@[0].count
                        == ranked@[a].count && ({
                        let fa = crate::seqs::first_where(ls, label_is(ranked@[0].name@));
                        let fb = crate::seqs::first_where(ls, label_is(ranked@[a].name@));
                        fa is Some && fb is Some && fa->0 < fb->0
                    })));
                }
            }
        }
        Some(t)
    }

    /// The trailing-window company ranking, as name-count lines.
    #[verifier::loop_isolation(false)]
    fn company_share_90d(&self, cutoff: i64) -> (r: Vec<NameCount>)
        requires
            store_inv(self@),
        ensures
            company_share_ok(self@.orders, cutoff as int, r@),
    {
        proof {
            lemma_orders_len_bound(self@);
            lemma_window_len(self@.orders, cutoff as int);
        }
        let keys = self.collect_company_labels(cutoff);
        ranked_counts(&keys, Ghost(window_company_labels(self@.orders, cutoff as int)))
    }

    /// The ten most frequent article names over the whole ledger.
    #[verifier::loop_isolation(false)]
    #[verifier::rlimit(60)]
    fn top_articles(&self) -> (r: Vec<NameCount>)
        requires
            store_inv(self@),
        ensures
            top_articles_ok(window_articles(self@.orders, 0), r@),
    {
        proof {
            lemma_orders_len_bound(self@);
            lemma_window_len(self@.orders, 0);
        }
        let keys = self.collect_articles(0);
        let ghost ls = window_articles(self@.orders, 0);
        let ranked = ranked_counts(&keys, Ghost(ls));
        let rn = ranked.len();
        let cap: usize = if rn < 10 {
            rn
        } else {
            10
        };
        let mut out: Vec<NameCount> = Vec::new();
        let mut a: usize = 0;
        while a < cap
            invariant
                cap <= rn,
                rn == ranked@.len(),
                a <= cap,
                out@.len() == a,
                forall|l: int|
                    0 <= l < a ==> (#[trigger] out@[l]).name@ == ranked@[l].name@ && out@[l].count
                        == ranked@[l].count,
            decreases cap - a,
        {
            out.push(NameCount { name: ranked[a].name.clone(), count: ranked[a].count });
            a = a + 1;
        }
        proof {
            assert forall|k: int| 0 <= k < ls.len() && !label_listed(
                out@,
                #[trigger] ls[k],
            ) implies forall|x: int|
                0 <= x < out@.len() ==> count_where(ls, label_is(ls[k])) <= (
                #[trigger] out@[x]).count by {
                assert(label_listed(ranked@, ls[k]));
                let b = choose|b: int|
                    0 <= b < ranked@.len() && (#[trigger] ranked@[b]).name@ == ls[k];
                if b < cap {
                    assert(out@[b].name@ == ls[k]);
                    assert(label_listed(out@, ls[k]));
                    assert(false);
                }
                assert forall|x: int| 0 <= x < out@.len() implies count_where(
                    ls,
                    label_is(ls[k]),
                ) <= (#[trigger] out@[x]).count by {
                    assert(ranked@[x].count > ranked@[b].count || (ranked@[x].count
                        == ranked@[b].count && ({
                        let fa = crate::seqs::first_where(ls, label_is(ranked@[x].name@));
                        let fb = crate::seqs::first_where(ls, label_is(ranked@[b].name@));
                        fa is Some && fb is Some && fa->0 < fb->0
                    })));
                }
            }
            if out@.len() < 10 {
                assert(out@.len() == rn);
                assert forall|k: int| 0 <= k < ls.len() implies label_listed(
                    out@,
                    #[trigger] ls[k],
                ) by {
                    assert(label_listed(ranked@, ls[k]));
                    let b = choose|b: int|
                        0 <= b < ranked@.len() && (#[trigger] ranked@[b]).name@ == ls[k];
                    assert(out@[b].name@ == ls[k]);
                }
            }
        }
        out
    }

    /// The whole dashboard, computed in one pass over the ledger for the
    /// given local day and UTC instant.
    #[verifier::loop_isolation(false)]
    #[verifier::rlimit(100)]
    pub fn get_dashboard_data(&self, today_local: Date, now_utc: Timestamp) -> (r: DashboardData)
        requires
            store_inv(self@),
            valid_date(today_local),
            valid_timestamp(now_utc),
        ensures
            kpis_ok(self@.orders, today_local, now_utc, r.kpis),
            weekly_series_ok(self@.orders, r.orders_over_time_weekly@),
            weekly_done_series_ok(self@.orders, r.orders_over_time_weekly_by_done@),
            schedule_ok(self@.orders, today_local, r.delivery_schedule_weeks@),
            histogram_ok(self@.orders, r.lead_time_histogram@),
            top_articles_ok(window_articles(self@.orders, 0), r.top_articles@),
            company_share_ok(self@.orders, day_number(now_utc.date) - 90, r.company_share_90d@),
            monthly_cohort_ok(self@.orders, r.new_vs_returning_monthly@),
            ({
                let expected = buckets_from(self@.orders, total_ms(now_utc), 0);
                &&& r.backlog_age_buckets@.len() == expected.len()
                &&& forall|a: int|
                    0 <= a < r.backlog_age_buckets@.len() ==> (
                    #[trigger] r.backlog_age_buckets@[a]).bucket@ == band_label(expected[a].0)
                        && r.backlog_age_buckets@[a].count as int == expected[a].1
            }),
            heatmap_ok(self@.orders, r.activity_heatmap@),
            exceptions_ok(self@.orders, today_local, now_utc, r.exceptions.overdue_top10@),
    {
        proof {
            lemma_orders_len_bound(self@);
            lemma_total_ms_bound(now_utc);
            lemma_day_number_bound(now_utc.date);
        }
        let counts = self.kpi_counts(today_local, now_utc);
        let phones = self.phone_counts();
        let (avg, median) = self.lead_stats();
        let cutoff90: i64 = (day_number_exec(&now_utc.date) as i64) - 90;
        let clabels = self.collect_company_labels(cutoff90);
        let ghost cls = window_company_labels(self@.orders, cutoff90 as int);
        proof {
            lemma_window_len(self@.orders, cutoff90 as int);
        }
        let total_90 = clabels.len();
        let top_company = match self.top_of_labels(clabels, Ghost(cls)) {
            None => None,
            Some(t) => {
                proof {
                    crate::seqs::lemma_count_bounds(cls, label_is(t.name@));
                }
                let share = round_tenths_exec(t.count, total_90 as i64);
                Some(TopItemShare { name: t.name, count: t.count, share_pct_tenths: share })
            },
        };
        let alabels = self.collect_articles(cutoff90);
        let top_article = self.top_of_labels(
            alabels,
            Ghost(window_articles(self@.orders, cutoff90 as int)),
        );
        let city_labels = self.collect_cities(cutoff90);
        let top_city = self.top_of_labels(
            city_labels,
            Ghost(window_cities(self@.orders, cutoff90 as int)),
        );
        let pct: i64 = if phones.0 == 0 {
            0
        } else {
            round_tenths_exec(phones.1, phones.0)
        };
        let kpis = Kpis {
            total_orders: counts.0,
            open_orders: counts.1,
            overdue_open: counts.2,
            due_today: counts.3,
            due_next_7: counts.4,
            done_7d: counts.5,
            done_30d: counts.6,
            unique_clients: phones.0,
            returning_clients_pct_tenths: pct,
            avg_lead_days_hundredths: avg,
            median_lead_days: median,
            top_delivery_company: top_company,
            top_article,
            top_city,
        };
        DashboardData {
            kpis,
            orders_over_time_weekly: self.orders_over_time_weekly(),
            orders_over_time_weekly_by_done: self.orders_over_time_weekly_by_done(),
            delivery_schedule_weeks: self.delivery_schedule_weeks(today_local),
            lead_time_histogram: self.lead_time_histogram(),
            top_articles: self.top_articles(),
            company_share_90d: self.company_share_90d(cutoff90),
            new_vs_returning_monthly: self.new_vs_returning_monthly(),
            backlog_age_buckets: self.backlog_age_buckets(now_utc),
            activity_heatmap: self.activity_heatmap(),
            exceptions: Exceptions { overdue_top10: self.overdue_top10(today_local, now_utc) },
        }
    }
}

/// A window holds at most one label per order.
proof fn lemma_window_len(orders: Seq<OrderRowV>, cutoff: int)
    ensures
        window_company_labels(orders, cutoff).len() <= orders.len(),
        window_articles(orders, cutoff).len() <= orders.len(),
        window_cities(orders, cutoff).len() <= orders.len(),
    decreases orders.len(),
{
    if orders.len() > 0 {
        lemma_window_len(orders.drop_last(), cutoff);
    }
}

/// A nonnegative count's share of a positive total, in tenths of a
/// percent, rounded half up.
#[verifier::loop_isolation(false)]
fn round_tenths_exec(count: i64, total: i64) -> (r: i64)
    requires
        0 <= count <= total,
        total >= 1,
    ensures
        r as int == round_ratio(count as int, total as int, 1000),
{
    let num: i128 = 2000 * (count as i128) + (total as i128);
    let den: i128 = 2 * (total as i128);
    proof {
        vstd::arithmetic::div_mod::lemma_div_pos_is_pos(num as int, den as int);
        vstd::arithmetic::div_mod::lemma_multiply_divide_le(num as int, den as int, 1001);
    }
    (num / den) as i64
}

} // verus!
