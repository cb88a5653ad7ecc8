//! One trial: the per-day transition and the 365-day driver over a given
//! year of demand samples.
use vstd::prelude::*;

use crate::config::{reorder_quantity, reorder_spec, Config, ELEMENT_COUNT, HORIZON};
use crate::pipeline::{arrival_slot, order_slot, Pipeline};

verus! {

/// Transactions and units, served and lost, over one trial or a batch.
#[derive(Debug, Clone, Copy, PartialEq, Eq, Structural)]
pub struct TrialCounters {
    pub successful_transactions: u64,
    pub successful_sales: u64,
    pub failed_transactions: u64,
    pub failed_sales: u64,
}

impl TrialCounters {
    /// All four counters at zero.
    pub fn zero() -> (r: TrialCounters)
        ensures
            r.successful_transactions == 0,
            r.successful_sales == 0,
            r.failed_transactions == 0,
            r.failed_sales == 0,
    {
        TrialCounters {
            successful_transactions: 0,
            successful_sales: 0,
            failed_transactions: 0,
            failed_sales: 0,
        }
    }
}

/// The mathematical state of a trial between two steps.
pub struct TrialModel {
    pub stock: int,
    pub ring: Seq<int>,
    pub st: int,
    pub ss: int,
    pub ft: int,
    pub fs: int,
}

/// One customer asks for `request` units: served in full when the stock
/// covers it, otherwise lost (nothing is backordered).
pub open spec fn serve_spec(m: TrialModel, request: int) -> TrialModel {
    if m.stock >= request {
        TrialModel { stock: m.stock - request, st: m.st + 1, ss: m.ss + request, ..m }
    } else {
        TrialModel { ft: m.ft + 1, fs: m.fs + request, ..m }
    }
}

/// The customers of one day, in order.
pub open spec fn serve_all_spec(m: TrialModel, requests: Seq<int>) -> TrialModel
    decreases requests.len(),
{
    if requests.len() == 0 {
        m
    } else {
        serve_spec(serve_all_spec(m, requests.drop_last()), requests.last())
    }
}

/// The truck due at the start of `day` is unloaded and its slot emptied.
pub open spec fn arrive_spec(m: TrialModel, day: int) -> TrialModel {
    let slot = arrival_slot(day, m.ring.len() as int);
    TrialModel { stock: m.stock + m.ring[slot], ring: m.ring.update(slot, 0), ..m }
}

/// The end-of-day order, written over the slot it is due from.
pub open spec fn reorder_step_spec(c: Config, m: TrialModel, day: int) -> TrialModel {
    match reorder_spec(c, m.stock) {
        Some(q) => TrialModel { ring: m.ring.update(order_slot(day, m.ring.len() as int), q), ..m },
        None => m,
    }
}

/// One day: arrival, then demand, then the reorder decision.
pub open spec fn day_spec(c: Config, m: TrialModel, day: int, requests: Seq<int>) -> TrialModel {
    reorder_step_spec(c, serve_all_spec(arrive_spec(m, day), requests), day)
}

/// The state before the first day.
pub open spec fn initial_model(c: Config, start: int) -> TrialModel {
    TrialModel {
        stock: start,
        ring: Seq::new(c.lead_time as nat, |i: int| 0int),
        st: 0,
        ss: 0,
        ft: 0,
        fs: 0,
    }
}

/// The state after the days of `days`, day `d` serving the requests
/// `days[d]` (one entry per customer).
pub open spec fn run_spec(c: Config, start: int, days: Seq<Seq<int>>) -> TrialModel
    decreases days.len(),
{
    if days.len() == 0 {
        initial_model(c, start)
    } else {
        day_spec(c, run_spec(c, start, days.drop_last()), days.len() - 1, days.last())
    }
}

/// The requests of a year as integers.
pub open spec fn year_model(days: Seq<Vec<u32>>) -> Seq<Seq<int>> {
    days.map_values(|d: Vec<u32>| d@.map_values(|x: u32| x as int))
}

/// Upper bounds on a year of samples: at most `HORIZON` days, at most
/// `ELEMENT_COUNT` customers a day, each asking for at most `ELEMENT_COUNT`
/// units. Days without customers are admitted, so that any demand can be
/// replayed.
pub open spec fn valid_year(days: Seq<Vec<u32>>) -> bool {
    &&& days.len() <= HORIZON
    &&& forall|d: int| 0 <= d < days.len() ==> days[d]@.len() <= ELEMENT_COUNT
    &&& forall|d: int, i: int|
        0 <= d < days.len() && 0 <= i < days[d]@.len() ==> days[d]@[i] <= ELEMENT_COUNT
}

/// One drawn day: between one and `ELEMENT_COUNT` customers, each asking
/// for between one and `ELEMENT_COUNT` units.
pub open spec fn drawn_day(d: Seq<u32>) -> bool {
    &&& 1 <= d.len() <= ELEMENT_COUNT
    &&& forall|i: int| 0 <= i < d.len() ==> 1 <= #[trigger] d[i] <= ELEMENT_COUNT
}

/// A full year of drawn days, as the distributions give them.
pub open spec fn drawn_year(y: Seq<Vec<u32>>) -> bool {
    &&& y.len() == HORIZON
    &&& forall|d: int| 0 <= d < y.len() ==> drawn_day(#[trigger] y[d]@)
}

/// Appending a drawn day keeps every day drawn.
pub proof fn lemma_push_drawn_day(prev: Seq<Vec<u32>>, day: Vec<u32>)
    requires
        forall|d: int| 0 <= d < prev.len() ==> drawn_day(#[trigger] prev[d]@),
        drawn_day(day@),
    ensures
        forall|d: int| 0 <= d < prev.len() + 1 ==> drawn_day(#[trigger] prev.push(day)[d]@),
{
    assert forall|d: int| 0 <= d < prev.len() + 1 implies drawn_day(#[trigger] prev.push(day)[d]@) by {
        if d < prev.len() {
            assert(prev.push(day)[d] == prev[d]);
        }
    }
}

/// A drawn year is within bounds and has demand on every day.
pub proof fn lemma_drawn_year_demand(y: Seq<Vec<u32>>)
    requires
        drawn_year(y),
    ensures
        valid_year(y),
        demand_everywhere(year_model(y)),
        year_model(y).len() == HORIZON,
{
    let ym = year_model(y);
    assert forall|d: int| 0 <= d < y.len() implies y[d]@.len() <= ELEMENT_COUNT by {
        assert(drawn_day(y[d]@));
    }
    assert forall|d: int, i: int| 0 <= d < y.len() && 0 <= i < y[d]@.len() implies y[d]@[i]
        <= ELEMENT_COUNT by {
        assert(drawn_day(y[d]@));
    }
    assert forall|d: int| 0 <= d < ym.len() implies #[trigger] ym[d].len() >= 1 by {
        assert(drawn_day(y[d]@));
    }
    assert forall|d: int, i: int| 0 <= d < ym.len() && 0 <= i < ym[d].len() implies ym[d][i]
        >= 1 by {
        assert(drawn_day(y[d]@));
    }
}

/// The counters of a model state.
pub open spec fn counters_match(r: TrialCounters, m: TrialModel) -> bool {
    &&& r.successful_transactions == m.st
    &&& r.successful_sales == m.ss
    &&& r.failed_transactions == m.ft
    &&& r.failed_sales == m.fs
}

/// What one trial of at most `HORIZON` days can reach.
pub open spec fn bounded_trial(r: TrialCounters) -> bool {
    &&& r.successful_transactions + r.failed_transactions <= HORIZON * ELEMENT_COUNT
    &&& r.successful_sales + r.failed_sales <= HORIZON * ELEMENT_COUNT * ELEMENT_COUNT
}

/// The counters a trial over `days` ends with.
pub open spec fn trial_result(c: Config, start: int, days: Seq<Seq<int>>) -> TrialModel {
    run_spec(c, start, days)
}

/// The executable state of a running trial.
pub struct TrialState {
    pub stock: u64,
    pub pipeline: Pipeline,
    pub counters: TrialCounters,
}

impl TrialState {
    pub open spec fn model(&self) -> TrialModel {
        TrialModel {
            stock: self.stock as int,
            ring: self.pipeline@.map_values(|v: u64| v as int),
            st: self.counters.successful_transactions as int,
            ss: self.counters.successful_sales as int,
            ft: self.counters.failed_transactions as int,
            fs: self.counters.failed_sales as int,
        }
    }

    /// Bounds that keep `day` further days free of overflow.
    pub open spec fn wf(&self, c: Config, day: int) -> bool {
        &&& self.pipeline.wf()
        &&& self.pipeline@.len() == c.lead_time
        &&& forall|i: int|
            0 <= i < self.pipeline@.len() ==> self.pipeline@[i] <= c.safety_stock
                + c.order_quantity
        &&& 0 <= day <= HORIZON
        &&& self.stock + (HORIZON - day) * (c.safety_stock + c.order_quantity) <= u64::MAX
        &&& self.counters.successful_transactions + self.counters.failed_transactions <= day
            * ELEMENT_COUNT
        &&& self.counters.successful_sales + self.counters.failed_sales <= day * ELEMENT_COUNT
            * ELEMENT_COUNT
    }

    /// The state before the first day.
    pub fn new(c: &Config, starting_quantity: u64) -> (r: TrialState)
        requires
            c.wf(),
            c.admits(starting_quantity as int),
        ensures
            r.wf(*c, 0),
            r.model() == initial_model(*c, starting_quantity as int),
    {
        let r = TrialState {
            stock: starting_quantity,
            pipeline: Pipeline::new(c.lead_time),
            counters: TrialCounters::zero(),
        };
        assert(r.model().ring =~= Seq::new(c.lead_time as nat, |i: int| 0int));
        r
    }

    /// Serves one customer asking for `request` units.
    pub fn serve(&mut self, request: u32)
        requires
            old(self).stock <= u64::MAX,
            old(self).counters.successful_transactions + old(self).counters.failed_transactions
                < u64::MAX,
            old(self).counters.successful_sales + old(self).counters.failed_sales + request
                <= u64::MAX,
        ensures
            final(self).model() == serve_spec(old(self).model(), request as int),
            final(self).pipeline == old(self).pipeline,
            final(self).stock <= old(self).stock,
            final(self).counters.successful_transactions + final(self).counters.failed_transactions
                == old(self).counters.successful_transactions
                + old(self).counters.failed_transactions + 1,
            final(self).counters.successful_sales + final(self).counters.failed_sales
                == old(self).counters.successful_sales + old(self).counters.failed_sales + request,
    {
        let r = request as u64;
        if self.stock >= r {
            self.counters.successful_transactions = self.counters.successful_transactions + 1;
            self.counters.successful_sales = self.counters.successful_sales + r;
            self.stock = self.stock - r;
        } else {
            self.counters.failed_transactions = self.counters.failed_transactions + 1;
            self.counters.failed_sales = self.counters.failed_sales + r;
        }
    }

    /// One day of the trial: the truck due today arrives, each customer of
    /// `requests` is served in turn, and an order is placed if the stock
    /// closes below the safety threshold.
    pub fn run_day(&mut self, c: &Config, day: u32, requests: &Vec<u32>)
        requires
            c.wf(),
            day < HORIZON,
            old(self).wf(*c, day as int),
            requests@.len() <= ELEMENT_COUNT,
            forall|i: int| 0 <= i < requests@.len() ==> requests@[i] <= ELEMENT_COUNT,
        ensures
            final(self).wf(*c, day + 1),
            final(self).model() == day_spec(
                *c,
                old(self).model(),
                day as int,
                requests@.map_values(|x: u32| x as int),
            ),
    {
        let ghost m0 = self.model();
        let ghost len = self.pipeline@.len();
        let ghost step = c.safety_stock + c.order_quantity;
        assert((HORIZON - day) * step == (HORIZON - (day + 1)) * step + step) by (nonlinear_arith);
        assert((HORIZON - (day + 1)) * step >= 0) by (nonlinear_arith)
            requires
                day < HORIZON,
                step >= 0,
        ;
        let truck = self.pipeline.arrival_due_today(day);
        self.stock = self.stock + truck;
        proof {
            assert(self.model().ring =~= arrive_spec(m0, day as int).ring);
        }
        let ghost m1 = self.model();
        let ghost t0 = self.counters.successful_transactions + self.counters.failed_transactions;
        let ghost s0 = self.counters.successful_sales + self.counters.failed_sales;
        let ghost stock1 = self.stock;
        let ghost reqs = requests@.map_values(|x: u32| x as int);
        let mut i: usize = 0;
        while i < requests.len()
            invariant
                c.wf(),
                day < HORIZON,
                i <= requests@.len(),
                requests@.len() <= ELEMENT_COUNT,
                forall|k: int| 0 <= k < requests@.len() ==> requests@[k] <= ELEMENT_COUNT,
                reqs == requests@.map_values(|x: u32| x as int),
                self.pipeline.wf(),
                self.pipeline@.len() == c.lead_time,
                step == c.safety_stock + c.order_quantity,
                forall|k: int| 0 <= k < self.pipeline@.len() ==> self.pipeline@[k] <= step,
                self.stock <= stock1,
                stock1 + (HORIZON - (day + 1)) * step <= u64::MAX,
                (HORIZON - (day + 1)) * step >= 0,
                t0 <= day * ELEMENT_COUNT,
                s0 <= day * ELEMENT_COUNT * ELEMENT_COUNT,
                self.counters.successful_transactions + self.counters.failed_transactions == t0 + i,
                self.counters.successful_sales + self.counters.failed_sales <= s0 + i
                    * ELEMENT_COUNT,
                self.model() == serve_all_spec(m1, reqs.take(i as int)),
            decreases requests@.len() - i,
        {
            let request = requests[i];
            self.serve(request);
            proof {
                assert(reqs.take(i + 1).drop_last() =~= reqs.take(i as int));
            }
            i = i + 1;
        }
        proof {
            assert(reqs.take(i as int) =~= reqs);
        }
        let ghost m2 = self.model();
        match reorder_quantity(c, self.stock) {
            Some(q) => {
                self.pipeline.schedule(day, q);
                proof {
                    assert(self.model().ring =~= reorder_step_spec(*c, m2, day as int).ring);
                }
            },
            None => {},
        }
    }
}

/// Runs one trial from `starting_quantity` units on hand over a given year
/// of demand: `days[d]` lists the units asked for by each customer of day
/// `d`. An order placed on day `d` arrives at the start of day
/// `d + lead_time`; orders due after the last day are never delivered.
pub fn simulate_trial(c: &Config, starting_quantity: u64, days: &Vec<Vec<u32>>) -> (r:
    TrialCounters)
    requires
        c.wf(),
        c.admits(starting_quantity as int),
        valid_year(days@),
    ensures
        counters_match(r, trial_result(*c, starting_quantity as int, year_model(days@))),
        bounded_trial(r),
{
    let mut state = TrialState::new(c, starting_quantity);
    let ghost year = year_model(days@);
    let mut day: usize = 0;
    while day < days.len()
        invariant
            c.wf(),
            valid_year(days@),
            year == year_model(days@),
            day <= days@.len(),
            state.wf(*c, day as int),
            state.model() == run_spec(*c, starting_quantity as int, year.take(day as int)),
        decreases days@.len() - day,
    {
        state.run_day(c, day as u32, &days[day]);
        proof {
            assert(year.take(day + 1).drop_last() =~= year.take(day as int));
            assert(year.take(day + 1).last() == days@[day as int]@.map_values(|x: u32| x as int));
        }
        day = day + 1;
    }
    proof {
        assert(year.take(day as int) =~= year);
    }
    state.counters
}

/// Number of customers over all the days of `days`.
pub open spec fn total_customers(days: Seq<Seq<int>>) -> int
    decreases days.len(),
{
    if days.len() == 0 {
        0
    } else {
        total_customers(days.drop_last()) + days.last().len()
    }
}

/// Serving a day's customers adds one transaction per customer and leaves
/// the ring alone; with no customers nothing changes.
proof fn lemma_serve_all_counts(m: TrialModel, requests: Seq<int>)
    ensures
        serve_all_spec(m, requests).st + serve_all_spec(m, requests).ft == m.st + m.ft
            + requests.len(),
        serve_all_spec(m, requests).ring == m.ring,
        requests.len() == 0 ==> serve_all_spec(m, requests) == m,
    decreases requests.len(),
{
    if requests.len() > 0 {
        lemma_serve_all_counts(m, requests.drop_last());
    }
}

/// Every customer of every day ends as exactly one transaction, served or
/// lost: the two transaction counters add up to the number of arrivals.
pub proof fn lemma_transactions_equal_arrivals(c: Config, start: int, days: Seq<Seq<int>>)
    ensures
        run_spec(c, start, days).st + run_spec(c, start, days).ft == total_customers(days),
    decreases days.len(),
{
    if days.len() > 0 {
        let prev = run_spec(c, start, days.drop_last());
        lemma_transactions_equal_arrivals(c, start, days.drop_last());
        lemma_serve_all_counts(arrive_spec(prev, days.len() - 1), days.last());
    }
}

/// A year without customers leaves all four counters at zero.
pub proof fn lemma_no_demand_no_counts(c: Config, start: int, days: Seq<Seq<int>>)
    requires
        forall|d: int| 0 <= d < days.len() ==> days[d].len() == 0,
    ensures
        run_spec(c, start, days).st == 0,
        run_spec(c, start, days).ss == 0,
        run_spec(c, start, days).ft == 0,
        run_spec(c, start, days).fs == 0,
    decreases days.len(),
{
    if days.len() > 0 {
        let prev = run_spec(c, start, days.drop_last());
        assert forall|d: int| 0 <= d < days.drop_last().len() implies days.drop_last()[d].len()
            == 0 by {
            assert(days.drop_last()[d] == days[d]);
        }
        lemma_no_demand_no_counts(c, start, days.drop_last());
        assert(days.last().len() == 0);
        lemma_serve_all_counts(arrive_spec(prev, days.len() - 1), days.last());
    }
}

/// A drawn year: every day has at least one customer and every request is
/// for at least one unit.
pub open spec fn demand_everywhere(days: Seq<Seq<int>>) -> bool {
    &&& forall|d: int| 0 <= d < days.len() ==> #[trigger] days[d].len() >= 1
    &&& forall|d: int, i: int| 0 <= d < days.len() && 0 <= i < days[d].len() ==> days[d][i] >= 1
}

proof fn lemma_serve_all_sales(m: TrialModel, requests: Seq<int>)
    requires
        m.ss >= m.st,
        m.fs >= m.ft,
        forall|i: int| 0 <= i < requests.len() ==> requests[i] >= 1,
    ensures
        serve_all_spec(m, requests).ss >= serve_all_spec(m, requests).st,
        serve_all_spec(m, requests).fs >= serve_all_spec(m, requests).ft,
    decreases requests.len(),
{
    if requests.len() > 0 {
        lemma_serve_all_sales(m, requests.drop_last());
    }
}

/// When every request is for at least one unit, units sold are at least
/// the served transactions and units lost at least the lost ones; when
/// every day has a customer, there are at least as many transactions as
/// days.
pub proof fn lemma_demand_lower_bounds(c: Config, start: int, days: Seq<Seq<int>>)
    requires
        demand_everywhere(days),
    ensures
        run_spec(c, start, days).ss >= run_spec(c, start, days).st,
        run_spec(c, start, days).fs >= run_spec(c, start, days).ft,
        total_customers(days) >= days.len(),
        run_spec(c, start, days).st + run_spec(c, start, days).ft >= days.len(),
    decreases days.len(),
{
    lemma_transactions_equal_arrivals(c, start, days);
    if days.len() > 0 {
        let rest = days.drop_last();
        assert forall|d: int| 0 <= d < rest.len() implies #[trigger] rest[d].len() >= 1 by {
            assert(rest[d] == days[d]);
        }
        assert forall|d: int, i: int| 0 <= d < rest.len() && 0 <= i < rest[d].len() implies rest[d][i]
            >= 1 by {
            assert(rest[d] == days[d]);
        }
        lemma_demand_lower_bounds(c, start, rest);
        assert(days.last().len() >= 1);
        let prev = run_spec(c, start, rest);
        assert forall|i: int| 0 <= i < days.last().len() implies days.last()[i] >= 1 by {
            assert(days.last() == days[days.len() - 1]);
        }
        lemma_serve_all_sales(arrive_spec(prev, days.len() - 1), days.last());
    }
}

proof fn lemma_ring_len(c: Config, start: int, days: Seq<Seq<int>>)
    requires
        c.wf(),
    ensures
        run_spec(c, start, days).ring.len() == c.lead_time,
    decreases days.len(),
{
    if days.len() > 0 {
        let prev = run_spec(c, start, days.drop_last());
        lemma_ring_len(c, start, days.drop_last());
        let l = c.lead_time as int;
        vstd::arithmetic::div_mod::lemma_mod_bound(days.len() - 1, l);
        lemma_serve_all_counts(arrive_spec(prev, days.len() - 1), days.last());
    }
}

proof fn lemma_run_step(c: Config, start: int, days: Seq<Seq<int>>, k: int)
    requires
        0 <= k < days.len(),
    ensures
        run_spec(c, start, days.take(k + 1)) == day_spec(
            c,
            run_spec(c, start, days.take(k)),
            k,
            days[k],
        ),
{
    assert(days.take(k + 1).drop_last() =~= days.take(k));
}

proof fn lemma_slot_kept(c: Config, start: int, days: Seq<Seq<int>>, d: int, k: int, q: int)
    requires
        c.wf(),
        0 <= d,
        d + 1 <= k <= d + c.lead_time,
        d + c.lead_time < days.len(),
        run_spec(c, start, days.take(k)).ring.len() == c.lead_time,
        run_spec(c, start, days.take(k)).ring[d % c.lead_time as int] == q,
    ensures
        run_spec(c, start, days.take(d + c.lead_time)).ring.len() == c.lead_time,
        run_spec(c, start, days.take(d + c.lead_time)).ring[d % c.lead_time as int] == q,
    decreases d + c.lead_time - k,
{
    let l = c.lead_time as int;
    if k < d + l {
        crate::pipeline::lemma_delivery(d, l);
        vstd::arithmetic::div_mod::lemma_mod_bound(d, l);
        vstd::arithmetic::div_mod::lemma_mod_bound(k, l);
        lemma_run_step(c, start, days, k);
        let m = run_spec(c, start, days.take(k));
        assert(crate::pipeline::arrival_slot(k, l) != crate::pipeline::order_slot(d, l));
        lemma_serve_all_counts(arrive_spec(m, k), days[k]);
        lemma_slot_kept(c, start, days, d, k + 1, q);
    }
}

/// Within a trial, an order placed at the end of day `d` waits untouched in
/// the ring and is unloaded at the start of day `d + lead_time`, adding
/// exactly its quantity to the stock.
pub proof fn lemma_trial_delivery(c: Config, start: int, days: Seq<Seq<int>>, d: int, q: int)
    requires
        c.wf(),
        0 <= d,
        d + c.lead_time < days.len(),
        reorder_spec(
            c,
            serve_all_spec(arrive_spec(run_spec(c, start, days.take(d)), d), days[d]).stock,
        ) == Some(q),
    ensures
        run_spec(c, start, days.take(d + c.lead_time)).ring[d % c.lead_time as int] == q,
        arrive_spec(run_spec(c, start, days.take(d + c.lead_time)), d + c.lead_time).stock
            == run_spec(c, start, days.take(d + c.lead_time)).stock + q,
{
    let l = c.lead_time as int;
    crate::pipeline::lemma_delivery(d, l);
    lemma_run_step(c, start, days, d);
    lemma_ring_len(c, start, days.take(d));
    lemma_serve_all_counts(arrive_spec(run_spec(c, start, days.take(d)), d), days[d]);
    vstd::arithmetic::div_mod::lemma_mod_bound(d, l);
    lemma_slot_kept(c, start, days, d, d + 1, q);
    assert((d + l) % l == d % l) by {
        vstd::arithmetic::div_mod::lemma_mod_add_multiples_vanish(d, l);
    }
}

} // verus!
