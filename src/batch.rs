//! The engine and its batches: the scalar path, the lane path over sample
//! tables, and the reduction of per-trial counters into aggregate
//! statistics.
use vstd::prelude::*;

use crate::config::{Config, HORIZON};
use crate::sampling::{lane_days, lane_year, SampleTable, MAX_SEED};
use crate::trial::{
    bounded_trial, counters_match, drawn_year, total_customers, lemma_demand_lower_bounds, lemma_drawn_year_demand,
    simulate_trial, trial_result, valid_year, year_model, TrialCounters, TrialModel,
};

verus! {

/// Most trials one batch sums: a `u32` count keeps every total inside `u64`.
pub const MAX_TRIALS: u64 = 0xFFFF_FFFF;

/// The four counters as integers.
pub struct Sums {
    pub st: int,
    pub ss: int,
    pub ft: int,
    pub fs: int,
}

pub open spec fn counter_sums(t: TrialCounters) -> Sums {
    Sums {
        st: t.successful_transactions as int,
        ss: t.successful_sales as int,
        ft: t.failed_transactions as int,
        fs: t.failed_sales as int,
    }
}

pub open spec fn model_sums(m: TrialModel) -> Sums {
    Sums { st: m.st, ss: m.ss, ft: m.ft, fs: m.fs }
}

pub open spec fn add_sums(p: Sums, q: Sums) -> Sums {
    Sums { st: p.st + q.st, ss: p.ss + q.ss, ft: p.ft + q.ft, fs: p.fs + q.fs }
}

/// Field-wise sum.
pub open spec fn sum_all(s: Seq<Sums>) -> Sums
    decreases s.len(),
{
    if s.len() == 0 {
        Sums { st: 0, ss: 0, ft: 0, fs: 0 }
    } else {
        add_sums(sum_all(s.drop_last()), s.last())
    }
}

/// Field-wise sum of per-trial counters, in index order.
pub open spec fn sum_counters(s: Seq<TrialCounters>) -> Sums
    decreases s.len(),
{
    if s.len() == 0 {
        Sums { st: 0, ss: 0, ft: 0, fs: 0 }
    } else {
        add_sums(sum_counters(s.drop_last()), counter_sums(s.last()))
    }
}

pub(crate) proof fn lemma_sum_counters_pointwise(a: Seq<TrialCounters>, b: Seq<Sums>)
    requires
        a.len() == b.len(),
        forall|k: int| 0 <= k < a.len() ==> counter_sums(#[trigger] a[k]) == b[k],
    ensures
        sum_counters(a) == sum_all(b),
    decreases a.len(),
{
    if a.len() > 0 {
        lemma_sum_counters_pointwise(a.drop_last(), b.drop_last());
    }
}

proof fn lemma_sum_remove(s: Seq<TrialCounters>, j: int)
    requires
        0 <= j < s.len(),
    ensures
        sum_counters(s) == add_sums(sum_counters(s.remove(j)), counter_sums(s[j])),
    decreases s.len(),
{
    if j == s.len() - 1 {
        assert(s.remove(j) =~= s.drop_last());
    } else {
        lemma_sum_remove(s.drop_last(), j);
        assert(s.remove(j).drop_last() =~= s.drop_last().remove(j));
        assert(s.remove(j).last() == s.last());
    }
}

/// Reducing lane outputs in any order gives the same totals: two sequences
/// holding the same counters, each as often, sum to the same four values.
pub proof fn lemma_reduction_order_invariant(a: Seq<TrialCounters>, b: Seq<TrialCounters>)
    requires
        a.to_multiset() == b.to_multiset(),
    ensures
        sum_counters(a) == sum_counters(b),
    decreases a.len(),
{
    a.to_multiset_ensures();
    b.to_multiset_ensures();
    if a.len() > 0 {
        let x = a.last();
        let rest = a.drop_last();
        rest.to_multiset_ensures();
        assert(a =~= rest.push(x));
        assert(a.to_multiset().count(x) > 0);
        assert(b.contains(x));
        let j = choose|j: int| 0 <= j < b.len() && b[j] == x;
        assert(b.remove(j).to_multiset() =~= rest.to_multiset());
        lemma_reduction_order_invariant(rest, b.remove(j));
        lemma_sum_remove(b, j);
    }
}

/// The summed outcomes of one trial per year of `years`.
pub open spec fn batch_sums(c: Config, start: int, years: Seq<Seq<Seq<int>>>) -> Sums {
    sum_all(Seq::new(years.len(), |i: int| model_sums(trial_result(c, start, years[i]))))
}

/// The years read by the lanes seeded with `seeds`, one lane per seed.
pub open spec fn lane_years(jobs: Seq<u32>, traffic: Seq<u32>, seeds: Seq<u64>) -> Seq<
    Seq<Seq<int>>,
> {
    Seq::new(seeds.len(), |i: int| lane_days(jobs, traffic, seeds[i] as int, HORIZON as nat))
}

/// Summed counters of a batch, from which the two success rates derive.
#[derive(Debug, Clone, Copy, PartialEq, Eq, Structural)]
pub struct AggregateStats {
    pub counters: TrialCounters,
}

/// A success rate as an exact fraction.
#[derive(Debug, Clone, Copy, PartialEq, Eq, Structural)]
pub struct Ratio {
    pub numerator: u64,
    pub denominator: u64,
}

impl AggregateStats {
    /// Both denominators fit in a `u64`.
    pub open spec fn wf(&self) -> bool {
        &&& self.counters.successful_transactions + self.counters.failed_transactions <= u64::MAX
        &&& self.counters.successful_sales + self.counters.failed_sales <= u64::MAX
    }

    /// Served over all transactions; `None` when there was no customer at all.
    pub fn transaction_success_rate(&self) -> (r: Option<Ratio>)
        requires
            self.wf(),
        ensures
            self.counters.successful_transactions + self.counters.failed_transactions == 0 ==> r
                is None,
            self.counters.successful_transactions + self.counters.failed_transactions != 0 ==> r
                == Some(
                Ratio {
                    numerator: self.counters.successful_transactions,
                    denominator: (self.counters.successful_transactions
                        + self.counters.failed_transactions) as u64,
                },
            ),
    {
        let d = self.counters.successful_transactions + self.counters.failed_transactions;
        if d == 0 {
            None
        } else {
            Some(Ratio { numerator: self.counters.successful_transactions, denominator: d })
        }
    }

    /// Units sold over units asked for; `None` when nothing was asked for.
    pub fn volume_success_rate(&self) -> (r: Option<Ratio>)
        requires
            self.wf(),
        ensures
            self.counters.successful_sales + self.counters.failed_sales == 0 ==> r is None,
            self.counters.successful_sales + self.counters.failed_sales != 0 ==> r == Some(
                Ratio {
                    numerator: self.counters.successful_sales,
                    denominator: (self.counters.successful_sales
                        + self.counters.failed_sales) as u64,
                },
            ),
    {
        let d = self.counters.successful_sales + self.counters.failed_sales;
        if d == 0 {
            None
        } else {
            Some(Ratio { numerator: self.counters.successful_sales, denominator: d })
        }
    }
}

/// What every trial over a drawn year reaches: at least one transaction a
/// day, at least one unit per transaction, within the bounds of a year.
pub open spec fn full_trial(r: TrialCounters) -> bool {
    &&& bounded_trial(r)
    &&& r.successful_transactions + r.failed_transactions >= HORIZON
    &&& r.successful_sales >= r.successful_transactions
    &&& r.failed_sales >= r.failed_transactions
}

/// What a batch of `n` trials over drawn years reaches.
pub open spec fn full_batch(r: TrialCounters, n: int) -> bool {
    &&& r.successful_transactions + r.failed_transactions >= n * HORIZON
    &&& r.successful_sales >= r.successful_transactions
    &&& r.failed_sales >= r.failed_transactions
}

proof fn lemma_sum_full_trials(parts: Seq<TrialCounters>)
    requires
        forall|k: int| 0 <= k < parts.len() ==> full_trial(#[trigger] parts[k]),
    ensures
        sum_counters(parts).st + sum_counters(parts).ft >= parts.len() * HORIZON,
        sum_counters(parts).ss >= sum_counters(parts).st,
        sum_counters(parts).fs >= sum_counters(parts).ft,
    decreases parts.len(),
{
    if parts.len() > 0 {
        lemma_sum_full_trials(parts.drop_last());
        assert(full_trial(parts[parts.len() - 1]));
    }
}

/// A trial over a drawn year is a full trial.
proof fn lemma_drawn_trial(c: Config, start: int, y: Seq<Vec<u32>>, r: TrialCounters)
    requires
        drawn_year(y),
        bounded_trial(r),
        counters_match(r, trial_result(c, start, year_model(y))),
    ensures
        full_trial(r),
{
    lemma_drawn_year_demand(y);
    lemma_demand_lower_bounds(c, start, year_model(y));
}

/// Sums per-trial counters, one entry per trial or lane, in index order.
pub fn reduce(parts: &Vec<TrialCounters>) -> (r: AggregateStats)
    requires
        parts@.len() <= MAX_TRIALS,
        forall|i: int| 0 <= i < parts@.len() ==> bounded_trial(#[trigger] parts@[i]),
    ensures
        r.wf(),
        counter_sums(r.counters) == sum_counters(parts@),
{
    let ghost s = parts@;
    let mut acc = TrialCounters::zero();
    let mut i: usize = 0;
    while i < parts.len()
        invariant
            parts@.len() <= MAX_TRIALS,
            forall|k: int| 0 <= k < parts@.len() ==> bounded_trial(#[trigger] parts@[k]),
            s == parts@,
            i <= parts@.len(),
            acc.successful_transactions + acc.failed_transactions <= i * 365000,
            acc.successful_sales + acc.failed_sales <= i * 365000000,
            counter_sums(acc) == sum_counters(s.take(i as int)),
        decreases parts@.len() - i,
    {
        let p = parts[i];
        assert(bounded_trial(parts@[i as int]));
        assert(p.successful_transactions + p.failed_transactions <= 365000);
        assert(p.successful_sales + p.failed_sales <= 365000000);
        assert((i + 1) * 365000 == i * 365000 + 365000) by (nonlinear_arith);
        assert((i + 1) * 365000000 == i * 365000000 + 365000000) by (nonlinear_arith);
        assert((i + 1) * 365000000 <= 0xFFFF_FFFF * 365000000) by (nonlinear_arith)
            requires
                i + 1 <= 0xFFFF_FFFF,
        ;
        acc = TrialCounters {
            successful_transactions: acc.successful_transactions + p.successful_transactions,
            successful_sales: acc.successful_sales + p.successful_sales,
            failed_transactions: acc.failed_transactions + p.failed_transactions,
            failed_sales: acc.failed_sales + p.failed_sales,
        };
        proof {
            assert(s.take(i + 1).drop_last() =~= s.take(i as int));
        }
        i = i + 1;
    }
    proof {
        assert(s.take(i as int) =~= s);
    }
    AggregateStats { counters: acc }
}

/// The scalar path over given years: one trial per year, each from
/// `starting_quantity`, run in order and summed.
pub fn run_trials(c: &Config, starting_quantity: u64, years: &Vec<Vec<Vec<u32>>>) -> (r:
    AggregateStats)
    requires
        c.wf(),
        c.admits(starting_quantity as int),
        years@.len() <= MAX_TRIALS,
        forall|i: int| 0 <= i < years@.len() ==> valid_year(#[trigger] years@[i]@),
    ensures
        r.wf(),
        counter_sums(r.counters) == batch_sums(
            *c,
            starting_quantity as int,
            years@.map_values(|y: Vec<Vec<u32>>| year_model(y@)),
        ),
        (forall|i: int| 0 <= i < years@.len() ==> drawn_year(#[trigger] years@[i]@)) ==> full_batch(
            r.counters,
            years@.len() as int,
        ),
{
    let mut parts: Vec<TrialCounters> = Vec::new();
    let mut i: usize = 0;
    while i < years.len()
        invariant
            c.wf(),
            c.admits(starting_quantity as int),
            years@.len() <= MAX_TRIALS,
            forall|k: int| 0 <= k < years@.len() ==> valid_year(#[trigger] years@[k]@),
            i <= years@.len(),
            parts@.len() == i,
            forall|k: int| 0 <= k < i ==> bounded_trial(#[trigger] parts@[k]),
            forall|k: int|
                0 <= k < i && drawn_year(years@[k]@) ==> full_trial(#[trigger] parts@[k]),
            forall|k: int|
                0 <= k < i ==> counter_sums(#[trigger] parts@[k]) == model_sums(
                    trial_result(*c, starting_quantity as int, year_model(years@[k]@)),
                ),
        decreases years@.len() - i,
    {
        let t = simulate_trial(c, starting_quantity, &years[i]);
        proof {
            if drawn_year(years@[i as int]@) {
                lemma_drawn_trial(*c, starting_quantity as int, years@[i as int]@, t);
            }
        }
        parts.push(t);
        i = i + 1;
    }
    let r = reduce(&parts);
    proof {
        if forall|k: int| 0 <= k < years@.len() ==> drawn_year(#[trigger] years@[k]@) {
            lemma_sum_full_trials(parts@);
        }
        let ym = years@.map_values(|y: Vec<Vec<u32>>| year_model(y@));
        lemma_sum_counters_pointwise(
            parts@,
            Seq::new(ym.len(), |k: int| model_sums(trial_result(*c, starting_quantity as int, ym[k]))),
        );
    }
    r
}

/// The lane path: one trial per seed, each reading its year from the two
/// shared tables, with each lane's counters written to its own slot and the
/// slots summed afterwards.
pub fn run_lanes(
    c: &Config,
    starting_quantity: u64,
    jobs: &SampleTable,
    traffic: &SampleTable,
    seeds: &Vec<u64>,
) -> (r: AggregateStats)
    requires
        c.wf(),
        c.admits(starting_quantity as int),
        jobs.wf(),
        traffic.wf(),
        seeds@.len() <= MAX_TRIALS,
        forall|i: int| 0 <= i < seeds@.len() ==> #[trigger] seeds@[i] <= MAX_SEED,
    ensures
        r.wf(),
        counter_sums(r.counters) == batch_sums(
            *c,
            starting_quantity as int,
            lane_years(jobs@, traffic@, seeds@),
        ),
        full_batch(r.counters, seeds@.len() as int),
{
    let mut lanes: Vec<TrialCounters> = Vec::new();
    let mut i: usize = 0;
    while i < seeds.len()
        invariant
            c.wf(),
            c.admits(starting_quantity as int),
            jobs.wf(),
            traffic.wf(),
            seeds@.len() <= MAX_TRIALS,
            forall|k: int| 0 <= k < seeds@.len() ==> #[trigger] seeds@[k] <= MAX_SEED,
            i <= seeds@.len(),
            lanes@.len() == i,
            forall|k: int| 0 <= k < i ==> full_trial(#[trigger] lanes@[k]),
            forall|k: int|
                0 <= k < i ==> counter_sums(#[trigger] lanes@[k]) == model_sums(
                    trial_result(
                        *c,
                        starting_quantity as int,
                        lane_days(jobs@, traffic@, seeds@[k] as int, HORIZON as nat),
                    ),
                ),
        decreases seeds@.len() - i,
    {
        let year = lane_year(jobs, traffic, seeds[i]);
        let t = simulate_trial(c, starting_quantity, &year);
        proof {
            lemma_drawn_trial(*c, starting_quantity as int, year@, t);
        }
        lanes.push(t);
        i = i + 1;
    }
    let r = reduce(&lanes);
    proof {
        lemma_sum_full_trials(lanes@);
        let ly = lane_years(jobs@, traffic@, seeds@);
        lemma_sum_counters_pointwise(
            lanes@,
            Seq::new(ly.len(), |k: int| model_sums(trial_result(*c, starting_quantity as int, ly[k]))),
        );
    }
    r
}

/// With the same demand the scalar path and the lane path agree exactly:
/// when each year handed to the scalar path is the year the matching lane
/// reads from the tables, both batches sum to the same counters.
pub proof fn lemma_scalar_and_lane_paths_agree(
    c: Config,
    start: int,
    years: Seq<Vec<Vec<u32>>>,
    jobs: Seq<u32>,
    traffic: Seq<u32>,
    seeds: Seq<u64>,
)
    requires
        years.len() == seeds.len(),
        forall|i: int|
            0 <= i < years.len() ==> year_model(#[trigger] years[i]@) == lane_days(
                jobs,
                traffic,
                seeds[i] as int,
                HORIZON as nat,
            ),
    ensures
        batch_sums(c, start, years.map_values(|y: Vec<Vec<u32>>| year_model(y@))) == batch_sums(
            c,
            start,
            lane_years(jobs, traffic, seeds),
        ),
{
    assert(years.map_values(|y: Vec<Vec<u32>>| year_model(y@)) =~= lane_years(
        jobs,
        traffic,
        seeds,
    ));
}

/// Number of customers over every year of a batch.
pub open spec fn batch_customers(years: Seq<Seq<Seq<int>>>) -> int
    decreases years.len(),
{
    if years.len() == 0 {
        0
    } else {
        batch_customers(years.drop_last()) + total_customers(years.last())
    }
}

/// Over a whole batch, served and lost transactions add up to the number of
/// customers that arrived in all its trials.
pub proof fn lemma_batch_transactions_equal_arrivals(
    c: Config,
    start: int,
    years: Seq<Seq<Seq<int>>>,
)
    ensures
        batch_sums(c, start, years).st + batch_sums(c, start, years).ft == batch_customers(years),
    decreases years.len(),
{
    if years.len() > 0 {
        let rest = years.drop_last();
        lemma_batch_transactions_equal_arrivals(c, start, rest);
        let all = Seq::new(years.len(), |i: int| model_sums(trial_result(c, start, years[i])));
        assert(all.drop_last() =~= Seq::new(
            rest.len(),
            |i: int| model_sums(trial_result(c, start, rest[i])),
        ));
        crate::trial::lemma_transactions_equal_arrivals(c, start, years.last());
    }
}

} // verus!
