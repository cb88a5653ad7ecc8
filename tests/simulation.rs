#![allow(deprecated)]

use rustsim::batch::{reduce, run_lanes, run_trials, AggregateStats, Ratio};
use rustsim::config::{reorder_quantity, Config, ConfigError, ELEMENT_COUNT, HORIZON};
use rustsim::pipeline::Pipeline;
use rand::distributions::Distribution;
use rustsim::sampling::{cap_sample, fresh_seeds, lane_year, SampleTable};
use rustsim::trial::{simulate_trial, TrialCounters};
use zipf::ZipfDistribution;

fn draw(dist: &ZipfDistribution) -> u32 {
    cap_sample(dist.sample(&mut rand::thread_rng()))
}

fn zipf_table(shape: f64, size: usize) -> SampleTable {
    let dist = ZipfDistribution::new(ELEMENT_COUNT as usize, shape).unwrap();
    SampleTable::from_samples((0..size).map(|_| draw(&dist)).collect()).unwrap()
}

fn zipf_year() -> Vec<Vec<u32>> {
    let job_lot = ZipfDistribution::new(ELEMENT_COUNT as usize, 2.75).unwrap();
    let traffic = ZipfDistribution::new(ELEMENT_COUNT as usize, 4.0).unwrap();
    (0..HORIZON)
        .map(|_| (0..draw(&traffic)).map(|_| draw(&job_lot)).collect())
        .collect()
}

fn counters(st: u64, ss: u64, ft: u64, fs: u64) -> TrialCounters {
    TrialCounters {
        successful_transactions: st,
        successful_sales: ss,
        failed_transactions: ft,
        failed_sales: fs,
    }
}

fn fixed_tables() -> (SampleTable, SampleTable) {
    let jobs = SampleTable::from_samples(vec![3, 5, 8, 1, 2]).unwrap();
    let traffic = SampleTable::from_samples(vec![1, 2, 1, 3]).unwrap();
    (jobs, traffic)
}

#[test]
fn test_ocl() {
    let c = Config::new(10, 10, 7).unwrap();
    let size = 1 << 20;
    let jobs = zipf_table(2.75, size);
    let traffic = zipf_table(4.0, size);
    let seeds = fresh_seeds(10000, size);
    let stats = run_lanes(&c, 10, &jobs, &traffic, &seeds);
    let t = stats.counters;
    assert!(t.successful_transactions + t.failed_transactions >= 10000 * HORIZON as u64);
    assert!(t.successful_sales >= t.successful_transactions);
    assert!(t.failed_sales >= t.failed_transactions);
}

#[test]
fn configure_rejects_zero_lead_time() {
    assert_eq!(Config::new(10, 0, 7), Err(ConfigError::ZeroLeadTime));
    assert_eq!(Config::new(10, 0, 0), Err(ConfigError::ZeroLeadTime));
}

#[test]
fn configure_rejects_zero_order_quantity() {
    assert_eq!(Config::new(10, 10, 0), Err(ConfigError::ZeroOrderQuantity));
}

#[test]
fn configure_accepts_valid_parameters() {
    let c = Config::new(0, 1, 1).unwrap();
    assert_eq!(c, Config { safety_stock: 0, lead_time: 1, order_quantity: 1 });
}

#[test]
fn reorder_rounds_shortfall_up_to_batches() {
    let c = Config::new(10, 10, 7).unwrap();
    assert_eq!(reorder_quantity(&c, 3), Some(7));
    assert_eq!(reorder_quantity(&c, 2), Some(14));
    assert_eq!(reorder_quantity(&c, 0), Some(14));
    assert_eq!(reorder_quantity(&c, 9), Some(7));
    assert_eq!(reorder_quantity(&c, 10), None);
    assert_eq!(reorder_quantity(&c, 500), None);
}

#[test]
fn raising_safety_stock_keeps_ordering_days() {
    for s in 0..30u64 {
        let low = Config::new(s, 4, 3).unwrap();
        let high = Config::new(s + 5, 4, 3).unwrap();
        for stock in 0..40u64 {
            if reorder_quantity(&low, stock).is_some() {
                assert!(reorder_quantity(&high, stock).is_some());
            }
        }
    }
}

#[test]
fn pipeline_delivers_after_lead_time() {
    let mut p = Pipeline::new(3);
    p.schedule(0, 5);
    assert_eq!(p.arrival_due_today(1), 0);
    assert_eq!(p.arrival_due_today(2), 0);
    assert_eq!(p.arrival_due_today(3), 5);
    assert_eq!(p.arrival_due_today(6), 0);
}

#[test]
fn pipeline_unit_lead_time_delivers_next_day() {
    let mut p = Pipeline::new(1);
    p.schedule(7, 4);
    assert_eq!(p.arrival_due_today(8), 4);
    assert_eq!(p.arrival_due_today(9), 0);
}

#[test]
fn pipeline_schedule_replaces_pending_quantity() {
    let mut p = Pipeline::new(4);
    p.schedule(2, 9);
    p.schedule(6, 3);
    assert_eq!(p.arrival_due_today(10), 3);
}

#[test]
fn trial_order_arrives_on_expected_day() {
    let c = Config::new(5, 3, 5).unwrap();
    let days = vec![vec![], vec![1], vec![5], vec![5]];
    assert_eq!(simulate_trial(&c, 0, &days), counters(1, 5, 2, 6));
}

#[test]
fn trial_order_absent_until_lead_time_passes() {
    let c = Config::new(1, 3, 5).unwrap();
    let days = vec![vec![], vec![], vec![1], vec![1]];
    assert_eq!(simulate_trial(&c, 0, &days), counters(1, 1, 1, 1));
}

#[test]
fn trial_without_demand_counts_nothing() {
    let c = Config::new(10, 10, 7).unwrap();
    let days: Vec<Vec<u32>> = vec![Vec::new(); HORIZON as usize];
    assert_eq!(simulate_trial(&c, 10, &days), counters(0, 0, 0, 0));
    assert_eq!(simulate_trial(&c, 0, &days), counters(0, 0, 0, 0));
}

#[test]
fn trial_transactions_match_arrivals() {
    let c = Config::new(4, 2, 3).unwrap();
    let days = vec![vec![2, 2, 2], vec![], vec![1000], vec![1, 1], vec![3]];
    let r = simulate_trial(&c, 5, &days);
    assert_eq!(r.successful_transactions + r.failed_transactions, 7);
    assert_eq!(r.successful_sales + r.failed_sales, 1011);
}

#[test]
fn trial_serves_in_full_or_loses_sale() {
    let c = Config::new(0, 1, 1).unwrap();
    let days = vec![vec![4, 7, 6]];
    assert_eq!(simulate_trial(&c, 10, &days), counters(2, 10, 1, 7));
}

#[test]
fn golden_trial_with_fixed_samples() {
    let c = Config::new(10, 10, 7).unwrap();
    let (jobs, traffic) = fixed_tables();
    let year = lane_year(&jobs, &traffic, 0);
    assert_eq!(year.len(), HORIZON as usize);
    let r = simulate_trial(&c, 10, &year);
    assert_eq!(r, counters(484, 1739, 154, 690));
    assert_eq!(r.successful_transactions + r.failed_transactions, 638);
}

#[test]
fn lane_year_reads_tables_with_wraparound() {
    let (jobs, traffic) = fixed_tables();
    let year = lane_year(&jobs, &traffic, 2);
    assert_eq!(year[0], vec![8]);
    assert_eq!(year[1], vec![1, 2, 3]);
    assert_eq!(year[2], vec![5]);
    assert_eq!(year[3], vec![8, 1]);
}

#[test]
fn scalar_and_lane_paths_match_with_fixed_seeds() {
    let c = Config::new(10, 10, 7).unwrap();
    let (jobs, traffic) = fixed_tables();
    let seeds = vec![0u64, 1, 7, 123];
    let years: Vec<Vec<Vec<u32>>> = seeds.iter().map(|s| lane_year(&jobs, &traffic, *s)).collect();
    let scalar = run_trials(&c, 10, &years);
    let lanes = run_lanes(&c, 10, &jobs, &traffic, &seeds);
    assert_eq!(scalar, lanes);
    assert_eq!(
        lanes.counters,
        counters(
            484 + 488 + 483 + 492,
            1739 + 1742 + 1738 + 1753,
            154 + 151 + 157 + 148,
            690 + 687 + 694 + 679
        )
    );
}

#[test]
fn reduction_ignores_lane_order() {
    let parts = vec![counters(1, 2, 3, 4), counters(10, 20, 30, 40), counters(5, 0, 7, 9)];
    let permuted = vec![parts[2], parts[0], parts[1]];
    let a = reduce(&parts);
    let b = reduce(&permuted);
    assert_eq!(a, b);
    assert_eq!(a.counters, counters(16, 22, 40, 53));
    assert_eq!(reduce(&Vec::new()).counters, counters(0, 0, 0, 0));
}

#[test]
fn success_rates_are_exact_fractions() {
    let s = AggregateStats { counters: counters(3, 12, 1, 4) };
    assert_eq!(s.transaction_success_rate(), Some(Ratio { numerator: 3, denominator: 4 }));
    assert_eq!(s.volume_success_rate(), Some(Ratio { numerator: 12, denominator: 16 }));
}

#[test]
fn success_rates_undefined_without_demand() {
    let s = AggregateStats { counters: counters(0, 0, 0, 0) };
    assert_eq!(s.transaction_success_rate(), None);
    assert_eq!(s.volume_success_rate(), None);
}

#[test]
fn sample_table_rejects_bad_samples() {
    assert!(SampleTable::from_samples(Vec::new()).is_none());
    assert!(SampleTable::from_samples(vec![1, 0]).is_none());
    assert!(SampleTable::from_samples(vec![1001]).is_none());
    assert!(SampleTable::from_samples(vec![1000, 1]).is_some());
}

#[test]
fn sample_table_lookup_wraps() {
    let t = SampleTable::from_samples(vec![4, 9, 2]).unwrap();
    assert_eq!(t.len(), 3);
    assert_eq!(t.sample_at(0), 4);
    assert_eq!(t.sample_at(4), 9);
    assert_eq!(t.sample_at(u64::MAX), 4);
}

#[test]
fn zipf_draws_stay_in_range() {
    let dist = ZipfDistribution::new(1000, 1.1).unwrap();
    let mut seen_large = false;
    for _ in 0..20000 {
        let d = draw(&dist);
        assert!((1..=1000).contains(&d));
        if d > 1 {
            seen_large = true;
        }
    }
    assert!(seen_large);
    assert_eq!(zipf_table(2.75, 64).len(), 64);
}

#[test]
fn drawn_trial_and_batch_respect_bounds() {
    let c = Config::new(10, 10, 7).unwrap();
    let once = simulate_trial(&c, 10, &zipf_year());
    assert!(once.successful_transactions + once.failed_transactions >= HORIZON as u64);
    let years: Vec<Vec<Vec<u32>>> = (0..50).map(|_| zipf_year()).collect();
    let batch = run_trials(&c, 10, &years);
    let t = batch.counters;
    assert!(t.successful_transactions + t.failed_transactions >= 50 * HORIZON as u64);
    let rate = batch.transaction_success_rate().unwrap();
    assert!(rate.numerator <= rate.denominator);
}

#[test]
fn scalar_and_parallel_rates_are_close() {
    let c = Config::new(10, 10, 7).unwrap();
    let years: Vec<Vec<Vec<u32>>> = (0..2000).map(|_| zipf_year()).collect();
    let scalar = run_trials(&c, 10, &years).transaction_success_rate().unwrap();
    let size = 1 << 18;
    let jobs = zipf_table(2.75, size);
    let traffic = zipf_table(4.0, size);
    let seeds = fresh_seeds(2000, size);
    let parallel = run_lanes(&c, 10, &jobs, &traffic, &seeds).transaction_success_rate().unwrap();
    let a = scalar.numerator as f64 / scalar.denominator as f64;
    let b = parallel.numerator as f64 / parallel.denominator as f64;
    assert!((a - b).abs() < 0.02);
}

#[test]
fn fresh_seeds_are_distinct() {
    let seeds = fresh_seeds(5000, 1 << 16);
    assert_eq!(seeds.len(), 5000);
    assert!(seeds.iter().all(|s| *s < 1 << 16));
    let mut sorted = seeds.clone();
    sorted.sort();
    sorted.dedup();
    assert_eq!(sorted.len(), 5000);
    let mut full = fresh_seeds(8, 8);
    full.sort();
    assert_eq!(full, vec![0, 1, 2, 3, 4, 5, 6, 7]);
}

#[test]
fn cap_sample_limits_to_element_count() {
    assert_eq!(cap_sample(1), 1);
    assert_eq!(cap_sample(1000), 1000);
    assert_eq!(cap_sample(1001), 1000);
    assert_eq!(cap_sample(usize::MAX), 1000);
}

#[test]
fn admits_start_rejects_overflowing_trials() {
    let c = Config::new(10, 10, 7).unwrap();
    assert!(c.admits_start(10));
    assert!(c.admits_start(u64::MAX - 365 * 17));
    assert!(!c.admits_start(u64::MAX - 365 * 17 + 1));
    let big = Config::new(u64::MAX, 1, u64::MAX).unwrap();
    assert!(!big.admits_start(0));
}

#[test]
fn trial_accepts_large_starting_quantity() {
    let c = Config::new(10, 2, 7).unwrap();
    let start = 5_000_000_000u64;
    let days = vec![vec![3], vec![1000]];
    assert_eq!(simulate_trial(&c, start, &days), counters(2, 1003, 0, 0));
}
