//! Demand samples: the precomputed sample table of the batched path, the
//! year of demand a lane reads from a pair of tables, and the lane seeds.
use vstd::prelude::*;

use crate::config::{ELEMENT_COUNT, HORIZON};
use crate::trial::{
    drawn_day, drawn_year, lemma_drawn_year_demand, lemma_push_drawn_day, total_customers,
    valid_year, year_model,
};

verus! {

/// Largest lane seed: keeps every table position a lane reads inside `u64`.
pub const MAX_SEED: u64 = 0xFFFF_FFFF_FFFF;

/// Number of entries in a sample table of the batched path.
pub const TABLE_SIZE: usize = 16777216;

/// Relies on `rand::random::<u32>`: a freshly drawn seed; nothing is
/// stated of its value.
#[verifier::external_body]
pub(crate) fn random_seed() -> u32 {
    rand::random::<u32>()
}

/// `min(s, ELEMENT_COUNT)`: a draw taken as a sample value. A distribution
/// over `ELEMENT_COUNT` elements never draws above that, so the cap only
/// guards against one built over more elements.
pub fn cap_sample(s: usize) -> (r: u32)
    ensures
        r == (if s > ELEMENT_COUNT { ELEMENT_COUNT as int } else { s as int }),
{
    if s > ELEMENT_COUNT as usize {
        ELEMENT_COUNT
    } else {
        s as u32
    }
}

/// A fixed sequence of pre-drawn samples, read with wraparound.
pub struct SampleTable {
    samples: Vec<u32>,
}

impl View for SampleTable {
    type V = Seq<u32>;

    closed spec fn view(&self) -> Seq<u32> {
        self.samples@
    }
}

/// Every entry is a sample value.
pub open spec fn valid_samples(s: Seq<u32>) -> bool {
    forall|i: int| 0 <= i < s.len() ==> 1 <= #[trigger] s[i] <= ELEMENT_COUNT
}

impl SampleTable {
    pub open spec fn wf(&self) -> bool {
        self@.len() >= 1 && valid_samples(self@)
    }

    /// A table holding exactly `samples`, or `None` when it is empty or an
    /// entry lies outside `1..=ELEMENT_COUNT`.
    pub fn from_samples(samples: Vec<u32>) -> (r: Option<SampleTable>)
        ensures
            r is Some <==> samples@.len() >= 1 && valid_samples(samples@),
            r matches Some(t) ==> t@ == samples@ && t.wf(),
    {
        if samples.len() == 0 {
            return None;
        }
        let mut i: usize = 0;
        while i < samples.len()
            invariant
                i <= samples@.len(),
                forall|k: int| 0 <= k < i ==> 1 <= #[trigger] samples@[k] <= ELEMENT_COUNT,
            decreases samples@.len() - i,
        {
            if samples[i] < 1 || samples[i] > ELEMENT_COUNT {
                return None;
            }
            i = i + 1;
        }
        Some(SampleTable { samples })
    }

    pub fn len(&self) -> (r: usize)
        ensures
            r == self@.len(),
    {
        self.samples.len()
    }

    /// The entry at `index` modulo the table's length.
    pub fn sample_at(&self, index: u64) -> (r: u32)
        requires
            self.wf(),
        ensures
            r == self@[index as int % self@.len() as int],
            1 <= r <= ELEMENT_COUNT,
    {
        let len = self.samples.len();
        let i: usize = (index % (len as u64)) as usize;
        self.samples[i]
    }
}

/// `count` requests read from `jobs` starting at position `pos`.
pub open spec fn lane_requests(jobs: Seq<u32>, pos: int, count: int) -> Seq<int> {
    Seq::new(count as nat, |i: int| jobs[(pos + i) % jobs.len() as int] as int)
}

/// The first `n` days of demand of the lane seeded with `seed`: day `d` has
/// `traffic[(seed + d) mod len]` customers, whose requests are read from
/// `jobs` one after the other, starting at position `seed`.
pub open spec fn lane_days(jobs: Seq<u32>, traffic: Seq<u32>, seed: int, n: nat) -> Seq<
    Seq<int>,
>
    decreases n,
{
    if n == 0 {
        Seq::empty()
    } else {
        let prev = lane_days(jobs, traffic, seed, (n - 1) as nat);
        prev.push(
            lane_requests(
                jobs,
                seed + total_customers(prev),
                traffic[(seed + n - 1) % traffic.len() as int] as int,
            ),
        )
    }
}

/// The year of demand a lane seeded with `seed` reads from the two tables.
pub fn lane_year(jobs: &SampleTable, traffic: &SampleTable, seed: u64) -> (r: Vec<Vec<u32>>)
    requires
        jobs.wf(),
        traffic.wf(),
        seed <= MAX_SEED,
    ensures
        drawn_year(r@),
        valid_year(r@),
        year_model(r@) == lane_days(jobs@, traffic@, seed as int, HORIZON as nat),
{
    let mut days: Vec<Vec<u32>> = Vec::new();
    let mut jpos: u64 = seed;
    let mut day: u32 = 0;
    while day < HORIZON
        invariant
            jobs.wf(),
            traffic.wf(),
            seed <= MAX_SEED,
            day <= HORIZON,
            days@.len() == day,
            forall|d: int| 0 <= d < days@.len() ==> drawn_day(#[trigger] days@[d]@),
            year_model(days@) == lane_days(jobs@, traffic@, seed as int, day as nat),
            jpos == seed + total_customers(year_model(days@)),
            jpos <= seed + day * ELEMENT_COUNT,
        decreases HORIZON - day,
    {
        let count = traffic.sample_at(seed + day as u64);
        let ghost pos0 = jpos as int;
        let mut requests: Vec<u32> = Vec::new();
        let mut k: u32 = 0;
        while k < count
            invariant
                jobs.wf(),
                k <= count,
                1 <= count <= ELEMENT_COUNT,
                pos0 <= MAX_SEED + HORIZON * ELEMENT_COUNT,
                jpos == pos0 + k,
                requests@.len() == k,
                forall|i: int| 0 <= i < k ==> 1 <= #[trigger] requests@[i] <= ELEMENT_COUNT,
                requests@.map_values(|x: u32| x as int) == lane_requests(jobs@, pos0, k as int),
            decreases count - k,
        {
            let r = jobs.sample_at(jpos);
            let ghost before = requests@;
            requests.push(r);
            proof {
                assert(before.map_values(|x: u32| x as int) == lane_requests(jobs@, pos0, k as int));
                assert forall|i: int| 0 <= i < k + 1 implies #[trigger] requests@[i] as int
                    == lane_requests(jobs@, pos0, k + 1)[i] by {
                    if i < k {
                        assert(requests@[i] == before[i]);
                        assert(lane_requests(jobs@, pos0, k as int)[i] == lane_requests(jobs@, pos0, k + 1)[i]);
                    } else {
                        assert(requests@[i] == r);
                    }
                }
                assert(requests@.map_values(|x: u32| x as int) =~= lane_requests(
                    jobs@,
                    pos0,
                    k + 1,
                ));
            }
            jpos = jpos + 1;
            k = k + 1;
        }
        let ghost prev = days@;
        days.push(requests);
        proof {
            assert(year_model(days@) =~= year_model(prev).push(
                requests@.map_values(|x: u32| x as int),
            ));
            assert(year_model(days@).drop_last() =~= year_model(prev));
            lemma_push_drawn_day(prev, requests);
        }
        day = day + 1;
    }
    proof {
        lemma_drawn_year_demand(days@);
    }
    days
}

/// Whether `s` is already among `seeds`.
fn seed_taken(seeds: &Vec<u64>, s: u64) -> (r: bool)
    ensures
        r == seeds@.contains(s),
{
    let mut i: usize = 0;
    while i < seeds.len()
        invariant
            i <= seeds@.len(),
            forall|k: int| 0 <= k < i ==> seeds@[k] != s,
        decreases seeds@.len() - i,
    {
        if seeds[i] == s {
            return true;
        }
        i = i + 1;
    }
    false
}

/// A sequence holding every value up to `n` has more than `n` entries.
proof fn lemma_covering_length(s: Seq<u64>, n: int)
    requires
        0 <= n < u64::MAX,
        forall|w: u64| w <= n ==> s.contains(w),
    ensures
        s.len() > n,
{
    broadcast use vstd::seq_lib::seq_to_set_is_finite;

    let ints = s.map_values(|x: u64| x as int);
    let t = ints.to_set();
    ints.lemma_cardinality_of_set();
    vstd::set_lib::lemma_int_range(0, n + 1);
    assert forall|i: int| vstd::set_lib::set_int_range(0, n + 1).contains(i) implies t.contains(
        i,
    ) by {
        let w = i as u64;
        assert(s.contains(w));
        let k = choose|k: int| 0 <= k < s.len() && s[k] == w;
        assert(ints[k] == i);
    }
    vstd::set_lib::lemma_len_subset(vstd::set_lib::set_int_range(0, n + 1), t);
}

/// The smallest value not among `seeds`.
fn smallest_free(seeds: &Vec<u64>) -> (r: u64)
    requires
        seeds@.len() < u64::MAX,
    ensures
        !seeds@.contains(r),
        r <= seeds@.len(),
{
    let mut v: u64 = 0;
    while seed_taken(seeds, v)
        invariant
            seeds@.len() < u64::MAX,
            v <= seeds@.len(),
            forall|w: u64| w < v ==> seeds@.contains(w),
        decreases seeds@.len() - v,
    {
        proof {
            if v == seeds@.len() {
                lemma_covering_length(seeds@, v as int);
            }
        }
        v = v + 1;
    }
    v
}

/// `count` lane seeds, each a fresh draw reduced modulo the table length,
/// so that no two lanes start at the same table position. A draw that
/// repeats an earlier seed is drawn again once; should that repeat too,
/// the smallest unused position is taken instead.
pub fn fresh_seeds(count: u32, table_len: usize) -> (r: Vec<u64>)
    requires
        count <= table_len,
        table_len <= MAX_SEED,
    ensures
        r@.len() == count,
        r@.no_duplicates(),
        forall|i: int| 0 <= i < r@.len() ==> #[trigger] r@[i] < table_len,
        forall|i: int, j: int|
            0 <= i < r@.len() && 0 <= j < r@.len() && i != j ==> #[trigger] (r@[i] % (
            table_len as u64)) != #[trigger] (r@[j] % (table_len as u64)),
{
    let m: u64 = table_len as u64;
    let mut seeds: Vec<u64> = Vec::new();
    let mut i: u32 = 0;
    while i < count
        invariant
            count <= m,
            m == table_len,
            m <= MAX_SEED,
            i <= count,
            seeds@.len() == i,
            seeds@.no_duplicates(),
            forall|k: int| 0 <= k < seeds@.len() ==> #[trigger] seeds@[k] < m,
        decreases count - i,
    {
        let mut s = random_seed() as u64 % m;
        if seed_taken(&seeds, s) {
            s = random_seed() as u64 % m;
            if seed_taken(&seeds, s) {
                s = smallest_free(&seeds);
            }
        }
        let ghost prev = seeds@;
        seeds.push(s);
        proof {
            assert forall|a: int, b: int|
                0 <= a < seeds@.len() && 0 <= b < seeds@.len() && a != b implies seeds@[a]
                != seeds@[b] by {
                if a < prev.len() && b < prev.len() {
                    assert(seeds@[a] == prev[a] && seeds@[b] == prev[b]);
                } else if a < prev.len() {
                    assert(prev.contains(prev[a]));
                } else if b < prev.len() {
                    assert(prev.contains(prev[b]));
                }
            }
            assert forall|k: int| 0 <= k < seeds@.len() implies #[trigger] seeds@[k] < m by {
                if k < prev.len() {
                    assert(seeds@[k] == prev[k]);
                }
            }
        }
        i = i + 1;
    }
    proof {
        assert forall|a: int, b: int|
            0 <= a < seeds@.len() && 0 <= b < seeds@.len() && a != b implies #[trigger] (
            seeds@[a] % m) != #[trigger] (seeds@[b] % m) by {
            vstd::arithmetic::div_mod::lemma_small_mod(seeds@[a] as nat, m as nat);
            vstd::arithmetic::div_mod::lemma_small_mod(seeds@[b] as nat, m as nat);
        }
    }
    seeds
}

} // verus!
