//! Simulation parameters and the reorder rule.
use vstd::prelude::*;

verus! {

/// Largest value a demand sample may take: both Zipf distributions are
/// built over the elements `1..=ELEMENT_COUNT`.
pub const ELEMENT_COUNT: u32 = 1000;

/// Number of days in one trial.
pub const HORIZON: u32 = 365;

/// Reasons a configuration is refused.
#[derive(Debug, Clone, Copy, PartialEq, Eq, Structural)]
pub enum ConfigError {
    /// `lead_time` was zero.
    ZeroLeadTime,
    /// `order_quantity` was zero.
    ZeroOrderQuantity,
    /// A Zipf shape parameter was not strictly positive.
    NonPositiveShape,
}

/// The integer part of a configuration: reorder threshold, lead time and
/// batch size.
#[derive(Debug, Clone, Copy, PartialEq, Eq, Structural)]
pub struct Config {
    pub safety_stock: u64,
    pub lead_time: u32,
    pub order_quantity: u64,
}

/// The outcome of validating a configuration: a zero lead time is refused
/// first, then a zero batch size.
pub open spec fn config_spec(safety_stock: u64, lead_time: u32, order_quantity: u64) -> Result<
    Config,
    ConfigError,
> {
    if lead_time == 0 {
        Err(ConfigError::ZeroLeadTime)
    } else if order_quantity == 0 {
        Err(ConfigError::ZeroOrderQuantity)
    } else {
        Ok(Config { safety_stock, lead_time, order_quantity })
    }
}

impl Config {
    /// A configuration the simulation can run with.
    pub open spec fn wf(&self) -> bool {
        self.lead_time >= 1 && self.order_quantity >= 1
    }

    /// A trial from `start` units cannot overflow a `u64` stock: each day
    /// adds at most one truck of under `safety_stock + order_quantity` units.
    pub open spec fn admits(&self, start: int) -> bool {
        start + HORIZON * (self.safety_stock + self.order_quantity) <= u64::MAX
    }

    /// Whether a trial from `start` units stays within a `u64` stock.
    pub fn admits_start(&self, start: u64) -> (r: bool)
        ensures
            r == self.admits(start as int),
    {
        let step: u128 = self.safety_stock as u128 + self.order_quantity as u128;
        assert(365 * step <= 365 * 0x2_0000_0000_0000_0000) by (nonlinear_arith)
            requires
                step <= 0x2_0000_0000_0000_0000,
        ;
        start as u128 + 365 * step <= u64::MAX as u128
    }

    /// Validates and builds a configuration.
    pub fn new(safety_stock: u64, lead_time: u32, order_quantity: u64) -> (r: Result<
        Config,
        ConfigError,
    >)
        ensures
            r == config_spec(safety_stock, lead_time, order_quantity),
            r matches Ok(c) ==> c.wf(),
    {
        if lead_time == 0 {
            Err(ConfigError::ZeroLeadTime)
        } else if order_quantity == 0 {
            Err(ConfigError::ZeroOrderQuantity)
        } else {
            Ok(Config { safety_stock, lead_time, order_quantity })
        }
    }
}

/// `ceil(a / b)` for a positive divisor.
pub open spec fn ceil_div(a: int, b: int) -> int {
    (a + b - 1) / b
}

/// The quantity ordered at the end of a day that closes with `stock` units
/// on hand: the smallest multiple of `order_quantity` covering the
/// shortfall below `safety_stock`, or nothing when there is no shortfall.
pub open spec fn reorder_spec(c: Config, stock: int) -> Option<int> {
    if stock < c.safety_stock {
        Some(ceil_div(c.safety_stock - stock, c.order_quantity as int) * c.order_quantity)
    } else {
        None
    }
}

/// A multiple of `b` rounded up from `a` stays below `a + b`.
pub proof fn lemma_ceil_mul_bound(a: int, b: int)
    requires
        a >= 0,
        b >= 1,
    ensures
        0 <= ceil_div(a, b) * b <= a + b - 1,
        a <= ceil_div(a, b) * b,
{
    let x = a + b - 1;
    vstd::arithmetic::div_mod::lemma_fundamental_div_mod(x, b);
    vstd::arithmetic::div_mod::lemma_mod_bound(x, b);
    assert(x / b >= 0) by (nonlinear_arith)
        requires
            x >= 0,
            b >= 1,
    ;
    assert(b * (x / b) == (x / b) * b) by (nonlinear_arith);
}

/// Decides the end-of-day order for `stock` units on hand.
pub fn reorder_quantity(c: &Config, stock: u64) -> (r: Option<u64>)
    requires
        c.wf(),
        c.safety_stock + c.order_quantity <= u64::MAX,
    ensures
        r matches Some(q) ==> reorder_spec(*c, stock as int) == Some(q as int),
        r is None ==> reorder_spec(*c, stock as int) is None,
        r matches Some(q) ==> q <= c.safety_stock + c.order_quantity,
{
    if stock < c.safety_stock {
        let short: u64 = c.safety_stock - stock;
        let q: u64 = c.order_quantity;
        let orders: u64 = (short + q - 1) / q;
        proof {
            lemma_ceil_mul_bound(short as int, q as int);
        }
        Some(orders * q)
    } else {
        None
    }
}

/// Raising the threshold never turns an ordering day into a non-ordering
/// one: for the same closing stock, whenever the lower threshold orders,
/// so does the higher one.
pub proof fn lemma_reorder_trigger_monotone(low: Config, high: Config, stock: int)
    requires
        low.wf(),
        high.wf(),
        low.safety_stock <= high.safety_stock,
    ensures
        reorder_spec(low, stock) is Some ==> reorder_spec(high, stock) is Some,
{
}

} // verus!
