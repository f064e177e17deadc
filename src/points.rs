use vstd::prelude::*;

verus! {

/// Number of decimal digits of `x`; zero has none.
pub open spec fn digit_count(x: nat) -> nat
    decreases x,
{
    if x == 0 {
        0
    } else {
        1 + digit_count(x / 10)
    }
}

/// Contributed value in whole currency units: `e8s * rate / 10^8` gives
/// micro-units, and a further `/ 10^6` gives whole units.
pub open spec fn usd_units(icp_e8s: nat, rate: nat) -> nat {
    (icp_e8s * rate / 100_000_000) / 1_000_000
}

/// Tiered score: one point per unit up to the threshold, two per unit above it.
pub open spec fn tiered_points(usd: nat) -> nat {
    if usd <= 100_000 {
        usd
    } else {
        100_000 + 2 * (usd - 100_000) as nat
    }
}

pub open spec fn weighted_total(w_holder: nat, holder: nat, w_contribution: nat, contribution: nat) -> nat {
    w_holder * holder + w_contribution * contribution
}

proof fn lemma_digit_count_monotone(a: nat, b: nat)
    requires
        a <= b,
    ensures
        digit_count(a) <= digit_count(b),
    decreases b,
{
    if a > 0 {
        lemma_digit_count_monotone(a / 10, b / 10);
    }
}

proof fn lemma_digit_count_bound(x: nat)
    requires
        x <= u128::MAX,
    ensures
        digit_count(x) <= 39,
{
    lemma_digit_count_monotone(x, u128::MAX as nat);
    reveal_with_fuel(digit_count, 40);
}

/// Decimal digit count of a balance, a coarse logarithmic compression.
pub fn log10_like(x: u128) -> (r: u64)
    ensures
        r == digit_count(x as nat),
        r <= 39,
{
    proof {
        lemma_digit_count_bound(x as nat);
    }
    let mut n: u128 = x;
    let mut d: u64 = 0;
    while n > 0
        invariant
            d + digit_count(n as nat) == digit_count(x as nat),
            digit_count(x as nat) <= 39,
        decreases n,
    {
        n = n / 10;
        d = d + 1;
    }
    d
}

/// Points for a held balance: its decimal digit count.
pub fn holder_points(amount: u128) -> (r: u64)
    ensures
        r == digit_count(amount as nat),
        r <= 39,
{
    log10_like(amount)
}

/// Contributed e8s at a rate of micro-units per whole coin, in micro-units.
pub fn icp_usd(icp_e8s: u64, rate_micro_usd_per_icp: u64) -> (r: u128)
    ensures
        r == icp_e8s as nat * rate_micro_usd_per_icp as nat / 100_000_000,
{
    let icp = icp_e8s as u128;
    let rate = rate_micro_usd_per_icp as u128;
    assert(icp * rate <= u64::MAX as nat * u64::MAX as nat) by (nonlinear_arith)
        requires
            icp <= u64::MAX,
            rate <= u64::MAX,
    ;
    icp * rate / 100_000_000u128
}

/// Upper bound on the whole units any contribution can reach.
pub open spec fn max_usd_units() -> nat {
    (u64::MAX as nat * u64::MAX as nat / 100_000_000) / 1_000_000
}

/// Points for a contribution of `icp_e8s` at the given rate.
pub fn contributor_points(icp_e8s: u64, rate_micro_usd_per_icp: u64) -> (r: u128)
    ensures
        r == tiered_points(usd_units(icp_e8s as nat, rate_micro_usd_per_icp as nat)),
        r <= 2 * max_usd_units(),
{
    let micro = icp_usd(icp_e8s, rate_micro_usd_per_icp);
    let usd = micro / 1_000_000u128;
    proof {
        let p = icp_e8s as nat * rate_micro_usd_per_icp as nat;
        let m = u64::MAX as nat * u64::MAX as nat;
        assert(p <= m) by (nonlinear_arith)
            requires
                icp_e8s <= u64::MAX,
                rate_micro_usd_per_icp <= u64::MAX,
                p == icp_e8s as nat * rate_micro_usd_per_icp as nat,
                m == u64::MAX as nat * u64::MAX as nat,
        ;
        assert(p / 100_000_000 <= m / 100_000_000) by (nonlinear_arith)
            requires
                p <= m,
        ;
        assert(micro / 1_000_000 <= (m / 100_000_000) / 1_000_000) by (nonlinear_arith)
            requires
                micro <= m / 100_000_000,
        ;
    }
    if usd <= 100_000 {
        usd
    } else {
        100_000 + 2 * (usd - 100_000)
    }
}

/// Holder, contributor and weighted total points of one account.
pub struct PointsBreakdown {
    pub holder_points: u64,
    pub contributor_points: u128,
    pub total_points: u128,
}

/// Weighted sum of the two point kinds.
pub fn combine_points(w_holder: u32, holder: u64, w_contribution: u32, contribution: u128) -> (r: u128)
    requires
        holder <= 39,
        contribution <= 2 * max_usd_units(),
    ensures
        r == weighted_total(w_holder as nat, holder as nat, w_contribution as nat, contribution as nat),
{
    assert(w_holder as nat * holder as nat <= u32::MAX as nat * 39) by (nonlinear_arith)
        requires
            w_holder <= u32::MAX,
            holder <= 39,
    ;
    let a = w_holder as u128 * holder as u128;
    assert(w_contribution as nat * contribution as nat <= u32::MAX as nat * (2 * max_usd_units()))
        by (nonlinear_arith)
        requires
            w_contribution <= u32::MAX,
            contribution <= 2 * max_usd_units(),
    ;
    let b = w_contribution as u128 * contribution;
    a + b
}

} // verus!
