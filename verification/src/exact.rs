//! Exact arithmetic on natural numbers: sums and the comparison of quotients.

use crate::types::Ratio;
use vstd::prelude::*;

verus! {

/// The sum of the numbers of `s`.
pub open spec fn total(s: Seq<u64>) -> int
    decreases s.len(),
{
    if s.len() == 0 {
        0
    } else {
        total(s.drop_last()) + s.last()
    }
}

/// A sum lies between nothing and as many times the largest `u64` as it has
/// terms.
pub proof fn lemma_total_bound(s: Seq<u64>)
    ensures
        0 <= total(s) <= s.len() * u64::MAX,
    decreases s.len(),
{
    if s.len() > 0 {
        lemma_total_bound(s.drop_last());
        assert(total(s.drop_last()) + s.last() <= s.len() * u64::MAX) by (nonlinear_arith)
            requires
                total(s.drop_last()) <= (s.len() - 1) * u64::MAX,
                s.last() <= u64::MAX,
        ;
    }
}

/// The sum of the numbers of `v`.
pub fn sum(v: &Vec<u64>) -> (r: u128)
    ensures
        r == total(v@),
{
    let mut r: u128 = 0;
    let mut i: usize = 0;
    while i < v.len()
        invariant
            i <= v.len(),
            r == total(v@.subrange(0, i as int)),
        decreases v.len() - i,
    {
        proof {
            let next = v@.subrange(0, i + 1);
            assert(next.drop_last() =~= v@.subrange(0, i as int));
            lemma_total_bound(next);
            assert(next.len() * u64::MAX <= u64::MAX * u64::MAX) by (nonlinear_arith)
                requires
                    next.len() <= u64::MAX,
            ;
        }
        r = r + v[i] as u128;
        i += 1;
    }
    assert(v@.subrange(0, i as int) =~= v@);
    r
}

/// Two to the power of 64.
pub const LIMB: u128 = 0x1_0000_0000_0000_0000;

/// The product of `a` and `b` in two parts: `high * LIMB + low`.
pub fn wide_mul(a: u64, b: u128) -> (r: (u128, u64))
    ensures
        a * b == r.0 * LIMB + r.1,
{
    let b_high: u128 = b / LIMB;
    let b_low: u128 = b % LIMB;
    assert(a * b_high <= u64::MAX * u64::MAX) by (nonlinear_arith)
        requires
            a <= u64::MAX,
            b_high <= u64::MAX,
    ;
    assert(a * b_low <= u64::MAX * u64::MAX) by (nonlinear_arith)
        requires
            a <= u64::MAX,
            b_low <= u64::MAX,
    ;
    let x: u128 = a as u128 * b_high;
    let y: u128 = a as u128 * b_low;
    let high: u128 = x + y / LIMB;
    let low: u64 = (y % LIMB) as u64;
    assert(a * b == high * LIMB + low) by (nonlinear_arith)
        requires
            b == b_high * LIMB + b_low,
            x == a * b_high,
            y == a * b_low,
            high == x + y / LIMB,
            low == y % LIMB,
            LIMB > 0,
    ;
    (high, low)
}

/// Whether `a1 * b1` is less than `a2 * b2`.
pub fn product_less(a1: u64, b1: u128, a2: u64, b2: u128) -> (r: bool)
    ensures
        r == (a1 * b1 < a2 * b2),
{
    let (high1, low1) = wide_mul(a1, b1);
    let (high2, low2) = wide_mul(a2, b2);
    high1 < high2 || (high1 == high2 && low1 < low2)
}

impl Ratio {
    /// The quotient that is exactly nothing.
    pub open spec fn zero() -> Ratio {
        Ratio { num: 0, den: 1 }
    }
}

} // verus!
