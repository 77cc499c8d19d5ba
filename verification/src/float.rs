//! Order and equality of 64-bit floats, by their bit patterns.

use vstd::prelude::*;
use vstd::arithmetic::power2::*;
use crate::bitpack::power_of_two;
use crate::bytes::lemma_pow2_monotone;
use crate::encode::{bit_width, lemma_bit_width, width_of};

verus! {

/// The bit pattern of positive infinity.
pub const F64_INFINITY: u64 = 0x7FF0_0000_0000_0000;

/// The bit pattern of negative infinity.
pub const F64_NEG_INFINITY: u64 = 0xFFF0_0000_0000_0000;

/// Whether the pattern is one of the NaNs.
pub open spec fn is_nan(x: u64) -> bool {
    x % 0x8000_0000_0000_0000 > F64_INFINITY
}

/// Where a number stands among all floats. Both zeros stand at 0.
pub open spec fn rank(x: u64) -> int {
    if x < 0x8000_0000_0000_0000 {
        x as int
    } else {
        0x8000_0000_0000_0000 - x
    }
}

/// `a == b` on floats: a NaN equals nothing, the two zeros are equal.
pub open spec fn f64_same(a: u64, b: u64) -> bool {
    !is_nan(a) && !is_nan(b) && rank(a) == rank(b)
}

/// `a < b` on floats: a NaN is below nothing and above nothing.
pub open spec fn f64_below(a: u64, b: u64) -> bool {
    !is_nan(a) && !is_nan(b) && rank(a) < rank(b)
}

pub fn nan(x: u64) -> (r: bool)
    ensures
        r == is_nan(x),
{
    x % 0x8000_0000_0000_0000 > F64_INFINITY
}

pub fn f64_rank(x: u64) -> (r: i64)
    ensures
        r == rank(x),
{
    if x < 0x8000_0000_0000_0000 {
        x as i64
    } else {
        -((x - 0x8000_0000_0000_0000) as i64)
    }
}

pub fn f64_eq(a: u64, b: u64) -> (r: bool)
    ensures
        r == f64_same(a, b),
{
    !nan(a) && !nan(b) && f64_rank(a) == f64_rank(b)
}

pub fn f64_lt(a: u64, b: u64) -> (r: bool)
    ensures
        r == f64_below(a, b),
{
    !nan(a) && !nan(b) && f64_rank(a) < f64_rank(b)
}

/// The least number in the list, or infinity where it holds none. Of equal
/// numbers the first counts.
pub open spec fn f64_least(s: Seq<u64>) -> u64
    decreases s.len(),
{
    if s.len() == 0 {
        F64_INFINITY
    } else {
        let m = f64_least(s.drop_last());
        if f64_below(s.last(), m) {
            s.last()
        } else {
            m
        }
    }
}

/// The greatest number in the list, or negative infinity where it holds none.
pub open spec fn f64_greatest(s: Seq<u64>) -> u64
    decreases s.len(),
{
    if s.len() == 0 {
        F64_NEG_INFINITY
    } else {
        let m = f64_greatest(s.drop_last());
        if f64_below(m, s.last()) {
            s.last()
        } else {
            m
        }
    }
}

pub fn f64_min_max(s: &[u64]) -> (r: (u64, u64))
    ensures
        r.0 == f64_least(s@),
        r.1 == f64_greatest(s@),
{
    let mut lo: u64 = F64_INFINITY;
    let mut hi: u64 = F64_NEG_INFINITY;
    let mut i: usize = 0;
    proof {
        assert(s@.take(0) =~= Seq::<u64>::empty());
    }
    while i < s.len()
        invariant
            i <= s@.len(),
            lo == f64_least(s@.take(i as int)),
            hi == f64_greatest(s@.take(i as int)),
        decreases s@.len() - i,
    {
        let x: u64 = s[i];
        proof {
            assert(s@.take(i as int + 1).drop_last() =~= s@.take(i as int));
        }
        if f64_lt(x, lo) {
            lo = x;
        }
        if f64_lt(hi, x) {
            hi = x;
        }
        i = i + 1;
    }
    proof {
        assert(s@.take(i as int) =~= s@);
    }
    (lo, hi)
}

/// The least and greatest are bounds of every number in the list.
pub proof fn f64_bounds(s: Seq<u64>, i: int)
    requires
        0 <= i < s.len(),
        !is_nan(s[i]),
    ensures
        rank(f64_least(s)) <= rank(s[i]) <= rank(f64_greatest(s)),
        !is_nan(f64_least(s)),
        !is_nan(f64_greatest(s)),
    decreases s.len(),
{
    lemma_bounds_are_numbers(s);
    lemma_bounds_are_numbers(s.drop_last());
    if i < s.len() - 1 {
        assert(s.drop_last()[i] == s[i]);
        f64_bounds(s.drop_last(), i);
    }
}

proof fn lemma_bounds_are_numbers(s: Seq<u64>)
    ensures
        !is_nan(f64_least(s)),
        !is_nan(f64_greatest(s)),
    decreases s.len(),
{
    if s.len() > 0 {
        lemma_bounds_are_numbers(s.drop_last());
    }
}


/// `m / d` rounded to the nearest, a tie to the even one.
pub open spec fn round_half_even(m: nat, d: nat) -> nat {
    let q = m / d;
    let r = m % d;
    if 2 * r < d {
        q
    } else if 2 * r > d {
        q + 1
    } else {
        q + q % 2
    }
}

/// The bit pattern of the float nearest to a number below 2^64.
pub open spec fn f64_of_nat(m: nat) -> nat {
    if m == 0 {
        0
    } else {
        let e = (bit_width(m) - 1) as nat;
        let frac = if e <= 52 {
            m * pow2((52 - e) as nat)
        } else {
            round_half_even(m, pow2((e - 52) as nat))
        };
        ((e + 1022) * pow2(52) + frac) as nat
    }
}

/// The bit pattern of the float nearest to a whole number.
pub open spec fn f64_of_int(v: int) -> u64 {
    if v < 0 {
        (0x8000_0000_0000_0000 + f64_of_nat((-v) as nat)) as u64
    } else {
        f64_of_nat(v as nat) as u64
    }
}

pub proof fn lemma_bit_width_low(m: nat)
    requires
        m >= 1,
    ensures
        pow2((bit_width(m) - 1) as nat) <= m,
    decreases m,
{
    lemma2_to64();
    if m >= 2 {
        lemma_bit_width_low(m / 2);
        lemma_bit_width(m / 2);
        lemma_pow2_unfold((bit_width(m) - 1) as nat);
    }
}

fn nat_to_f64(m: u64) -> (r: u64)
    ensures
        r == f64_of_nat(m as nat),
        r < 0x8000_0000_0000_0000,
        r <= 0x43F0_0000_0000_0000,
{
    if m == 0 {
        return 0;
    }
    proof {
        lemma_bit_width(m as nat);
        lemma_bit_width_low(m as nat);
        lemma2_to64();
        lemma2_to64_rest();
    }
    let e: u32 = width_of(m) as u32 - 1;
    if e <= 52 {
        let scale: u128 = power_of_two(52 - e);
        proof {
            lemma_pow2_adds((e + 1) as nat, (52 - e) as nat);
            assert(pow2(53) == 0x20_0000_0000_0000);
            assert(m as int * scale as int <= 0x20_0000_0000_0000) by (nonlinear_arith)
                requires
                    0 <= m as int <= pow2((e + 1) as nat) as int,
                    scale as int == pow2((52 - e) as nat) as int,
                    scale as int >= 0,
                    pow2((e + 1) as nat) as int * pow2((52 - e) as nat) as int
                        == 0x20_0000_0000_0000,
            ;
        }
        let frac: u64 = (m as u128 * scale) as u64;
        (e as u64 + 1022) * 0x10_0000_0000_0000 + frac
    } else {
        let d: u64 = power_of_two(e - 52) as u64;
        proof {
            lemma_pow2_monotone((e - 52) as nat, 11);
            lemma_pow2_pos((e - 52) as nat);
            lemma_pow2_adds(53, (e - 52) as nat);
            assert(m as int / d as int <= 0x20_0000_0000_0000) by (nonlinear_arith)
                requires
                    0 <= m as int <= 0x20_0000_0000_0000 * d as int,
                    d as int > 0,
            ;
        }
        let q: u64 = m / d;
        let r: u64 = m % d;
        proof {
            assert(pow2(11) == 2048);
        }
        let frac: u64 = if 2 * r < d {
            q
        } else if 2 * r > d {
            q + 1
        } else {
            q + q % 2
        };
        proof {
            assert(frac <= 0x20_0000_0000_0000) by {
                lemma_round_up_bound(m as nat, d as nat);
            }
        }
        (e as u64 + 1022) * 0x10_0000_0000_0000 + frac
    }
}

/// Rounding up never passes 2^53 where the number is below 2^53 times `d`.
proof fn lemma_round_up_bound(m: nat, d: nat)
    requires
        d > 0,
        m < 0x20_0000_0000_0000 * d,
    ensures
        round_half_even(m, d) <= 0x20_0000_0000_0000,
{
    let q = m / d;
    assert(q < 0x20_0000_0000_0000) by (nonlinear_arith)
        requires m < 0x20_0000_0000_0000 * d, d > 0, q == m / d,
    ;
}

/// The float nearest to a signed number.
pub fn int_to_f64(v: i64) -> (r: u64)
    ensures
        r == f64_of_int(v as int),
        !is_nan(r),
{
    if v < 0 {
        0x8000_0000_0000_0000 + nat_to_f64((-(v as i128)) as u64)
    } else {
        nat_to_f64(v as u64)
    }
}

/// The float nearest to an unsigned number.
pub fn uint_to_f64(v: u64) -> (r: u64)
    ensures
        r == f64_of_int(v as int),
        !is_nan(r),
{
    nat_to_f64(v)
}

} // verus!
